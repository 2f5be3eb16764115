//! Spatial hashing for the particle simulations: a grid of chunks, each
//! holding the indices of the particles inside it, so that a particle only
//! looks at particles in its own and the surrounding chunks.
use vstd::prelude::*;

use crate::grid::Grid;

verus! {

/// Selects the placements that put their particle in chunk `(column, row)`.
pub open spec fn at_chunk(column: int, row: int) -> spec_fn((usize, isize, isize)) -> bool {
    |p: (usize, isize, isize)| p.1 == column && p.2 == row
}

/// The indices that `placements` put in chunk `(column, row)`, in order.
pub open spec fn placed_in(placements: Seq<(usize, isize, isize)>, column: int, row: int) -> Seq<usize> {
    placements.filter(at_chunk(column, row)).map_values(|p: (usize, isize, isize)| p.0)
}

/// The contents of a sequence of chunks, one after the other.
pub open spec fn concatenated(chunks: Seq<Vec<usize>>) -> Seq<usize> {
    chunks.map_values(|c: Vec<usize>| c@).flatten()
}

/// Selects every index but `exclude`.
pub open spec fn other_than(exclude: usize) -> spec_fn(usize) -> bool {
    |j: usize| j != exclude
}

/// Empties every chunk, resizes the grid to `columns` by `rows`, and files
/// each placement `(index, column, row)` under its chunk. A placement
/// outside the grid is dropped.
pub fn rebuild_chunks(
    chunks: &mut Grid<Vec<usize>>,
    columns: usize,
    rows: usize,
    placements: &Vec<(usize, isize, isize)>,
)
    requires
        columns * rows <= usize::MAX,
    ensures
        final(chunks).wf(),
        final(chunks).ncols() == columns,
        final(chunks).nrows() == rows,
        forall|c: int, r: int|
            0 <= c < columns && 0 <= r < rows ==> (#[trigger] final(chunks).cell(c, r))@ == placed_in(
                placements@,
                c,
                r,
            ),
{
    let mut i: usize = 0;
    let ghost len = chunks.cells().len();
    while i < chunks.size_unchecked()
        invariant
            chunks.cells().len() == len,
            forall|j: int| 0 <= j < i ==> (#[trigger] chunks.cells()[j])@ == Seq::<usize>::empty(),
        decreases len - i,
    {
        match chunks.get_mut_by_index(i) {
            Some(chunk) => chunk.clear(),
            None => {},
        }
        i += 1;
    }
    chunks.resize_with_defaults(columns, rows);
    assert forall|j: int| 0 <= j < chunks.cells().len() implies (#[trigger] chunks.cells()[j])@
        == Seq::<usize>::empty() by {
        if j >= len {
            assert(call_ensures(Vec::<usize>::default, (), chunks.cells()[j]));
        }
    }
    assert forall|c: int, r: int| 0 <= c < columns && 0 <= r < rows implies (#[trigger] chunks.cell(c, r))@
        == placed_in(placements@.take(0), c, r) by {
        placements@.take(0).lemma_filter_len(at_chunk(c, r));
        crate::grid::lemma_flat_index_in_range(columns as int, rows as int, c, r);
    }
    let mut k: usize = 0;
    while k < placements.len()
        invariant
            chunks.wf(),
            chunks.ncols() == columns,
            chunks.nrows() == rows,
            k <= placements@.len(),
            forall|c: int, r: int|
                0 <= c < columns && 0 <= r < rows ==> (#[trigger] chunks.cell(c, r))@ == placed_in(
                    placements@.take(k as int),
                    c,
                    r,
                ),
        decreases placements@.len() - k,
    {
        let (index, column, row) = placements[k];
        let ghost before = *chunks;
        let ghost p = placements@[k as int];
        proof {
            placements@.lemma_take_succ_push(k as int);
        }
        match chunks.get_mut(column, row) {
            Some(chunk) => {
                chunk.push(index);
            },
            None => {},
        }
        assert forall|c: int, r: int| 0 <= c < columns && 0 <= r < rows implies (#[trigger] chunks.cell(c, r))@
            == placed_in(placements@.take(k + 1), c, r) by {
            placements@.take(k as int).lemma_filter_push(p, at_chunk(c, r));
            placements@.take(k as int).filter(at_chunk(c, r)).lemma_push_map_commute(
                |q: (usize, isize, isize)| q.0,
                p,
            );
            crate::grid::lemma_flat_index_in_range(columns as int, rows as int, c, r);
            assert(before.cell(c, r)@ == placed_in(placements@.take(k as int), c, r));
            if chunks.in_bounds(column as int, row as int) {
                crate::grid::lemma_flat_index_in_range(columns as int, rows as int, column as int, row as int);
                if !(c == column && r == row) {
                    crate::grid::lemma_flat_index_distinct(columns as int, c, r, column as int, row as int);
                }
            }
        }
        k += 1;
    }
    assert(placements@.take(placements@.len() as int) =~= placements@);
}

/// The indices filed in chunk `(column, row)` and the eight chunks around
/// it, chunk after chunk in neighbourhood order, leaving out `exclude`: the
/// candidates a particle looks at, other than itself.
pub fn neighbour_indices(chunks: &Grid<Vec<usize>>, column: isize, row: isize, exclude: usize) -> (v: Vec<usize>)
    requires
        chunks.wf(),
        isize::MIN < column < isize::MAX,
        isize::MIN < row < isize::MAX,
    ensures
        v@ == concatenated(chunks.neighbourhood(column as int, row as int, 1)).filter(other_than(exclude)),
{
    assert((2 * 1usize + 1) * (2 * 1usize + 1) == 9) by (nonlinear_arith);
    let near = chunks.get_neighbourhood(column, row, 1);
    let ghost nb = chunks.neighbourhood(column as int, row as int, 1);
    let ghost keep = other_than(exclude);
    assert(near@.map_values(|r: &Vec<usize>| *r) == nb);
    let mut out: Vec<usize> = Vec::new();
    let mut k: usize = 0;
    while k < near.len()
        invariant
            near@.map_values(|r: &Vec<usize>| *r) == nb,
            keep == other_than(exclude),
            k <= near@.len(),
            out@ == concatenated(nb.take(k as int)).filter(keep),
        decreases near@.len() - k,
    {
        let chunk: &Vec<usize> = near[k];
        assert(*chunk == nb[k as int]);
        let ghost done = concatenated(nb.take(k as int));
        let mut j: usize = 0;
        while j < chunk.len()
            invariant
                keep == other_than(exclude),
                j <= chunk@.len(),
                out@ == (done + chunk@.take(j as int)).filter(keep),
            decreases chunk@.len() - j,
        {
            let idx = chunk[j];
            proof {
                chunk@.lemma_take_succ_push(j as int);
                assert(done + chunk@.take(j + 1) =~= (done + chunk@.take(j as int)).push(idx));
                (done + chunk@.take(j as int)).lemma_filter_push(idx, keep);
            }
            if idx != exclude {
                out.push(idx);
            }
            j += 1;
        }
        proof {
            assert(chunk@.take(chunk@.len() as int) =~= chunk@);
            nb.lemma_take_succ_push(k as int);
            nb.take(k as int).lemma_push_map_commute(|c: Vec<usize>| c@, nb[k as int]);
            nb.take(k as int).map_values(|c: Vec<usize>| c@).lemma_flatten_push(nb[k as int]@);
        }
        k += 1;
    }
    proof {
        assert(nb.take(near@.len() as int) =~= nb);
    }
    out
}

/// Every placement is filed in the chunk it names.
pub proof fn lemma_placement_is_filed(placements: Seq<(usize, isize, isize)>, k: int)
    requires
        0 <= k < placements.len(),
    ensures
        placed_in(placements, placements[k].1 as int, placements[k].2 as int).contains(placements[k].0),
{
    let p = placements[k];
    let keep = at_chunk(p.1 as int, p.2 as int);
    placements.lemma_filter_contains(keep, k);
    let kept = placements.filter(keep);
    assert(kept.contains(p));
    let j = choose|j: int| 0 <= j < kept.len() && kept[j] == p;
    assert(kept.map_values(|q: (usize, isize, isize)| q.0)[j] == p.0);
}

} // verus!
