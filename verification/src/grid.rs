//! A rectangular grid of cells stored row-major.
use vstd::prelude::*;

verus! {

/// A `columns` by `rows` grid, stored row-major: the cell at `(column, row)`
/// lives at index `column + row * columns`.
#[derive(Debug)]
pub struct Grid<T> {
    inner: Vec<T>,
    columns: usize,
    rows: usize,
}

/// The product of two bounds bounds each index they span.
pub proof fn lemma_flat_index_in_range(columns: int, rows: int, column: int, row: int)
    requires
        0 <= column < columns,
        0 <= row < rows,
    ensures
        0 <= column + row * columns < columns * rows,
        column + row * columns < rows * columns,
        row * columns <= column + row * columns,
{
    assert(0 <= row * columns) by (nonlinear_arith)
        requires
            0 <= row,
            0 <= columns,
    ;
    assert(row * columns + columns <= rows * columns) by (nonlinear_arith)
        requires
            row + 1 <= rows,
            0 <= columns,
    ;
    assert(columns * rows == rows * columns) by (nonlinear_arith);
}

/// Two different cells of a row-major layout sit at different indices.
pub proof fn lemma_flat_index_distinct(columns: int, c1: int, r1: int, c2: int, r2: int)
    requires
        0 <= c1 < columns,
        0 <= c2 < columns,
        0 <= r1,
        0 <= r2,
        !(c1 == c2 && r1 == r2),
    ensures
        c1 + r1 * columns != c2 + r2 * columns,
{
    if r1 == r2 {
    } else if r1 < r2 {
        assert(r1 * columns + columns <= r2 * columns) by (nonlinear_arith)
            requires
                r1 + 1 <= r2,
                0 <= columns,
        ;
    } else {
        assert(r2 * columns + columns <= r1 * columns) by (nonlinear_arith)
            requires
                r2 + 1 <= r1,
                0 <= columns,
        ;
    }
}

impl<T> Grid<T> {
    /// The cells, row-major.
    pub closed spec fn cells(&self) -> Seq<T> {
        self.inner@
    }

    /// The number of columns.
    pub closed spec fn ncols(&self) -> nat {
        self.columns as nat
    }

    /// The number of rows.
    pub closed spec fn nrows(&self) -> nat {
        self.rows as nat
    }

    /// The grid's one invariant: its length matches its dimensions.
    pub open spec fn wf(&self) -> bool {
        self.cells().len() == self.ncols() * self.nrows()
    }

    /// Whether `(column, row)` names a cell of this grid.
    pub open spec fn in_bounds(&self, column: int, row: int) -> bool {
        0 <= column < self.ncols() && 0 <= row < self.nrows()
    }

    /// Where the cell at `(column, row)` sits in the row-major layout.
    pub open spec fn flat_index(&self, column: int, row: int) -> int {
        column + row * self.ncols()
    }

    /// The cell at `(column, row)`.
    pub open spec fn cell(&self, column: int, row: int) -> T {
        self.cells()[self.flat_index(column, row)]
    }

    /// The cell at `(column, row)`, or `None` outside the grid.
    pub open spec fn cell_at(&self, column: int, row: int) -> Option<T> {
        if self.in_bounds(column, row) {
            Some(self.cell(column, row))
        } else {
            None
        }
    }

    /// Constructs a new grid with the given values.
    ///
    /// `cells` must be exactly `columns * rows` long: a grid whose length
    /// disagrees with its dimensions would index wrongly for the rest of its
    /// life.
    pub fn new(cells: Vec<T>, columns: usize, rows: usize) -> (g: Self)
        requires
            columns * rows == cells@.len(),
        ensures
            g.wf(),
            g.cells() == cells@,
            g.ncols() == columns,
            g.nrows() == rows,
    {
        Self { inner: cells, columns, rows }
    }

    /// Returns the number of rows in the grid.
    pub fn rows(&self) -> (r: usize)
        ensures
            r == self.nrows(),
    {
        self.rows
    }

    /// Returns the number of columns in the grid.
    pub fn columns(&self) -> (c: usize)
        ensures
            c == self.ncols(),
    {
        self.columns
    }

    /// Returns the number of cells in the grid.
    pub fn size(&self) -> (n: usize)
        requires
            self.wf(),
        ensures
            n == self.ncols() * self.nrows(),
    {
        self.inner.len()
    }

    /// The number of cells, whatever the dimensions say.
    pub fn size_unchecked(&self) -> (n: usize)
        ensures
            n == self.cells().len(),
    {
        self.inner.len()
    }

    fn coords_are_in_bounds(&self, column: isize, row: isize) -> (b: bool)
        ensures
            b == self.in_bounds(column as int, row as int),
    {
        column >= 0 && row >= 0 && (column as usize) < self.columns && (row as usize) < self.rows
    }

    /// Calculates the index of a cell, given its column and row.
    pub fn index(&self, column: isize, row: isize) -> (i: Option<usize>)
        requires
            self.wf(),
        ensures
            i is Some <==> self.in_bounds(column as int, row as int),
            i matches Some(k) ==> k == self.flat_index(column as int, row as int) && k
                < self.cells().len(),
    {
        let len = self.inner.len();
        if self.coords_are_in_bounds(column, row) {
            proof {
                lemma_flat_index_in_range(
                    self.columns as int,
                    self.rows as int,
                    column as int,
                    row as int,
                );
            }
            let i = column as usize + row as usize * self.columns;
            Some(i)
        } else {
            None
        }
    }

    /// Returns a reference to a grid cell, by column and row.
    pub fn get(&self, column: isize, row: isize) -> (r: Option<&T>)
        requires
            self.wf(),
        ensures
            r == (if self.in_bounds(column as int, row as int) {
                Some(&self.cell(column as int, row as int))
            } else {
                None::<&T>
            }),
    {
        match self.index(column, row) {
            Some(i) => Some(&self.inner[i]),
            None => None,
        }
    }

    /// Returns a reference to a grid cell, by index.
    pub fn get_by_index(&self, index: usize) -> (r: Option<&T>)
        ensures
            r == (if index < self.cells().len() {
                Some(&self.cells()[index as int])
            } else {
                None::<&T>
            }),
    {
        if index < self.inner.len() {
            Some(&self.inner[index])
        } else {
            None
        }
    }

    /// Returns a mutable reference to a grid cell, by column and row.
    pub fn get_mut(&mut self, column: isize, row: isize) -> (r: Option<&mut T>)
        requires
            old(self).wf(),
        ensures
            r is Some <==> old(self).in_bounds(column as int, row as int),
            final(self).wf(),
            final(self).cells().len() == old(self).cells().len(),
            final(self).ncols() == old(self).ncols(),
            final(self).nrows() == old(self).nrows(),
            r matches Some(v) ==> *v == old(self).cell(column as int, row as int)
                && final(self).cells() == old(self).cells().update(
                old(self).flat_index(column as int, row as int),
                *final(v),
            ),
            r is None ==> final(self).cells() == old(self).cells(),
    {
        proof {
            if self.in_bounds(column as int, row as int) {
                lemma_flat_index_in_range(self.ncols() as int, self.nrows() as int, column as int, row as int);
            }
        }
        match self.index(column, row) {
            Some(i) => Some(&mut self.inner[i]),
            None => None,
        }
    }

    /// Returns a mutable reference to a grid cell, by index.
    pub fn get_mut_by_index(&mut self, index: usize) -> (r: Option<&mut T>)
        ensures
            r is Some <==> index < old(self).cells().len(),
            final(self).ncols() == old(self).ncols(),
            final(self).nrows() == old(self).nrows(),
            r matches Some(v) ==> *v == old(self).cells()[index as int] && final(self).cells()
                == old(self).cells().update(index as int, *final(v)),
            r is None ==> final(self).cells() == old(self).cells(),
    {
        if index < self.inner.len() {
            Some(&mut self.inner[index])
        } else {
            None
        }
    }

    /// The cells, row-major.
    pub fn iter(&self) -> (s: &[T])
        ensures
            s@ == self.cells(),
    {
        self.inner.as_slice()
    }

    /// The cells, row-major, for updating in place.
    pub fn iter_mut(&mut self) -> (s: &mut [T])
        ensures
            s@ == old(self).cells(),
            final(self).cells() == final(s)@,
            final(self).ncols() == old(self).ncols(),
            final(self).nrows() == old(self).nrows(),
    {
        self.inner.as_mut_slice()
    }
}

/// Iterating a grid by value yields its cells, row-major.
impl<T> IntoIterator for Grid<T> {
    type Item = T;
    type IntoIter = std::vec::IntoIter<T>;

    fn into_iter(self) -> (it: std::vec::IntoIter<T>)
        ensures
            vstd::std_specs::iter::IteratorSpec::remaining(&it) == self.cells(),
    {
        proof {
            vstd::std_specs::vec::axiom_spec_into_iter(self.inner);
        }
        self.inner.into_iter()
    }
}

impl<T: Default> Grid<T> {
    /// Constructs a new grid with every cell at its default value.
    pub fn with_defaults(columns: usize, rows: usize) -> (g: Self)
        requires
            columns * rows <= usize::MAX,
        ensures
            g.wf(),
            g.ncols() == columns,
            g.nrows() == rows,
            forall|i: int| 0 <= i < g.cells().len() ==> call_ensures(T::default, (), #[trigger] g.cells()[i]),
    {
        let len = columns * rows;
        let mut inner: Vec<T> = Vec::with_capacity(len);
        while inner.len() < len
            invariant
                inner@.len() <= len,
                forall|i: int| 0 <= i < inner@.len() ==> call_ensures(T::default, (), #[trigger] inner@[i]),
            decreases len - inner@.len(),
        {
            inner.push(T::default());
        }
        Self::new(inner, columns, rows)
    }

    /// Resizes the grid, filling any new cells with the default value.
    ///
    /// Cell contents are not carried across a change in `columns`: the
    /// layout is row-major, so a different column count reinterprets every
    /// index. The cells that survive are the leading ones of the old layout.
    pub fn resize_with_defaults(&mut self, columns: usize, rows: usize)
        requires
            columns * rows <= usize::MAX,
        ensures
            final(self).wf(),
            final(self).ncols() == columns,
            final(self).nrows() == rows,
            forall|i: int|
                0 <= i < final(self).cells().len() && i < old(self).cells().len() ==> #[trigger] final(self).cells()[i]
                    == old(self).cells()[i],
            old(self).cells().len() == columns * rows ==> final(self).cells() == old(self).cells(),
            old(self).wf() && old(self).ncols() == columns && old(self).nrows() == rows
                ==> final(self).cells() == old(self).cells(),
            forall|i: int|
                old(self).cells().len() <= i < final(self).cells().len() ==> call_ensures(
                    T::default,
                    (),
                    #[trigger] final(self).cells()[i],
                ),
    {
        let len = columns * rows;
        self.columns = columns;
        self.rows = rows;
        self.inner.truncate(len);
        let ghost kept = self.inner@;
        while self.inner.len() < len
            invariant
                kept.len() <= self.inner@.len() <= len,
                kept.len() == if len <= old(self).cells().len() { len as int } else { old(self).cells().len() as int },
                self.columns == columns,
                self.rows == rows,
                forall|i: int| 0 <= i < kept.len() ==> #[trigger] self.inner@[i] == old(self).cells()[i],
                forall|i: int|
                    kept.len() <= i < self.inner@.len() ==> call_ensures(T::default, (), #[trigger] self.inner@[i]),
            decreases len - self.inner@.len(),
        {
            self.inner.push(T::default());
        }
        proof {
            if old(self).cells().len() == columns * rows {
                assert(self.inner@ =~= old(self).cells());
            }
        }
    }
}

impl<T> Grid<T> {
    /// Constructs a new grid, generating the cell at `(column, row)` as
    /// `f(column, row)`, row by row.
    pub fn from_generator<F: Fn(usize, usize) -> T>(columns: usize, rows: usize, f: F) -> (g: Self)
        requires
            columns * rows <= usize::MAX,
            forall|c: usize, r: usize| c < columns && r < rows ==> #[trigger] f.requires((c, r)),
        ensures
            g.wf(),
            g.ncols() == columns,
            g.nrows() == rows,
            forall|c: usize, r: usize|
                c < columns && r < rows ==> f.ensures((c, r), #[trigger] g.cell(c as int, r as int)),
    {
        let mut cells: Vec<T> = Vec::with_capacity(columns * rows);
        let mut row: usize = 0;
        while row < rows
            invariant
                row <= rows,
                columns * rows <= usize::MAX,
                cells@.len() == row * columns,
                forall|c: usize, r: usize| c < columns && r < rows ==> #[trigger] f.requires((c, r)),
                forall|c: usize, r: usize|
                    c < columns && r < row ==> f.ensures((c, r), #[trigger] cells@[c + r * columns]),
            decreases rows - row,
        {
            let mut col: usize = 0;
            while col < columns
                invariant
                    row < rows,
                    col <= columns,
                    columns * rows <= usize::MAX,
                    cells@.len() == row * columns + col,
                    forall|c: usize, r: usize| c < columns && r < rows ==> #[trigger] f.requires((c, r)),
                    forall|c: usize, r: usize|
                        c < columns && r < row ==> f.ensures((c, r), #[trigger] cells@[c + r * columns]),
                    forall|c: usize| c < col ==> f.ensures((c, row), #[trigger] cells@[c + row * columns]),
                decreases columns - col,
            {
                proof {
                    lemma_flat_index_in_range(columns as int, rows as int, col as int, row as int);
                }
                let v = f(col, row);
                let ghost before = cells@;
                cells.push(v);
                proof {
                    assert forall|c: usize, r: usize| c < columns && r < row implies f.ensures(
                        (c, r),
                        #[trigger] cells@[c + r * columns],
                    ) by {
                        lemma_flat_index_in_range(columns as int, row as int, c as int, r as int);
                        assert(cells@[c + r * columns] == before[c + r * columns]);
                    }
                }
                col += 1;
            }
            proof {
                assert((row + 1) * columns == row * columns + columns) by (nonlinear_arith);
            }
            row += 1;
        }
        proof {
            assert(rows * columns == columns * rows) by (nonlinear_arith);
        }
        Self::new(cells, columns, rows)
    }
}

/// `value` is what some state of the generator `F` yields for `(column, row)`.
pub open spec fn generated_by<F: FnMut(usize, usize) -> T, T>(column: usize, row: usize, value: T) -> bool {
    exists|state: F| state.ensures((column, row), value)
}

impl<T> Grid<T> {
    /// Like [`Self::from_generator`], but for a generator that carries state,
    /// a random number generator say. The cells are generated row by row, in
    /// the order `(0, 0), (1, 0), ...`.
    pub fn from_generator_mut<F: FnMut(usize, usize) -> T>(columns: usize, rows: usize, mut f: F) -> (g: Self)
        requires
            columns * rows <= usize::MAX,
            forall|state: F, c: usize, r: usize|
                c < columns && r < rows ==> #[trigger] state.requires((c, r)),
        ensures
            g.wf(),
            g.ncols() == columns,
            g.nrows() == rows,
            forall|c: usize, r: usize|
                c < columns && r < rows ==> generated_by::<F, T>(c, r, #[trigger] g.cell(c as int, r as int)),
    {
        let mut cells: Vec<T> = Vec::with_capacity(columns * rows);
        let mut row: usize = 0;
        while row < rows
            invariant
                row <= rows,
                columns * rows <= usize::MAX,
                cells@.len() == row * columns,
                forall|state: F, c: usize, r: usize|
                    c < columns && r < rows ==> #[trigger] state.requires((c, r)),
                forall|c: usize, r: usize|
                    c < columns && r < row ==> generated_by::<F, T>(c, r, #[trigger] cells@[c + r * columns]),
            decreases rows - row,
        {
            let mut col: usize = 0;
            while col < columns
                invariant
                    row < rows,
                    col <= columns,
                    columns * rows <= usize::MAX,
                    cells@.len() == row * columns + col,
                    forall|state: F, c: usize, r: usize|
                        c < columns && r < rows ==> #[trigger] state.requires((c, r)),
                    forall|c: usize, r: usize|
                        c < columns && r < row ==> generated_by::<F, T>(c, r, #[trigger] cells@[c + r * columns]),
                    forall|c: usize| c < col ==> generated_by::<F, T>(c, row, #[trigger] cells@[c + row * columns]),
                decreases columns - col,
            {
                proof {
                    lemma_flat_index_in_range(columns as int, rows as int, col as int, row as int);
                }
                let ghost before_call = f;
                let v = f(col, row);
                let ghost before = cells@;
                cells.push(v);
                proof {
                    assert(before_call.ensures((col, row), cells@[col + row * columns]));
                    assert(generated_by::<F, T>(col, row, cells@[col + row * columns]));
                    assert forall|c: usize, r: usize| c < columns && r < row implies generated_by::<F, T>(c, r, #[trigger] cells@[c + r * columns]) by {
                        lemma_flat_index_in_range(columns as int, row as int, c as int, r as int);
                        assert(cells@[c + r * columns] == before[c + r * columns]);
                    }
                    assert forall|c: usize| c < col + 1 implies generated_by::<F, T>(c, row, #[trigger] cells@[c + row * columns]) by {
                        if c < col {
                            assert(cells@[c + row * columns] == before[c + row * columns]);
                        }
                    }
                }
                col += 1;
            }
            proof {
                assert((row + 1) * columns == row * columns + columns) by (nonlinear_arith);
            }
            row += 1;
        }
        proof {
            assert(rows * columns == columns * rows) by (nonlinear_arith);
        }
        Self::new(cells, columns, rows)
    }
}

/// The coordinates within `distance` of `(column, row)` in both axes, the cell
/// itself included: `(column + dx, row + dy)` for `dx` and then `dy` running
/// from `-distance` to `distance`.
pub open spec fn neighbourhood_coords(column: int, row: int, distance: nat) -> Seq<(int, int)> {
    let w: int = 2 * distance as int + 1;
    Seq::new((w * w) as nat, |k: int| (column - distance + k / w, row - distance + k % w))
}

/// A sequence of machine coordinates as mathematical ones.
pub open spec fn widened(s: Seq<(isize, isize)>) -> Seq<(int, int)> {
    s.map_values(|p: (isize, isize)| (p.0 as int, p.1 as int))
}

impl<T> Grid<T> {
    /// The cells at those of `coords` that `keep` selects, in order.
    pub open spec fn cells_at(&self, coords: Seq<(int, int)>, keep: spec_fn((int, int)) -> bool) -> Seq<T> {
        coords.filter(keep).map_values(|p: (int, int)| self.cell(p.0, p.1))
    }

    /// Selects the coordinates inside the grid.
    pub open spec fn inside(&self) -> spec_fn((int, int)) -> bool {
        |p: (int, int)| self.in_bounds(p.0, p.1)
    }

    /// Selects the coordinates inside the grid other than `(column, row)`.
    pub open spec fn inside_except(&self, column: int, row: int) -> spec_fn((int, int)) -> bool {
        |p: (int, int)| self.in_bounds(p.0, p.1) && !(p.0 == column && p.1 == row)
    }

    /// The cells of the neighbourhood of `(column, row)` that lie inside the
    /// grid, in the order of [`neighbourhood_coords`].
    pub open spec fn neighbourhood(&self, column: int, row: int, distance: nat) -> Seq<T> {
        self.cells_at(neighbourhood_coords(column, row, distance), self.inside())
    }

    /// The same, without the cell at `(column, row)` itself.
    pub open spec fn neighbours(&self, column: int, row: int, distance: nat) -> Seq<T> {
        self.cells_at(neighbourhood_coords(column, row, distance), self.inside_except(column, row))
    }

    /// Returns the coords for the given cell, plus all surrounding cells
    /// within `distance` in both axes.
    pub fn get_neighbourhood_coords(&self, column: isize, row: isize, distance: usize) -> (v: Vec<
        (isize, isize),
    >)
        requires
            isize::MIN <= column - distance,
            column + distance <= isize::MAX,
            isize::MIN <= row - distance,
            row + distance <= isize::MAX,
            (2 * distance + 1) * (2 * distance + 1) <= usize::MAX,
        ensures
            widened(v@) == neighbourhood_coords(column as int, row as int, distance as nat),
    {
        let ghost coords = neighbourhood_coords(column as int, row as int, distance as nat);
        let w = 2 * distance + 1;
        let n = w * w;
        let mut v: Vec<(isize, isize)> = Vec::with_capacity(n);
        let mut k: usize = 0;
        proof {
            assert(usize::MAX == 2 * isize::MAX + 1);
            assert(w <= isize::MAX) by (nonlinear_arith)
                requires
                    w * w <= usize::MAX,
                    w >= 1,
                    usize::MAX == 2 * isize::MAX + 1,
                    isize::MAX > 0,
            ;
        }
        while k < n
            invariant
                w == 2 * distance + 1,
                w <= isize::MAX,
                n == w * w,
                k <= n,
                coords == neighbourhood_coords(column as int, row as int, distance as nat),
                isize::MIN <= column - distance,
                column + distance <= isize::MAX,
                isize::MIN <= row - distance,
                row + distance <= isize::MAX,
                v@.len() == k,
                forall|i: int|
                    0 <= i < k ==> (#[trigger] v@[i]).0 == coords[i].0 && v@[i].1 == coords[i].1,
            decreases n - k,
        {
            let i = k / w;
            let j = k % w;
            proof {
                assert(i < w) by (nonlinear_arith)
                    requires
                        i == k / w,
                        k < w * w,
                        w > 0,
                ;
            }
            let dx = i as isize - distance as isize;
            let dy = j as isize - distance as isize;
            v.push((column + dx, row + dy));
            k += 1;
        }
        proof {
            assert(widened(v@) =~= coords);
        }
        v
    }

    /// The cells at `coords` that lie inside the grid, skipping `exclude`.
    fn gather(&self, coords: &Vec<(isize, isize)>, exclude: Option<(isize, isize)>) -> (v: Vec<&T>)
        requires
            self.wf(),
        ensures
            v@.map_values(|r: &T| *r) == self.cells_at(
                widened(coords@),
                match exclude {
                    Some(e) => self.inside_except(e.0 as int, e.1 as int),
                    None => self.inside(),
                },
            ),
    {
        let ghost keep = match exclude {
            Some(e) => self.inside_except(e.0 as int, e.1 as int),
            None => self.inside(),
        };
        let ghost all = widened(coords@);
        let mut v: Vec<&T> = Vec::new();
        let mut k: usize = 0;
        while k < coords.len()
            invariant
                self.wf(),
                k <= coords@.len(),
                all == widened(coords@),
                keep == (match exclude {
                    Some(e) => self.inside_except(e.0 as int, e.1 as int),
                    None => self.inside(),
                }),
                v@.map_values(|r: &T| *r) == self.cells_at(all.take(k as int), keep),
            decreases coords@.len() - k,
        {
            let p = coords[k];
            let skip = match exclude {
                Some(e) => e.0 == p.0 && e.1 == p.1,
                None => false,
            };
            let ghost before = v@;
            proof {
                all.lemma_take_succ_push(k as int);
                all.take(k as int).lemma_filter_push(all[k as int], keep);
            }
            if !skip {
                match self.get(p.0, p.1) {
                    Some(cell) => {
                        v.push(cell);
                        proof {
                            before.lemma_push_map_commute(|r: &T| *r, cell);
                            all.take(k as int).filter(keep).lemma_push_map_commute(
                                |q: (int, int)| self.cell(q.0, q.1),
                                all[k as int],
                            );
                        }
                    },
                    None => {},
                }
            }
            k += 1;
        }
        proof {
            assert(all.take(coords@.len() as int) =~= all);
        }
        v
    }

    /// Returns the given cell, plus all of its neighbours within the given
    /// distance, in the order of [`neighbourhood_coords`].
    pub fn get_neighbourhood(&self, column: isize, row: isize, distance: usize) -> (v: Vec<&T>)
        requires
            self.wf(),
            isize::MIN <= column - distance,
            column + distance <= isize::MAX,
            isize::MIN <= row - distance,
            row + distance <= isize::MAX,
            (2 * distance + 1) * (2 * distance + 1) <= usize::MAX,
        ensures
            v@.map_values(|r: &T| *r) == self.neighbourhood(column as int, row as int, distance as nat),
    {
        let coords = self.get_neighbourhood_coords(column, row, distance);
        self.gather(&coords, None)
    }

    /// Returns all neighbours within a given distance from the given cell. Does
    /// not return the given cell itself.
    pub fn get_neighbours(&self, column: isize, row: isize, distance: usize) -> (v: Vec<&T>)
        requires
            self.wf(),
            isize::MIN <= column - distance,
            column + distance <= isize::MAX,
            isize::MIN <= row - distance,
            row + distance <= isize::MAX,
            (2 * distance + 1) * (2 * distance + 1) <= usize::MAX,
        ensures
            v@.map_values(|r: &T| *r) == self.neighbours(column as int, row as int, distance as nat),
    {
        let coords = self.get_neighbourhood_coords(column, row, distance);
        self.gather(&coords, Some((column, row)))
    }
}

impl<T: Clone> Clone for Grid<T> {
    /// A grid of the same dimensions whose every cell is a clone.
    fn clone(&self) -> (g: Self)
        ensures
            g.ncols() == self.ncols(),
            g.nrows() == self.nrows(),
            g.cells().len() == self.cells().len(),
            forall|i: int|
                0 <= i < self.cells().len() ==> cloned::<T>(self.cells()[i], #[trigger] g.cells()[i]),
    {
        Grid { inner: self.inner.clone(), columns: self.columns, rows: self.rows }
    }
}

/// The row-major layout covers every index: index `i` of a grid is the cell
/// at column `i % columns`, row `i / columns`.
pub proof fn lemma_index_roundtrip<T>(g: Grid<T>, i: int)
    requires
        g.wf(),
        0 <= i < g.cells().len(),
    ensures
        g.ncols() > 0,
        g.in_bounds(i % g.ncols() as int, i / g.ncols() as int),
        g.flat_index(i % g.ncols() as int, i / g.ncols() as int) == i,
{
    let w = g.ncols() as int;
    let h = g.nrows() as int;
    assert(w > 0) by (nonlinear_arith)
        requires
            0 <= i < w * h,
            w >= 0,
            h >= 0,
    ;
    assert(i == i % w + (i / w) * w && 0 <= i % w < w) by (nonlinear_arith)
        requires
            w > 0,
    ;
    assert(0 <= i / w < h) by (nonlinear_arith)
        requires
            w > 0,
            0 <= i < w * h,
    ;
}

/// The neighbourhood of a cell includes the cell itself, at its middle.
pub proof fn lemma_neighbourhood_contains_centre(column: int, row: int, distance: nat)
    ensures
        neighbourhood_coords(column, row, distance)[(distance * (2 * distance + 1) + distance) as int] == (
        column,
        row,
        ),
        distance * (2 * distance + 1) + distance < neighbourhood_coords(column, row, distance).len(),
{
    let d = distance as int;
    let w = 2 * d + 1;
    let k = d * w + d;
    assert(k / w == d && k % w == d) by (nonlinear_arith)
        requires
            k == d * w + d,
            w == 2 * d + 1,
            d >= 0,
    ;
    assert(k < w * w) by (nonlinear_arith)
        requires
            k == d * w + d,
            w == 2 * d + 1,
            d >= 0,
    ;
}

} // verus!
