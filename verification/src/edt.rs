//! Exact squared Euclidean distance transforms, in integers: the lower
//! envelope of parabolas of Felzenszwalb and Huttenlocher, one line at a time.
//!
//! A line is a sequence of optional values. Each position holding a value is a
//! seed, and rooted at seed `p` with value `f[p]` stands the parabola
//! `x -> f[p] + (x - p)^2`. The transform of the line at `x` is the lowest of
//! these parabolas at `x`, or nothing when the line has no seed.
use vstd::prelude::*;

use crate::bitmap::BinaryBitmap;
use crate::grid::{lemma_flat_index_in_range, Grid};

verus! {

/// The longest line the transforms take. Squared offsets along such a line
/// stay below `2^62`.
pub const SIDE_LIMIT: usize = 0x8000_0000;

/// The largest value a seed may hold.
pub const SEED_LIMIT: u64 = 0x4000_0000_0000_0000;

/// The bound on the crossing numerators: `2^63`.
const CROSSING_LIMIT: i128 = 0x8000_0000_0000_0000;

/// Whether position `p` of `f` is a seed: inside the line and holding a value.
pub open spec fn is_seed(f: Seq<Option<u64>>, p: int) -> bool {
    0 <= p < f.len() && f[p] is Some
}

/// Whether `f` has a seed at all.
pub open spec fn has_seed(f: Seq<Option<u64>>) -> bool {
    exists|p: int| is_seed(f, p)
}

/// Whether every seed of `f` holds at most `SEED_LIMIT`.
pub open spec fn seeds_bounded(f: Seq<Option<u64>>) -> bool {
    forall|p: int| is_seed(f, p) ==> f[p]->0 <= SEED_LIMIT
}

/// The parabola rooted at seed `p`, at `x`: `f[p] + (x - p)^2`.
pub open spec fn parabola(f: Seq<Option<u64>>, p: int, x: int) -> int {
    f[p]->0 + (x - p) * (x - p)
}

/// Whether `d` is the lowest of the seeds' parabolas at `x`: one of them
/// reaches it, and none is below it.
pub open spec fn lowest_at(f: Seq<Option<u64>>, x: int, d: int) -> bool {
    &&& exists|p: int| is_seed(f, p) && #[trigger] parabola(f, p, x) == d
    &&& forall|p: int| is_seed(f, p) ==> d <= #[trigger] parabola(f, p, x)
}

/// Whether `r` is the transform of `f` at `x`: nothing exactly when `f` has no
/// seed, and otherwise the lowest parabola there.
pub open spec fn transform_at(f: Seq<Option<u64>>, x: int, r: Option<u64>) -> bool {
    match r {
        None => !has_seed(f),
        Some(d) => lowest_at(f, x, d as int),
    }
}

/// The smaller of two integers.
spec fn smaller(a: int, b: int) -> int {
    if a <= b {
        a
    } else {
        b
    }
}

/// For seeds `p < r`, parabola `r` lies on or below parabola `p` at `x`
/// exactly when `x * crossing_den(p, r) >= crossing_num(f, p, r)`: the two
/// cross at `crossing_num / crossing_den`.
spec fn crossing_num(f: Seq<Option<u64>>, p: int, r: int) -> int {
    (f[r]->0 + r * r) - (f[p]->0 + p * p)
}

/// See `crossing_num`.
spec fn crossing_den(p: int, r: int) -> int {
    2 * (r - p)
}

/// The lowest, at `x`, of the parabolas rooted at the positions in `s`.
spec fn envelope(f: Seq<Option<u64>>, s: Seq<usize>, x: int) -> int
    decreases s.len(),
{
    if s.len() <= 1 {
        parabola(f, s[0] as int, x)
    } else {
        smaller(envelope(f, s.drop_last(), x), parabola(f, s.last() as int, x))
    }
}

/// The stack of the lower envelope: seeds in increasing order, each beside
/// the point where it overtakes the one before it (`zn[j] / zd[j]`), these
/// points increasing too.
spec fn stack_ok(f: Seq<Option<u64>>, s: Seq<usize>, zn: Seq<i128>, zd: Seq<i128>) -> bool {
    &&& 1 <= s.len()
    &&& zn.len() == s.len()
    &&& zd.len() == s.len()
    &&& forall|j: int| 0 <= j < s.len() ==> is_seed(f, #[trigger] s[j] as int)
    &&& forall|a: int, b: int| 0 <= a < b < s.len() ==> #[trigger] s[a] < #[trigger] s[b]
    &&& forall|j: int|
        0 < j < s.len() ==> #[trigger] zn[j] == crossing_num(f, s[j - 1] as int, s[j] as int)
    &&& forall|j: int| 0 < j < s.len() ==> #[trigger] zd[j] == crossing_den(s[j - 1] as int, s[j] as int)
    &&& forall|j: int| 0 < j < s.len() ==> -CROSSING_LIMIT <= #[trigger] zn[j] <= CROSSING_LIMIT
    &&& forall|j: int| 0 < j < s.len() ==> 2 <= #[trigger] zd[j] <= 2 * SIDE_LIMIT
    &&& forall|a: int, b: int| 0 < a < b < s.len() ==> #[trigger] zn[a] * #[trigger] zd[b] < zn[b] * zd[a]
}

/// How two parabolas differ at `x`.
proof fn lemma_parabola_difference(f: Seq<Option<u64>>, p: int, r: int, x: int)
    ensures
        parabola(f, r, x) - parabola(f, p, x) == crossing_num(f, p, r) - x * crossing_den(p, r),
{
    assert((x - r) * (x - r) - (x - p) * (x - p) == r * r - p * p - x * (2 * (r - p)))
        by (nonlinear_arith);
}

/// `a / b < c / d` and `c / d < x` give `a / b < x`.
proof fn lemma_ratio_below(a: int, b: int, c: int, d: int, x: int)
    requires
        b > 0,
        d > 0,
        a * d < c * b,
        c < x * d,
    ensures
        a < x * b,
{
    assert(c * b < x * d * b) by (nonlinear_arith)
        requires
            c < x * d,
            b > 0,
    ;
    assert(a * d < (x * b) * d) by (nonlinear_arith)
        requires
            a * d < c * b,
            c * b < x * d * b,
    ;
    assert(a < x * b) by (nonlinear_arith)
        requires
            a * d < (x * b) * d,
            d > 0,
    ;
}

/// `x <= c / d` and `c / d < e / f` give `x < e / f`.
proof fn lemma_ratio_above(c: int, d: int, e: int, f: int, x: int)
    requires
        d > 0,
        f > 0,
        x * d <= c,
        c * f < e * d,
    ensures
        x * f < e,
{
    assert(x * d * f <= c * f) by (nonlinear_arith)
        requires
            x * d <= c,
            f > 0,
    ;
    assert((x * f) * d < e * d) by (nonlinear_arith)
        requires
            x * d * f <= c * f,
            c * f < e * d,
    ;
    assert(x * f < e) by (nonlinear_arith)
        requires
            (x * f) * d < e * d,
            d > 0,
    ;
}

/// `x < c / d` and `c / d <= e / f` give `x < e / f`.
proof fn lemma_ratio_pop(c: int, d: int, e: int, f: int, x: int)
    requires
        d > 0,
        f > 0,
        x * d < c,
        c * f <= e * d,
    ensures
        x * f < e,
{
    assert(x * d * f < c * f) by (nonlinear_arith)
        requires
            x * d < c,
            f > 0,
    ;
    assert((x * f) * d < e * d) by (nonlinear_arith)
        requires
            x * d * f < c * f,
            c * f <= e * d,
    ;
    assert(x * f < e) by (nonlinear_arith)
        requires
            (x * f) * d < e * d,
            d > 0,
    ;
}

/// `a / b < c / d` and `c / d < e / f` give `a / b < e / f`.
proof fn lemma_ratio_transitive(a: int, b: int, c: int, d: int, e: int, f: int)
    requires
        b > 0,
        d > 0,
        f > 0,
        a * d < c * b,
        c * f < e * d,
    ensures
        a * f < e * b,
{
    assert(a * d * f < c * b * f) by (nonlinear_arith)
        requires
            a * d < c * b,
            f > 0,
    ;
    assert(c * f * b < e * d * b) by (nonlinear_arith)
        requires
            c * f < e * d,
            b > 0,
    ;
    assert((a * f) * d < (e * b) * d) by (nonlinear_arith)
        requires
            a * d * f < c * b * f,
            c * f * b < e * d * b,
    ;
    assert(a * f < e * b) by (nonlinear_arith)
        requires
            (a * f) * d < (e * b) * d,
            d > 0,
    ;
}

/// A crossing numerator times a denominator stays within `2^95`.
proof fn lemma_cross_product_bound(a: int, b: int)
    requires
        -CROSSING_LIMIT <= a <= CROSSING_LIMIT,
        0 < b <= 2 * SIDE_LIMIT,
    ensures
        -0x8000_0000_0000_0000_0000_0000 <= a * b <= 0x8000_0000_0000_0000_0000_0000,
{
    assert(-0x8000_0000_0000_0000_0000_0000 <= a * b <= 0x8000_0000_0000_0000_0000_0000)
        by (nonlinear_arith)
        requires
            -0x8000_0000_0000_0000 <= a <= 0x8000_0000_0000_0000,
            0 < b <= 0x1_0000_0000,
    ;
}

/// The envelope of a stack lies on or below each of its parabolas, and on one
/// of them.
proof fn lemma_envelope_reached(f: Seq<Option<u64>>, s: Seq<usize>, x: int)
    requires
        s.len() >= 1,
    ensures
        forall|i: int| 0 <= i < s.len() ==> envelope(f, s, x) <= parabola(f, #[trigger] s[i] as int, x),
        exists|i: int| 0 <= i < s.len() && envelope(f, s, x) == parabola(f, #[trigger] s[i] as int, x),
    decreases s.len(),
{
    if s.len() > 1 {
        let t = s.drop_last();
        lemma_envelope_reached(f, t, x);
        assert forall|i: int| 0 <= i < s.len() implies envelope(f, s, x) <= parabola(
            f,
            #[trigger] s[i] as int,
            x,
        ) by {
            if i < t.len() {
                assert(t[i] == s[i]);
            }
        }
        let w = choose|i: int| 0 <= i < t.len() && envelope(f, t, x) == parabola(f, #[trigger] t[i] as int, x);
        if envelope(f, t, x) <= parabola(f, s.last() as int, x) {
            assert(t[w] == s[w]);
        } else {
            assert(envelope(f, s, x) == parabola(f, s[s.len() - 1] as int, x));
        }
    } else {
        assert(envelope(f, s, x) == parabola(f, s[0] as int, x));
    }
}

/// Whether parabola `s[a]` lies on or below parabola `s[a - 1]` at `x`.
spec fn steps_down(f: Seq<Option<u64>>, s: Seq<usize>, a: int, x: int) -> bool {
    parabola(f, s[a] as int, x) <= parabola(f, s[a - 1] as int, x)
}

/// Whether parabola `s[a]` lies on or above parabola `s[a - 1]` at `x`.
spec fn steps_up(f: Seq<Option<u64>>, s: Seq<usize>, a: int, x: int) -> bool {
    parabola(f, s[a - 1] as int, x) <= parabola(f, s[a] as int, x)
}

/// Stepping down from `i` to `j` one parabola at a time ends lowest.
proof fn lemma_chain_down(f: Seq<Option<u64>>, s: Seq<usize>, i: int, j: int, x: int)
    requires
        0 <= i <= j < s.len(),
        forall|a: int| i < a <= j ==> #[trigger] steps_down(f, s, a, x),
    ensures
        parabola(f, s[j] as int, x) <= parabola(f, s[i] as int, x),
    decreases j - i,
{
    if i < j {
        lemma_chain_down(f, s, i + 1, j, x);
        assert(steps_down(f, s, i + 1, x));
    }
}

/// Stepping up from `j` to `i` one parabola at a time starts lowest.
proof fn lemma_chain_up(f: Seq<Option<u64>>, s: Seq<usize>, j: int, i: int, x: int)
    requires
        0 <= j <= i < s.len(),
        forall|a: int| j < a <= i ==> #[trigger] steps_up(f, s, a, x),
    ensures
        parabola(f, s[j] as int, x) <= parabola(f, s[i] as int, x),
    decreases i - j,
{
    if j < i {
        lemma_chain_up(f, s, j, i - 1, x);
        assert(steps_up(f, s, i, x));
    }
}

/// On a valid stack, the parabola `s[j]` whose interval holds `x` is the
/// envelope there.
proof fn lemma_select(
    f: Seq<Option<u64>>,
    s: Seq<usize>,
    zn: Seq<i128>,
    zd: Seq<i128>,
    j: int,
    x: int,
)
    requires
        stack_ok(f, s, zn, zd),
        0 <= j < s.len(),
        j == 0 || zn[j] < x * zd[j],
        j + 1 == s.len() || x * zd[j + 1] <= zn[j + 1],
    ensures
        envelope(f, s, x) == parabola(f, s[j] as int, x),
{
    assert forall|a: int| 0 < a <= j implies #[trigger] steps_down(f, s, a, x) by {
        if a < j {
            lemma_ratio_below(zn[a] as int, zd[a] as int, zn[j] as int, zd[j] as int, x);
        }
        lemma_parabola_difference(f, s[a - 1] as int, s[a] as int, x);
    }
    assert forall|a: int| j < a < s.len() implies #[trigger] steps_up(f, s, a, x) by {
        if a > j + 1 {
            lemma_ratio_above(zn[j + 1] as int, zd[j + 1] as int, zn[a] as int, zd[a] as int, x);
        }
        lemma_parabola_difference(f, s[a - 1] as int, s[a] as int, x);
    }
    lemma_envelope_reached(f, s, x);
    let w = choose|i: int| 0 <= i < s.len() && envelope(f, s, x) == parabola(f, #[trigger] s[i] as int, x);
    if w <= j {
        lemma_chain_down(f, s, w, j, x);
    } else {
        lemma_chain_up(f, s, j, w, x);
    }
    assert(envelope(f, s, x) <= parabola(f, s[j] as int, x));
}

/// Where the parabola of seed `r` overtakes that of seed `p < r`.
fn crossing(f: &[Option<u64>], p: usize, r: usize) -> (c: (i128, i128))
    requires
        is_seed(f@, p as int),
        is_seed(f@, r as int),
        p < r,
        r < SIDE_LIMIT,
        seeds_bounded(f@),
    ensures
        c.0 == crossing_num(f@, p as int, r as int),
        c.1 == crossing_den(p as int, r as int),
        -CROSSING_LIMIT <= c.0 <= CROSSING_LIMIT,
        2 <= c.1 <= 2 * SIDE_LIMIT,
{
    let fp = f[p].unwrap() as i128;
    let fr = f[r].unwrap() as i128;
    let pi = p as i128;
    let ri = r as i128;
    proof {
        assert(0 <= pi * pi < 0x4000_0000_0000_0000) by (nonlinear_arith)
            requires
                0 <= pi < 0x8000_0000,
        ;
        assert(0 <= ri * ri < 0x4000_0000_0000_0000) by (nonlinear_arith)
            requires
                0 <= ri < 0x8000_0000,
        ;
    }
    ((fr + ri * ri) - (fp + pi * pi), 2 * (ri - pi))
}

/// Whether the crossing `sn / sd` comes at or before `zn / zd`.
fn crosses_no_later(sn: i128, sd: i128, zn: i128, zd: i128) -> (b: bool)
    requires
        -CROSSING_LIMIT <= sn <= CROSSING_LIMIT,
        -CROSSING_LIMIT <= zn <= CROSSING_LIMIT,
        0 < sd <= 2 * SIDE_LIMIT,
        0 < zd <= 2 * SIDE_LIMIT,
    ensures
        b == (sn * zd <= zn * sd),
{
    proof {
        lemma_cross_product_bound(sn as int, zd as int);
        lemma_cross_product_bound(zn as int, sd as int);
    }
    sn * zd <= zn * sd
}

/// Whether the crossing `zn / zd` comes before `x`.
fn crosses_before(zn: i128, zd: i128, x: usize) -> (b: bool)
    requires
        -CROSSING_LIMIT <= zn <= CROSSING_LIMIT,
        0 < zd <= 2 * SIDE_LIMIT,
        x < SIDE_LIMIT,
    ensures
        b == (zn < x * zd),
{
    let xi = x as i128;
    proof {
        assert(0 <= xi * zd <= 0x8000_0000 * (2 * SIDE_LIMIT)) by (nonlinear_arith)
            requires
                0 <= xi <= 0x8000_0000,
                0 < zd <= 2 * SIDE_LIMIT,
        ;
    }
    zn < xi * zd
}

/// The exact one-dimensional squared distance transform of `f`: at each
/// position, the lowest of the parabolas `f[p] + (x - p)^2` rooted at the
/// seeds `p`, or `None` everywhere when `f` has no seed. Fed a line of zeros
/// at the targets and `None` elsewhere, it gives each position's squared
/// distance to the nearest target.
pub fn edt_1d(f: &[Option<u64>]) -> (d: Vec<Option<u64>>)
    requires
        f@.len() <= SIDE_LIMIT,
        seeds_bounded(f@),
    ensures
        d@.len() == f@.len(),
        forall|x: int| 0 <= x < f@.len() ==> transform_at(f@, x, #[trigger] d@[x]),
{
    let n = f.len();
    let mut first: usize = 0;
    while first < n && f[first].is_none()
        invariant
            first <= n,
            n == f@.len(),
            forall|p: int| 0 <= p < first ==> f@[p] is None,
        decreases n - first,
    {
        first = first + 1;
    }
    if first == n {
        let mut d: Vec<Option<u64>> = Vec::new();
        for x in 0..n
            invariant
                n == f@.len(),
                forall|p: int| 0 <= p < n ==> f@[p] is None,
                d@.len() == x,
                forall|i: int| 0 <= i < x ==> #[trigger] d@[i] is None,
        {
            d.push(None);
        }
        return d;
    }
    // The lower envelope of the seeds before `q`, as a stack.

    let mut s: Vec<usize> = vec![first];
    let mut zn: Vec<i128> = vec![0];
    let mut zd: Vec<i128> = vec![1];
    proof {
        assert forall|p: int, x: int| is_seed(f@, p) && p < first + 1 implies envelope(f@, s@, x)
            <= #[trigger] parabola(f@, p, x) by {
            assert(p == first);
        }
    }
    let mut q = first + 1;
    while q < n
        invariant
            first < q <= n,
            n == f@.len(),
            n <= SIDE_LIMIT,
            seeds_bounded(f@),
            stack_ok(f@, s@, zn@, zd@),
            forall|j: int| 0 <= j < s@.len() ==> #[trigger] s@[j] < q,
            forall|p: int, x: int|
                is_seed(f@, p) && p < q ==> envelope(f@, s@, x) <= #[trigger] parabola(f@, p, x),
        decreases n - q,
    {
        if let Some(fq) = f[q] {
            let mut k = s.len() - 1;
            let (mut sn, mut sd) = crossing(f, s[k], q);
            proof {
                assert forall|p: int, x: int| is_seed(f@, p) && p < q implies smaller(
                    envelope(f@, s@, x),
                    parabola(f@, q as int, x),
                ) <= #[trigger] parabola(f@, p, x) by {}
            }
            while k > 0 && crosses_no_later(sn, sd, zn[k], zd[k])
                invariant
                    n == f@.len(),
                    q < n,
                    n <= SIDE_LIMIT,
                    seeds_bounded(f@),
                    is_seed(f@, q as int),
                    stack_ok(f@, s@, zn@, zd@),
                    k + 1 == s@.len(),
                    forall|j: int| 0 <= j < s@.len() ==> #[trigger] s@[j] < q,
                    sn == crossing_num(f@, s@[k as int] as int, q as int),
                    sd == crossing_den(s@[k as int] as int, q as int),
                    -CROSSING_LIMIT <= sn <= CROSSING_LIMIT,
                    2 <= sd <= 2 * SIDE_LIMIT,
                    forall|p: int, x: int|
                        is_seed(f@, p) && p < q ==> smaller(envelope(f@, s@, x), parabola(f@, q as int, x))
                            <= #[trigger] parabola(f@, p, x),
                decreases k,
            {
                let ghost before = s@;
                let ghost t = s@[k as int] as int;
                let ghost u = s@[k - 1] as int;
                proof {
                    assert(before.len() >= 2);
                    assert forall|x: int|
                        smaller(envelope(f@, before.drop_last(), x), parabola(f@, q as int, x))
                            <= #[trigger] envelope(f@, before, x) by {
                        lemma_parabola_difference(f@, t, q as int, x);
                        lemma_parabola_difference(f@, u, t, x);
                        if x * sd < sn {
                            lemma_ratio_pop(sn as int, sd as int, zn@[k as int] as int, zd@[k as int] as int, x);
                            lemma_envelope_reached(f@, before.drop_last(), x);
                            assert(before.drop_last()[k - 1] == before[k - 1]);
                        }
                    }
                }
                s.pop();
                zn.pop();
                zd.pop();
                k = k - 1;
                proof {
                    assert(s@ == before.drop_last());
                    assert(s@[k as int] == before[k as int]);
                }
                let c = crossing(f, s[k], q);
                sn = c.0;
                sd = c.1;
            }
            let ghost before = s@;
            let ghost zn_before = zn@;
            let ghost zd_before = zd@;
            s.push(q);
            zn.push(sn);
            zd.push(sd);
            proof {
                assert(s@.drop_last() == before);
                assert forall|x: int| #[trigger]
                    envelope(f@, s@, x) == smaller(envelope(f@, before, x), parabola(f@, q as int, x)) by {}
                assert forall|a: int, b: int| 0 < a < b < s@.len() implies #[trigger] zn@[a]
                    * #[trigger] zd@[b] < zn@[b] * zd@[a] by {
                    if b == s@.len() - 1 {
                        if a < k {
                            lemma_ratio_transitive(
                                zn@[a] as int,
                                zd@[a] as int,
                                zn@[k as int] as int,
                                zd@[k as int] as int,
                                sn as int,
                                sd as int,
                            );
                        }
                    } else {
                        assert(zn@[a] == zn_before[a] && zd@[b] == zd_before[b]);
                        assert(zn@[b] == zn_before[b] && zd@[a] == zd_before[a]);
                    }
                }
                assert forall|p: int, x: int| is_seed(f@, p) && p < q + 1 implies envelope(f@, s@, x)
                    <= #[trigger] parabola(f@, p, x) by {}
            }
        }
        q = q + 1;
    }
    // Read the envelope off the stack, left to right.

    let m = s.len();
    let mut d: Vec<Option<u64>> = Vec::new();
    let mut j: usize = 0;
    for x in 0..n
        invariant
            n == f@.len(),
            n <= SIDE_LIMIT,
            seeds_bounded(f@),
            stack_ok(f@, s@, zn@, zd@),
            m == s@.len(),
            j < m,
            j == 0 || zn@[j as int] < x * zd@[j as int],
            d@.len() == x,
            forall|p: int, y: int| is_seed(f@, p) ==> envelope(f@, s@, y) <= #[trigger] parabola(f@, p, y),
            forall|i: int| 0 <= i < x ==> transform_at(f@, i, #[trigger] d@[i]),
    {
        while j + 1 < m && crosses_before(zn[j + 1], zd[j + 1], x)
            invariant
                n == f@.len(),
                n <= SIDE_LIMIT,
                x < n,
                stack_ok(f@, s@, zn@, zd@),
                m == s@.len(),
                j < m,
                j == 0 || zn@[j as int] < x * zd@[j as int],
            decreases m - j,
        {
            j = j + 1;
        }
        let p = s[j];
        proof {
            lemma_select(f@, s@, zn@, zd@, j as int, x as int);
        }
        let fp = f[p].unwrap();
        let dx: u64 = if x >= p {
            (x - p) as u64
        } else {
            (p - x) as u64
        };
        proof {
            assert(dx * dx < 0x4000_0000_0000_0000) by (nonlinear_arith)
                requires
                    0 <= dx < 0x8000_0000,
            ;
            assert(dx * dx == (x - p) * (x - p)) by (nonlinear_arith)
                requires
                    dx == x - p || dx == p - x,
            ;
        }
        let value = fp + dx * dx;
        d.push(Some(value));
        proof {
            assert(d@[x as int] == Some(value));
            assert(lowest_at(f@, x as int, value as int)) by {
                assert(is_seed(f@, p as int));
                assert(parabola(f@, p as int, x as int) == value);
            }
            if j > 0 {
                assert(zn@[j as int] < (x + 1) * zd@[j as int]) by (nonlinear_arith)
                    requires
                        zn@[j as int] < x * zd@[j as int],
                        zd@[j as int] > 0,
                ;
            }
        }
    }
    d
}

/// Whether `(a, b)` is a target cell of `grid`: inside it and equal to
/// `target`.
pub open spec fn is_target(grid: Grid<bool>, target: bool, a: int, b: int) -> bool {
    grid.in_bounds(a, b) && grid.cell(a, b) == target
}

/// The squared Euclidean distance from `(x, y)` to `(a, b)`.
pub open spec fn squared_distance(x: int, y: int, a: int, b: int) -> int {
    (x - a) * (x - a) + (y - b) * (y - b)
}

/// Whether `r` is the squared distance from `(x, y)` to the nearest target
/// cell of `grid`: nothing exactly when there is no target cell, and
/// otherwise a squared distance that some target cell is at and none is
/// nearer than.
pub open spec fn nearest_at(grid: Grid<bool>, target: bool, x: int, y: int, r: Option<u64>) -> bool {
    match r {
        None => forall|a: int, b: int| !#[trigger] is_target(grid, target, a, b),
        Some(d) => {
            &&& exists|a: int, b: int|
                #[trigger] is_target(grid, target, a, b) && squared_distance(x, y, a, b) == d
            &&& forall|a: int, b: int|
                #[trigger] is_target(grid, target, a, b) ==> d <= squared_distance(x, y, a, b)
        },
    }
}

/// Column `a` of `grid` as a line for the transform: a zero seed at each
/// target cell, nothing elsewhere.
spec fn column_seeds(grid: Grid<bool>, target: bool, a: int) -> Seq<Option<u64>> {
    Seq::new(
        grid.nrows(),
        |b: int|
            if grid.cell(a, b) == target {
                Some(0u64)
            } else {
                None
            },
    )
}

/// Row `y` of the column transforms, as a line for the transform.
spec fn row_seeds(columns: Seq<Vec<Option<u64>>>, y: int) -> Seq<Option<u64>> {
    Seq::new(columns.len(), |a: int| columns[a]@[y])
}

/// Whether `columns` holds the transform of each column of `grid`.
spec fn columns_transformed(grid: Grid<bool>, target: bool, columns: Seq<Vec<Option<u64>>>, upto: int) -> bool {
    &&& columns.len() == upto
    &&& forall|a: int| 0 <= a < upto ==> (#[trigger] columns[a])@.len() == grid.nrows()
    &&& forall|a: int, b: int|
        0 <= a < upto && 0 <= b < grid.nrows() ==> transform_at(
            column_seeds(grid, target, a),
            b,
            #[trigger] columns[a]@[b],
        )
}

/// A column transform is a squared offset along the column, so it is a seed
/// the row transform takes.
proof fn lemma_columns_bounded(grid: Grid<bool>, target: bool, columns: Seq<Vec<Option<u64>>>, y: int)
    requires
        grid.wf(),
        grid.nrows() <= SIDE_LIMIT,
        columns_transformed(grid, target, columns, grid.ncols() as int),
        0 <= y < grid.nrows(),
    ensures
        seeds_bounded(row_seeds(columns, y)),
        row_seeds(columns, y).len() == grid.ncols(),
{
    let line = row_seeds(columns, y);
    assert forall|a: int| is_seed(line, a) implies line[a]->0 <= SEED_LIMIT by {
        let f = column_seeds(grid, target, a);
        assert(transform_at(f, y, columns[a]@[y]));
        let b = choose|b: int| is_seed(f, b) && #[trigger] parabola(f, b, y) == line[a]->0;
        assert((y - b) * (y - b) < 0x4000_0000_0000_0000) by (nonlinear_arith)
            requires
                0 <= y < 0x8000_0000,
                0 <= b < 0x8000_0000,
        ;
    }
}

/// The row transform of the column transforms is the distance to the nearest
/// target: the nearest target of a cell is the nearest, over the columns, of
/// the nearest target in each column.
proof fn lemma_rows_of_columns(
    grid: Grid<bool>,
    target: bool,
    columns: Seq<Vec<Option<u64>>>,
    x: int,
    y: int,
    r: Option<u64>,
)
    requires
        grid.wf(),
        columns_transformed(grid, target, columns, grid.ncols() as int),
        0 <= x < grid.ncols(),
        0 <= y < grid.nrows(),
        transform_at(row_seeds(columns, y), x, r),
    ensures
        nearest_at(grid, target, x, y, r),
{
    let line = row_seeds(columns, y);
    match r {
        None => {
            assert forall|a: int, b: int| !#[trigger] is_target(grid, target, a, b) by {
                if is_target(grid, target, a, b) {
                    let f = column_seeds(grid, target, a);
                    assert(is_seed(f, b));
                    assert(transform_at(f, y, columns[a]@[y]));
                    assert(is_seed(line, a));
                }
            }
        },
        Some(d) => {
            let a = choose|a: int| is_seed(line, a) && #[trigger] parabola(line, a, x) == d;
            let f = column_seeds(grid, target, a);
            assert(transform_at(f, y, columns[a]@[y]));
            let c = line[a]->0;
            let b = choose|b: int| is_seed(f, b) && #[trigger] parabola(f, b, y) == c;
            assert(is_target(grid, target, a, b));
            assert(squared_distance(x, y, a, b) == d);
            assert forall|a2: int, b2: int| #[trigger] is_target(grid, target, a2, b2) implies d
                <= squared_distance(x, y, a2, b2) by {
                let f2 = column_seeds(grid, target, a2);
                assert(is_seed(f2, b2));
                assert(transform_at(f2, y, columns[a2]@[y]));
                assert(is_seed(line, a2));
                assert(line[a2]->0 <= parabola(f2, b2, y));
                assert(d <= parabola(line, a2, x));
            }
        },
    }
}

/// The squared Euclidean distance from each cell of `bitmap` to the nearest
/// cell equal to `target`, or `None` everywhere when no cell is. Columns are
/// transformed first, then the rows of the result.
pub fn squared_edt_from_bitmap(bitmap: &BinaryBitmap, target: bool) -> (g: Grid<Option<u64>>)
    requires
        bitmap.grid.wf(),
        bitmap.grid.ncols() <= SIDE_LIMIT,
        bitmap.grid.nrows() <= SIDE_LIMIT,
    ensures
        g.wf(),
        g.ncols() == bitmap.grid.ncols(),
        g.nrows() == bitmap.grid.nrows(),
        forall|x: int, y: int|
            0 <= x < g.ncols() && 0 <= y < g.nrows() ==> nearest_at(
                bitmap.grid,
                target,
                x,
                y,
                #[trigger] g.cell(x, y),
            ),
{
    let grid = &bitmap.grid;
    let w = grid.columns();
    let h = grid.rows();
    let cells = grid.iter();
    let total = cells.len();
    let mut columns: Vec<Vec<Option<u64>>> = Vec::new();
    for a in 0..w
        invariant
            grid.wf(),
            w == grid.ncols(),
            h == grid.nrows(),
            h <= SIDE_LIMIT,
            cells@ == grid.cells(),
            total == cells@.len(),
            columns_transformed(*grid, target, columns@, a as int),
    {
        let mut line: Vec<Option<u64>> = Vec::new();
        for b in 0..h
            invariant
                grid.wf(),
                w == grid.ncols(),
                h == grid.nrows(),
                a < w,
                cells@ == grid.cells(),
                total == cells@.len(),
                line@ == column_seeds(*grid, target, a as int).take(b as int),
        {
            proof {
                lemma_flat_index_in_range(w as int, h as int, a as int, b as int);
            }
            let seed = if cells[a + b * w] == target {
                Some(0u64)
            } else {
                None
            };
            line.push(seed);
        }
        proof {
            assert(line@ == column_seeds(*grid, target, a as int));
        }
        let column = edt_1d(line.as_slice());
        let ghost before = columns@;
        columns.push(column);
        proof {
            assert forall|c: int, b: int| 0 <= c <= a && 0 <= b < h implies transform_at(
                column_seeds(*grid, target, c),
                b,
                #[trigger] columns@[c]@[b],
            ) by {
                if c < a {
                    assert(columns@[c] == before[c]);
                }
            }
        }
    }
    let mut out: Vec<Option<u64>> = Vec::new();
    proof {
        assert(0 * w == 0);
    }
    for y in 0..h
        invariant
            grid.wf(),
            w == grid.ncols(),
            h == grid.nrows(),
            w <= SIDE_LIMIT,
            h <= SIDE_LIMIT,
            columns_transformed(*grid, target, columns@, w as int),
            out@.len() == y * w,
            forall|x: int, yy: int|
                0 <= x < w && 0 <= yy < y ==> nearest_at(*grid, target, x, yy, #[trigger] out@[x + yy * w]),
    {
        let mut line: Vec<Option<u64>> = Vec::new();
        for a in 0..w
            invariant
                y < h,
                w == columns@.len(),
                columns_transformed(*grid, target, columns@, w as int),
                h == grid.nrows(),
                line@ == row_seeds(columns@, y as int).take(a as int),
        {
            line.push(columns[a][y]);
        }
        proof {
            assert(line@ == row_seeds(columns@, y as int));
            lemma_columns_bounded(*grid, target, columns@, y as int);
        }
        let row = edt_1d(line.as_slice());
        let ghost base = out@;
        for x in 0..w
            invariant
                grid.wf(),
                w == grid.ncols(),
                h == grid.nrows(),
                y < h,
                columns_transformed(*grid, target, columns@, w as int),
                row@.len() == w,
                forall|i: int| 0 <= i < w ==> transform_at(row_seeds(columns@, y as int), i, #[trigger] row@[i]),
                base.len() == y * w,
                out@.len() == y * w + x,
                out@.subrange(0, y * w) == base,
                forall|i: int| 0 <= i < x ==> #[trigger] out@[y * w + i] == row@[i],
        {
            out.push(row[x]);
            proof {
                assert(out@.subrange(0, y * w) == base);
            }
        }
        proof {
            assert(y * w + w == (y + 1) * w) by (nonlinear_arith);
            assert forall|x: int, yy: int| 0 <= x < w && 0 <= yy < y + 1 implies nearest_at(
                *grid,
                target,
                x,
                yy,
                #[trigger] out@[x + yy * w],
            ) by {
                if yy < y {
                    lemma_flat_index_in_range(w as int, y as int, x, yy);
                    assert(out@[x + yy * w] == base[x + yy * w]);
                } else {
                    assert(out@[y * w + x] == row@[x]);
                    lemma_rows_of_columns(*grid, target, columns@, x, yy, row@[x]);
                }
            }
        }
    }
    proof {
        assert(out@.len() == w * h) by (nonlinear_arith)
            requires
                out@.len() == h * w,
        ;
    }
    let g = Grid::new(out, w, h);
    proof {
        assert forall|x: int, y: int| 0 <= x < g.ncols() && 0 <= y < g.nrows() implies nearest_at(
            bitmap.grid,
            target,
            x,
            y,
            #[trigger] g.cell(x, y),
        ) by {
            assert(g.cell(x, y) == g.cells()[x + y * w]);
        }
    }
    g
}

} // verus!
