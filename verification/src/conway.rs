//! Life-like cellular automata: a rule in birth/survival notation, cells that
//! remember how long they have been alive or dead, and a board that advances
//! one generation per fixed interval of simulated time.
use vstd::prelude::*;
use vstd::arithmetic::div_mod::lemma_fundamental_div_mod_converse_div;
use vstd::arithmetic::div_mod::lemma_fundamental_div_mod_converse_mod;

use crate::buffer::DoubleBuffer;
use crate::grid::Grid;
use crate::input::Input;
use crate::rng::{random_bool, Rng};

verus! {

pub const _CONWAY: &'static str = "B3/S23";

pub const _MAZE: &'static str = "B3/S12345";

pub const _MAZECETRIC: &'static str = "B3/S1234";

pub const _CORAL: &'static str = "B3/S45678";

/// Whether `c` is the decimal digit `d`.
pub open spec fn is_digit_char(c: char, d: int) -> bool {
    c as int == '0' as int + d
}

/// Whether the digit `d` occurs in `s` at a position in `from..to`.
pub open spec fn digit_in(s: Seq<char>, from: int, to: int, d: int) -> bool {
    exists|i: int| from <= i < to && is_digit_char(#[trigger] s[i], d)
}

/// Whether `k` is the position of the first `/` in `s`.
pub open spec fn is_first_slash(s: Seq<char>, k: int) -> bool {
    0 <= k < s.len() && s[k] == '/' && forall|i: int| 0 <= i < k ==> s[i] != '/'
}

/// A birth/survival rule: which neighbour counts bring a dead cell to life,
/// and which keep a live cell alive.
#[derive(Clone, Copy, Debug, PartialEq, Eq)]
pub struct Rule {
    birth_rule: [bool; 9],
    death_rule: [bool; 9],
}

impl Default for Rule {
    /// The rule under which nothing is born and nothing survives.
    fn default() -> (r: Self)
        ensures
            forall|n: int| 0 <= n < 9 ==> !(#[trigger] r.births()[n]),
            forall|n: int| 0 <= n < 9 ==> !(#[trigger] r.survivals()[n]),
    {
        Rule { birth_rule: [false; 9], death_rule: [false; 9] }
    }
}

impl Rule {
    /// `births()[n]`: a dead cell with `n` live neighbours comes alive.
    pub closed spec fn births(&self) -> Seq<bool> {
        self.birth_rule@
    }

    /// `survivals()[n]`: a live cell with `n` live neighbours stays alive.
    pub closed spec fn survivals(&self) -> Seq<bool> {
        self.death_rule@
    }

    /// The rule is the one that `s` spells in birth/survival notation: `d`
    /// is a birth count when the digit occurs before the first `/`, a
    /// survival count when it occurs after it.
    pub open spec fn spelled_by(&self, s: Seq<char>) -> bool {
        &&& self.births().len() == 9
        &&& self.survivals().len() == 9
        &&& forall|k: int|
            #[trigger] is_first_slash(s, k) ==> forall|d: int|
                0 <= d < 9 ==> (#[trigger] self.births()[d] == digit_in(s, 0, k, d)
                    && self.survivals()[d] == digit_in(s, k + 1, s.len() as int, d))
    }

    /// Every digit before the first `/` of a rulestring is a birth count and
    /// every digit after it a survival count, however many there are and in
    /// whatever order.
    pub proof fn lemma_every_digit_counts(self, s: Seq<char>, k: int, i: int, d: int)
        requires
            self.spelled_by(s),
            0 <= k < s.len(),
            s[k] == '/',
            forall|j: int| 0 <= j < k ==> s[j] != '/',
            0 <= i < s.len(),
            0 <= d < 9,
            s[i] as int == '0' as int + d,
        ensures
            i < k ==> self.births()[d],
            i > k ==> self.survivals()[d],
    {
        assert(is_first_slash(s, k));
        assert(is_digit_char(s[i], d));
        if i < k {
            assert(digit_in(s, 0, k, d));
        }
        if i > k {
            assert(digit_in(s, k + 1, s.len() as int, d));
        }
    }

    /// Only digits that occur count: a birth count occurs as a digit before
    /// the first `/`, and a survival count after it.
    pub proof fn lemma_only_present_digits_count(self, s: Seq<char>, k: int, d: int)
        requires
            self.spelled_by(s),
            0 <= k < s.len(),
            s[k] == '/',
            forall|j: int| 0 <= j < k ==> s[j] != '/',
            0 <= d < 9,
        ensures
            self.births()[d] ==> exists|i: int| 0 <= i < k && s[i] as int == '0' as int + d,
            self.survivals()[d] ==> exists|i: int| k < i < s.len() && s[i] as int == '0' as int + d,
    {
        assert(is_first_slash(s, k));
        if self.births()[d] {
            let i = choose|i: int| 0 <= i < k && is_digit_char(#[trigger] s[i], d);
            assert(s[i] as int == '0' as int + d);
        }
        if self.survivals()[d] {
            let i = choose|i: int| k + 1 <= i < s.len() && is_digit_char(#[trigger] s[i], d);
            assert(s[i] as int == '0' as int + d);
        }
    }

    /// Whether a cell that is `alive` with `neighbours` live neighbours is
    /// alive in the next generation.
    pub open spec fn decides(&self, alive: bool, neighbours: int) -> bool {
        if alive {
            self.survivals()[neighbours]
        } else {
            self.births()[neighbours]
        }
    }

    /// Parses a rule in birth/survival notation, such as `B3/S23`: the digits
    /// before the first `/` are the birth counts, the digits after it the
    /// survival counts. Anything that is not a digit is ignored.
    ///
    /// The string must contain a `/`, and no `9`: a cell has at most eight
    /// neighbours.
    pub fn from_rulestring(rulestring: &str) -> (rule: Self)
        requires
            rulestring@.contains('/'),
            !rulestring@.contains('9'),
        ensures
            rule.spelled_by(rulestring@),
    {
        let ghost s = rulestring@;
        let mut rule = Rule::default();
        let mut seen_slash = false;
        let ghost mut slash: int = 0;
        let ghost mut pos: int = 0;
        proof {
            vstd::string::axiom_spec_iter(rulestring);
        }
        for c in it: rulestring.chars()
            invariant
                s == rulestring@,
                it.seq() == s,
                pos == it.index(),
                !s.contains('9'),
                rule.births().len() == 9,
                rule.survivals().len() == 9,
                !seen_slash ==> forall|i: int| 0 <= i < pos ==> s[i] != '/',
                seen_slash ==> is_first_slash(s, slash) && slash < pos,
                forall|d: int|
                    0 <= d < 9 ==> #[trigger] rule.births()[d] == digit_in(
                        s,
                        0,
                        if seen_slash {
                            slash
                        } else {
                            pos
                        },
                        d,
                    ),
                forall|d: int|
                    0 <= d < 9 ==> #[trigger] rule.survivals()[d] == (seen_slash && digit_in(
                        s,
                        slash + 1,
                        pos,
                        d,
                    )),
        {
            let ghost p = pos;
            assert(s[p] == c);
            let ghost before = rule;
            if !seen_slash && c == '/' {
                seen_slash = true;
                proof {
                    slash = p;
                }
                assert forall|d: int| 0 <= d < 9 implies #[trigger] rule.survivals()[d] == (
                seen_slash && digit_in(s, slash + 1, p + 1, d)) by {
                    if digit_in(s, slash + 1, p + 1, d) {
                        let i = choose|i: int| slash + 1 <= i < p + 1 && is_digit_char(s[i], d);
                        assert(false);
                    }
                }
            } else if '0' <= c && c <= '9' {
                let d = (c as u32 - '0' as u32) as usize;
                proof {
                    if d == 9 {
                        assert(s.contains('9'));
                    }
                }
                if seen_slash {
                    rule.death_rule[d] = true;
                } else {
                    rule.birth_rule[d] = true;
                }
                assert forall|e: int| 0 <= e < 9 implies #[trigger] rule.births()[e] == digit_in(
                    s,
                    0,
                    if seen_slash {
                        slash
                    } else {
                        p + 1
                    },
                    e,
                ) by {
                    if !seen_slash && e != d as int && digit_in(s, 0, p + 1, e) {
                        let i = choose|i: int| 0 <= i < p + 1 && is_digit_char(s[i], e);
                        assert(i < p);
                    }
                    if !seen_slash && e == d as int {
                        assert(is_digit_char(s[p], e));
                    }
                }
                assert forall|e: int| 0 <= e < 9 implies #[trigger] rule.survivals()[e] == (
                seen_slash && digit_in(s, slash + 1, p + 1, e)) by {
                    if seen_slash && e != d as int && digit_in(s, slash + 1, p + 1, e) {
                        let i = choose|i: int| slash + 1 <= i < p + 1 && is_digit_char(s[i], e);
                        assert(i < p);
                    }
                    if seen_slash && e == d as int {
                        assert(is_digit_char(s[p], e));
                    }
                }
            } else {
                assert forall|e: int| 0 <= e < 9 implies #[trigger] rule.births()[e] == digit_in(
                    s,
                    0,
                    if seen_slash {
                        slash
                    } else {
                        p + 1
                    },
                    e,
                ) by {
                    if !seen_slash && digit_in(s, 0, p + 1, e) {
                        let i = choose|i: int| 0 <= i < p + 1 && is_digit_char(s[i], e);
                        assert(i < p);
                    }
                }
                assert forall|e: int| 0 <= e < 9 implies #[trigger] rule.survivals()[e] == (
                seen_slash && digit_in(s, slash + 1, p + 1, e)) by {
                    if seen_slash && digit_in(s, slash + 1, p + 1, e) {
                        let i = choose|i: int| slash + 1 <= i < p + 1 && is_digit_char(s[i], e);
                        assert(i < p);
                    }
                }
            }
            proof {
                pos = pos + 1;
            }
        }
        proof {
            if !seen_slash {
                let i = choose|i: int| 0 <= i < s.len() && s[i] == '/';
                assert(false);
            }
            assert forall|k: int| is_first_slash(s, k) implies k == slash by {
                if k < slash {
                    assert(s[k] != '/');
                } else if slash < k {
                    assert(s[slash] != '/');
                }
            }
        }
        rule
    }

    /// Whether a cell that is `currently_alive` with `num_neighbours` live
    /// neighbours is alive in the next generation.
    pub fn apply(&self, currently_alive: bool, num_neighbours: usize) -> (alive: bool)
        requires
            num_neighbours < 9,
        ensures
            alive == self.decides(currently_alive, num_neighbours as int),
    {
        if currently_alive {
            self.death_rule[num_neighbours]
        } else {
            self.birth_rule[num_neighbours]
        }
    }
}

/// A cell of the board. Besides being alive or dead, a cell counts the
/// generations since it was born (`age`) or since it died (`ghost_age`).
#[derive(Clone, Copy, Debug)]
pub struct Cell {
    alive: bool,
    age: Option<usize>,
    ghost_age: Option<usize>,
}

/// One more than a counter that is present.
pub open spec fn bumped(counter: Option<usize>) -> Option<usize> {
    match counter {
        Some(n) => Some((n + 1) as usize),
        None => None,
    }
}

impl Cell {
    /// Whether the cell is alive.
    pub closed spec fn lives(&self) -> bool {
        self.alive
    }

    /// Generations since the cell was born, if it was born on this board.
    pub closed spec fn age_count(&self) -> Option<usize> {
        self.age
    }

    /// Generations since the cell died, if it died on this board.
    pub closed spec fn ghost_count(&self) -> Option<usize> {
        self.ghost_age
    }

    /// The cell in the next generation, given whether it is alive then: a
    /// cell that dies starts its ghost count at one, a cell that is born
    /// starts its age at one, and otherwise both counts advance.
    pub closed spec fn next(&self, alive_next: bool) -> Cell {
        if self.alive && !alive_next {
            Cell { alive: false, age: None, ghost_age: Some(1) }
        } else if !self.alive && alive_next {
            Cell { alive: true, age: Some(1), ghost_age: None }
        } else {
            Cell { alive: alive_next, age: bumped(self.age), ghost_age: bumped(self.ghost_age) }
        }
    }

    /// What a cell is one generation on: alive as decided; a cell that dies
    /// has no age and a ghost count of one, a cell that is born an age of one
    /// and no ghost count, and otherwise both counters advance where present.
    pub proof fn lemma_next(self, alive_next: bool)
        ensures
            self.next(alive_next).lives() == alive_next,
            self.lives() && !alive_next ==> self.next(alive_next).age_count() is None
                && self.next(alive_next).ghost_count() == Some(1usize),
            !self.lives() && alive_next ==> self.next(alive_next).age_count() == Some(1usize)
                && self.next(alive_next).ghost_count() is None,
            self.lives() == alive_next ==> self.next(alive_next).age_count() == bumped(self.age_count())
                && self.next(alive_next).ghost_count() == bumped(self.ghost_count()),
            self.lives() == alive_next && self.age_count() is None ==> self.next(alive_next).age_count() is None,
            self.lives() == alive_next && self.ghost_count() is None ==> self.next(alive_next).ghost_count() is None,
            self.lives() == alive_next && self.age_count() is Some && self.age_count()->0 < usize::MAX
                ==> self.next(alive_next).age_count() == Some((self.age_count()->0 + 1) as usize),
            self.lives() == alive_next && self.ghost_count() is Some && self.ghost_count()->0 < usize::MAX
                ==> self.next(alive_next).ghost_count() == Some((self.ghost_count()->0 + 1) as usize),
    {
    }

    /// Whether the counters agree with the state: a live cell has no ghost
    /// count and a dead cell no age.
    pub open spec fn counters_consistent(&self) -> bool {
        &&& (self.lives() ==> self.ghost_count() is None)
        &&& (!self.lives() ==> self.age_count() is None)
    }

    /// A generation keeps the counters consistent with the state: a live cell
    /// never reports generations since it died, nor a dead one generations
    /// since it was born. A cell made by `new` starts consistent.
    pub proof fn lemma_next_consistent(self, alive_next: bool)
        requires
            self.counters_consistent(),
        ensures
            self.next(alive_next).counters_consistent(),
    {
    }

    /// Cells that agree on being alive and on both counters are the same cell.
    pub proof fn lemma_cell_ext(self, other: Cell)
        requires
            self.lives() == other.lives(),
            self.age_count() == other.age_count(),
            self.ghost_count() == other.ghost_count(),
        ensures
            self == other,
    {
    }

    /// Both counters, where present, are below `bound`.
    pub open spec fn counters_below(&self, bound: int) -> bool {
        &&& (self.age_count() matches Some(a) ==> a < bound)
        &&& (self.ghost_count() matches Some(g) ==> g < bound)
    }

    /// A cell with no history, alive or dead as given.
    pub fn new(alive: bool) -> (c: Self)
        ensures
            c.lives() == alive,
            c.age_count() is None,
            c.ghost_count() is None,
    {
        Cell { alive, age: None, ghost_age: None }
    }

    /// This cell one generation on, under `rule` with `neighbours` live
    /// neighbours.
    pub fn apply_rule(&self, rule: &Rule, neighbours: usize) -> (c: Self)
        requires
            neighbours < 9,
            self.counters_below(usize::MAX as int),
        ensures
            c == self.next(rule.decides(self.lives(), neighbours as int)),
            self.counters_consistent() ==> c.counters_consistent(),
    {
        proof {
            if self.counters_consistent() {
                self.lemma_next_consistent(rule.decides(self.lives(), neighbours as int));
            }
        }
        let mut new_cell = *self;
        new_cell.alive = rule.apply(self.alive, neighbours);

        if self.alive && !new_cell.alive {
            new_cell.age = None;
            new_cell.ghost_age = Some(0);
        } else if !self.alive && new_cell.alive {
            new_cell.ghost_age = None;
            new_cell.age = Some(0);
        }
        new_cell.age = match new_cell.age {
            Some(age) => Some(age + 1),
            None => None,
        };
        new_cell.ghost_age = match new_cell.ghost_age {
            Some(g) => Some(g + 1),
            None => None,
        };
        new_cell
    }

    /// A cell with no history, alive or dead at random.
    pub fn random(rng: &mut Rng) -> (c: Self)
        ensures
            c.age_count() is None,
            c.ghost_count() is None,
    {
        Cell::new(random_bool(rng))
    }

    /// Whether the cell is alive.
    pub fn is_alive(&self) -> (b: bool)
        ensures
            b == self.lives(),
    {
        self.alive
    }

    /// Generations since the cell was born, if it was born on this board.
    pub fn age(&self) -> (a: Option<usize>)
        ensures
            a == self.age_count(),
    {
        self.age
    }

    /// Generations since the cell died, if it died on this board.
    pub fn ghost_age(&self) -> (g: Option<usize>)
        ensures
            g == self.ghost_count(),
    {
        self.ghost_age
    }
}

impl Default for Cell {
    /// A dead cell with no history.
    fn default() -> (c: Self)
        ensures
            !c.lives(),
            c.age_count() is None,
            c.ghost_count() is None,
    {
        Self::new(false)
    }
}

/// The interval of simulated time between two generations, in nanoseconds.
pub const UPDATE_INTERVAL_NANOS: u64 = 100_000_000;

/// At most this many generations are run by one update; time beyond them is
/// dropped rather than simulated.
pub const MAX_TICKS_PER_UPDATE: u32 = 4;

/// The longest span a `Duration` can hold, in nanoseconds.
pub const DURATION_MAX_NANOS: u128 = 18_446_744_073_709_551_615_999_999_999;

/// 1 if the cell at `(column, row)` of the `width` by `height` board `cells`
/// is inside the board and alive, 0 otherwise.
pub open spec fn live_at(cells: Seq<Cell>, width: int, height: int, column: int, row: int) -> int {
    if 0 <= column < width && 0 <= row < height && cells[column + row * width].lives() {
        1
    } else {
        0
    }
}

/// The number of live cells among the eight around `(column, row)`.
pub open spec fn live_neighbours(cells: Seq<Cell>, width: int, height: int, column: int, row: int) -> int {
    live_at(cells, width, height, column - 1, row - 1) + live_at(cells, width, height, column, row - 1)
        + live_at(cells, width, height, column + 1, row - 1) + live_at(cells, width, height, column - 1, row)
        + live_at(cells, width, height, column + 1, row) + live_at(cells, width, height, column - 1, row + 1)
        + live_at(cells, width, height, column, row + 1) + live_at(cells, width, height, column + 1, row + 1)
}

/// The board one generation on: every cell at once, each from its own state
/// and its live neighbours in `cells`.
pub open spec fn next_cells(rule: Rule, cells: Seq<Cell>, width: int, height: int) -> Seq<Cell> {
    Seq::new(
        cells.len(),
        |i: int|
            cells[i].next(
                rule.decides(cells[i].lives(), live_neighbours(cells, width, height, i % width, i / width)),
            ),
    )
}

/// The board `n` generations on.
pub open spec fn evolve(rule: Rule, cells: Seq<Cell>, width: int, height: int, n: nat) -> Seq<Cell>
    decreases n,
{
    if n == 0 {
        cells
    } else {
        next_cells(rule, evolve(rule, cells, width, height, (n - 1) as nat), width, height)
    }
}

/// Every counter of every cell is below `bound`.
pub open spec fn counters_below(cells: Seq<Cell>, bound: int) -> bool {
    forall|i: int| 0 <= i < cells.len() ==> (#[trigger] cells[i]).counters_below(bound)
}

/// How many generations an update runs when `total` nanoseconds are owed.
pub open spec fn ticks_for(total: int) -> int {
    if total / (UPDATE_INTERVAL_NANOS as int) < MAX_TICKS_PER_UPDATE as int {
        total / (UPDATE_INTERVAL_NANOS as int)
    } else {
        MAX_TICKS_PER_UPDATE as int
    }
}

/// The time still owed after an update that found `total` nanoseconds owed:
/// the part of an interval left over, unless even the capped generations
/// left a whole interval owed, which is then dropped.
pub open spec fn carried(total: int) -> int {
    if total >= (MAX_TICKS_PER_UPDATE as int + 1) * (UPDATE_INTERVAL_NANOS as int) {
        0
    } else {
        total % UPDATE_INTERVAL_NANOS as int
    }
}

/// A generation advances every counter by at most one.
pub proof fn lemma_next_counters(rule: Rule, cells: Seq<Cell>, width: int, height: int, bound: int)
    requires
        counters_below(cells, bound),
        bound >= 1,
    ensures
        counters_below(next_cells(rule, cells, width, height), bound + 1),
{
}

/// Time that pays for no generation carries over; the generations run are
/// capped.
proof fn lemma_ticks(total: int, ticks: int)
    requires
        0 <= ticks <= MAX_TICKS_PER_UPDATE,
        total - ticks * UPDATE_INTERVAL_NANOS >= 0,
        ticks < MAX_TICKS_PER_UPDATE ==> total - ticks * UPDATE_INTERVAL_NANOS < UPDATE_INTERVAL_NANOS,
    ensures
        ticks == ticks_for(total),
        total - ticks * UPDATE_INTERVAL_NANOS < UPDATE_INTERVAL_NANOS ==> total - ticks
            * UPDATE_INTERVAL_NANOS == total % UPDATE_INTERVAL_NANOS as int,
        total - ticks * UPDATE_INTERVAL_NANOS < UPDATE_INTERVAL_NANOS <==> total < (
        MAX_TICKS_PER_UPDATE as int + 1) * (UPDATE_INTERVAL_NANOS as int),
{
    if total - ticks * UPDATE_INTERVAL_NANOS < UPDATE_INTERVAL_NANOS {
        lemma_fundamental_div_mod_converse_div(
            total,
            UPDATE_INTERVAL_NANOS as int,
            ticks,
            total - ticks * UPDATE_INTERVAL_NANOS,
        );
        lemma_fundamental_div_mod_converse_mod(
            total,
            UPDATE_INTERVAL_NANOS as int,
            ticks,
            total - ticks * UPDATE_INTERVAL_NANOS,
        );
    } else {
        assert(ticks == 4);
        assert(total >= 5 * UPDATE_INTERVAL_NANOS);
        assert(total / (UPDATE_INTERVAL_NANOS as int) >= 4);
    }
}

/// What `Duration::as_nanos` gives for `d`: the whole span in nanoseconds.
pub uninterp spec fn duration_nanos(d: std::time::Duration) -> u128;

/// `Duration::as_nanos`: the whole span in nanoseconds. A `Duration` holds
/// at most `u64::MAX` seconds and 999,999,999 nanoseconds, as std documents
/// for `Duration::MAX`.
#[verifier::external_body]
fn nanos_of(d: std::time::Duration) -> (n: u128)
    ensures
        n == duration_nanos(d),
        n <= DURATION_MAX_NANOS,
{
    d.as_nanos()
}

/// `Duration::from_nanos`: the span of `nanos` nanoseconds, which
/// `as_nanos` gives back, as std documents.
#[verifier::external_body]
fn duration_from_nanos(nanos: u64) -> (d: std::time::Duration)
    ensures
        duration_nanos(d) == nanos,
{
    std::time::Duration::from_nanos(nanos)
}

/// 1 if the cell at `(column, row)` is inside `board` and alive, 0 otherwise.
fn alive_at(board: &Grid<Cell>, column: isize, row: isize) -> (n: usize)
    requires
        board.wf(),
    ensures
        n == live_at(board.cells(), board.ncols() as int, board.nrows() as int, column as int, row as int),
{
    match board.get(column, row) {
        Some(cell) => if cell.is_alive() {
            1
        } else {
            0
        },
        None => 0,
    }
}

/// The number of live cells among the eight around `(column, row)`.
fn count_live_neighbours(board: &Grid<Cell>, column: isize, row: isize) -> (n: usize)
    requires
        board.wf(),
        0 <= column < board.ncols(),
        0 <= row < board.nrows(),
        board.ncols() < isize::MAX,
        board.nrows() < isize::MAX,
    ensures
        n == live_neighbours(board.cells(), board.ncols() as int, board.nrows() as int, column as int, row as int),
        n <= 8,
{
    alive_at(board, column - 1, row - 1) + alive_at(board, column, row - 1) + alive_at(
        board,
        column + 1,
        row - 1,
    ) + alive_at(board, column - 1, row) + alive_at(board, column + 1, row) + alive_at(
        board,
        column - 1,
        row + 1,
    ) + alive_at(board, column, row + 1) + alive_at(board, column + 1, row + 1)
}

/// Writes the generation after `current` into `next`, every cell of it.
fn fill_next_generation(rule: &Rule, current: &Grid<Cell>, next: &mut Grid<Cell>)
    requires
        current.wf(),
        old(next).wf(),
        old(next).ncols() == current.ncols(),
        old(next).nrows() == current.nrows(),
        current.ncols() < isize::MAX,
        current.nrows() < isize::MAX,
        counters_below(current.cells(), usize::MAX as int),
    ensures
        final(next).wf(),
        final(next).ncols() == current.ncols(),
        final(next).nrows() == current.nrows(),
        final(next).cells() == next_cells(
            *rule,
            current.cells(),
            current.ncols() as int,
            current.nrows() as int,
        ),
{
    let ghost w = current.ncols() as int;
    let ghost h = current.nrows() as int;
    let ghost target = next_cells(*rule, current.cells(), w, h);
    let width = current.columns();
    let len = current.size();
    let mut i: usize = 0;
    while i < len
        invariant
            current.wf(),
            w == current.ncols(),
            h == current.nrows(),
            width == w,
            len == w * h,
            w < isize::MAX,
            h < isize::MAX,
            counters_below(current.cells(), usize::MAX as int),
            target == next_cells(*rule, current.cells(), w, h),
            i <= len,
            next.wf(),
            next.ncols() == w,
            next.nrows() == h,
            forall|j: int| 0 <= j < i ==> #[trigger] next.cells()[j] == target[j],
        decreases len - i,
    {
        let x = i % width;
        let y = i / width;
        proof {
            assert(y < h) by (nonlinear_arith)
                requires
                    y == i / width,
                    i < w * h,
                    width == w,
                    w > 0,
            ;
        }
        let n = count_live_neighbours(current, x as isize, y as isize);
        match current.get_by_index(i) {
            Some(cell) => {
                let new_cell = cell.apply_rule(rule, n);
                match next.get_mut_by_index(i) {
                    Some(slot) => {
                        *slot = new_cell;
                    },
                    None => {},
                }
            },
            None => {},
        }
        i += 1;
    }
    proof {
        assert(next.cells() =~= target);
    }
}

/// How many of the positions `first..end` lie on a side `size` long.
pub open spec fn span(first: int, end: int, size: int) -> int {
    let high = if end < size {
        end
    } else {
        size
    };
    if first < high {
        high - first
    } else {
        0
    }
}

/// Whether the cell at `(x, y)` of a `width` wide board is alive when the
/// cells in columns `first_column..end_column` and rows `first_row..end_row`
/// take the values `draws`, one after another, row by row, and the rest are
/// dead.
pub open spec fn drawn_alive(
    first_column: int,
    end_column: int,
    first_row: int,
    width: int,
    end_row: int,
    draws: Seq<bool>,
    x: int,
    y: int,
) -> bool {
    &&& first_column <= x < end_column
    &&& first_row <= y < end_row
    &&& draws[(y - first_row) * span(first_column, end_column, width) + (x - first_column)]
}

/// How many of the positions `first..end` lie on a side `size` long.
fn span_of(first: usize, end: usize, size: usize) -> (n: usize)
    ensures
        n == span(first as int, end as int, size as int),
        n <= size,
{
    let high = if end < size {
        end
    } else {
        size
    };
    if first < high {
        high - first
    } else {
        0
    }
}

/// A board of a life-like automaton that advances one generation for every
/// [`UPDATE_INTERVAL_NANOS`] of simulated time.
#[derive(Clone, Debug)]
pub struct Conway {
    rule: Rule,
    buffer: DoubleBuffer<Grid<Cell>>,
    width: usize,
    height: usize,
    /// Time owed to the simulation but not yet spent on a tick, in
    /// nanoseconds. Leftover time carries into the next update rather than
    /// being dropped.
    unspent: u64,
}

impl Conway {
    /// The cells of the board, row-major.
    pub closed spec fn board(&self) -> Seq<Cell> {
        self.buffer.committed().cells()
    }

    /// The width of the board in cells.
    pub closed spec fn board_width(&self) -> int {
        self.width as int
    }

    /// The height of the board in cells.
    pub closed spec fn board_height(&self) -> int {
        self.height as int
    }

    /// The rule the board runs under.
    pub closed spec fn rule_of(&self) -> Rule {
        self.rule
    }

    /// Simulated time owed but not yet spent on a generation, in nanoseconds.
    pub closed spec fn unspent_nanos(&self) -> int {
        self.unspent as int
    }

    /// Both buffers span the board, whose sides fit an `isize`, and less than
    /// one interval is owed.
    pub closed spec fn wf(&self) -> bool {
        let g = self.buffer.committed();
        let s = self.buffer.scratch();
        &&& g.wf()
        &&& s.wf()
        &&& g.ncols() == self.width
        &&& g.nrows() == self.height
        &&& s.ncols() == self.width
        &&& s.nrows() == self.height
        &&& self.width < isize::MAX
        &&& self.height < isize::MAX
        &&& self.unspent < UPDATE_INTERVAL_NANOS
    }

    /// What a well-formed board guarantees: it holds one cell per position,
    /// its sides fit an `isize`, and less than one interval is owed.
    pub proof fn lemma_wf(self)
        requires
            self.wf(),
        ensures
            self.board().len() == self.board_width() * self.board_height(),
            0 <= self.board_width() < isize::MAX,
            0 <= self.board_height() < isize::MAX,
            0 <= self.unspent_nanos() < UPDATE_INTERVAL_NANOS,
    {
    }

    /// A board showing `grid`, running the rule that `rulestring` spells.
    pub fn new(rulestring: &str, grid: Grid<Cell>, width: usize, height: usize) -> (c: Self)
        requires
            rulestring@.contains('/'),
            !rulestring@.contains('9'),
            grid.wf(),
            grid.ncols() == width,
            grid.nrows() == height,
            width < isize::MAX,
            height < isize::MAX,
        ensures
            c.wf(),
            c.board() == grid.cells(),
            c.board_width() == width,
            c.board_height() == height,
            c.rule_of().spelled_by(rulestring@),
            c.unspent_nanos() == 0,
    {
        let buffer = DoubleBuffer::new(grid);
        Self { rule: Rule::from_rulestring(rulestring), buffer, width, height, unspent: 0 }
    }

    /// Advances the board one generation under `rule`.
    pub fn apply_rule(&mut self, rule: &Rule)
        requires
            old(self).wf(),
            counters_below(old(self).board(), usize::MAX as int),
        ensures
            final(self).wf(),
            final(self).board() == next_cells(
                *rule,
                old(self).board(),
                old(self).board_width(),
                old(self).board_height(),
            ),
            final(self).board_width() == old(self).board_width(),
            final(self).board_height() == old(self).board_height(),
            final(self).rule_of() == old(self).rule_of(),
            final(self).unspent_nanos() == old(self).unspent_nanos(),
    {
        let width = self.width;
        let height = self.height;
        let step = |current: &Grid<Cell>, next: &mut Grid<Cell>|
                requires
                    current.wf(),
                    old(next).wf(),
                    current.ncols() == width,
                    current.nrows() == height,
                    old(next).ncols() == width,
                    old(next).nrows() == height,
                    width < isize::MAX,
                    height < isize::MAX,
                    counters_below(current.cells(), usize::MAX as int),
                ensures
                    final(next).wf(),
                    final(next).ncols() == width,
                    final(next).nrows() == height,
                    final(next).cells() == next_cells(
                        *rule,
                        current.cells(),
                        width as int,
                        height as int,
                    ),
            {
                fill_next_generation(rule, current, next)
            };
        self.buffer.generate(step);
    }

    /// Spends `dt_nanos` more nanoseconds of simulated time: one generation
    /// for every whole interval owed, at most [`MAX_TICKS_PER_UPDATE`] of
    /// them. The part of an interval left over carries into the next update;
    /// whole intervals still owed after the capped generations are dropped
    /// rather than run tick by tick.
    pub fn advance(&mut self, dt_nanos: u128)
        requires
            old(self).wf(),
            dt_nanos <= DURATION_MAX_NANOS,
            counters_below(old(self).board(), usize::MAX - MAX_TICKS_PER_UPDATE),
        ensures
            final(self).wf(),
            final(self).board() == evolve(
                old(self).rule_of(),
                old(self).board(),
                old(self).board_width(),
                old(self).board_height(),
                ticks_for(old(self).unspent_nanos() + dt_nanos) as nat,
            ),
            final(self).unspent_nanos() == carried(old(self).unspent_nanos() + dt_nanos),
            final(self).board_width() == old(self).board_width(),
            final(self).board_height() == old(self).board_height(),
            final(self).rule_of() == old(self).rule_of(),
            counters_below(
                final(self).board(),
                usize::MAX - MAX_TICKS_PER_UPDATE + ticks_for(old(self).unspent_nanos() + dt_nanos),
            ),
    {
        let ghost start = self.board();
        let ghost total = self.unspent_nanos() + dt_nanos;
        let ghost w = self.board_width();
        let ghost h = self.board_height();
        let mut unspent: u128 = self.unspent as u128 + dt_nanos;
        let mut ticks: u32 = 0;
        while unspent >= UPDATE_INTERVAL_NANOS as u128 && ticks < MAX_TICKS_PER_UPDATE
            invariant
                self.wf(),
                ticks <= MAX_TICKS_PER_UPDATE,
                unspent == total - ticks * UPDATE_INTERVAL_NANOS,
                self.board() == evolve(self.rule_of(), start, w, h, ticks as nat),
                self.board_width() == w,
                self.board_height() == h,
                self.rule_of() == old(self).rule_of(),
                start == old(self).board(),
                total == old(self).unspent_nanos() + dt_nanos,
                counters_below(self.board(), usize::MAX - MAX_TICKS_PER_UPDATE + ticks),
            decreases MAX_TICKS_PER_UPDATE - ticks,
        {
            let rule = self.rule;
            proof {
                lemma_next_counters(
                    rule,
                    self.board(),
                    w,
                    h,
                    usize::MAX - MAX_TICKS_PER_UPDATE + ticks,
                );
            }
            self.apply_rule(&rule);
            unspent = unspent - UPDATE_INTERVAL_NANOS as u128;
            ticks = ticks + 1;
        }
        proof {
            lemma_ticks(total, ticks as int);
        }
        if unspent >= UPDATE_INTERVAL_NANOS as u128 {
            unspent = 0;
        }
        self.unspent = unspent as u64;
    }

    /// Advances the simulation by `dt`: converts it to nanoseconds and
    /// [`Self::advance`]s by that much. The input is not read.
    pub fn update(&mut self, dt: std::time::Duration, input: &Input)
        requires
            old(self).wf(),
            counters_below(old(self).board(), usize::MAX - MAX_TICKS_PER_UPDATE),
        ensures
            final(self).wf(),
            final(self).board() == evolve(
                old(self).rule_of(),
                old(self).board(),
                old(self).board_width(),
                old(self).board_height(),
                ticks_for(old(self).unspent_nanos() + duration_nanos(dt)) as nat,
            ),
            final(self).unspent_nanos() == carried(old(self).unspent_nanos() + duration_nanos(dt)),
            final(self).board_width() == old(self).board_width(),
            final(self).board_height() == old(self).board_height(),
            final(self).rule_of() == old(self).rule_of(),
    {
        let dt_nanos = nanos_of(dt);
        self.advance(dt_nanos);
    }

    /// A board whose cells are dead, except those in columns
    /// `first_column..end_column` and rows `first_row..end_row`, which take
    /// the values `draws` one after another, row by row, as far as the board
    /// reaches. Every cell starts without history.
    pub fn from_draws(
        rulestring: &str,
        first_column: usize,
        end_column: usize,
        first_row: usize,
        end_row: usize,
        width: usize,
        height: usize,
        draws: &[bool],
    ) -> (c: Self)
        requires
            rulestring@.contains('/'),
            !rulestring@.contains('9'),
            width < isize::MAX,
            height < isize::MAX,
            width * height <= usize::MAX,
            draws@.len() == span(first_column as int, end_column as int, width as int) * span(
                first_row as int,
                end_row as int,
                height as int,
            ),
        ensures
            c.wf(),
            c.board_width() == width,
            c.board_height() == height,
            c.rule_of().spelled_by(rulestring@),
            c.unspent_nanos() == 0,
            forall|i: int| 0 <= i < c.board().len() ==> (#[trigger] c.board()[i]).age_count() is None
                && c.board()[i].ghost_count() is None,
            forall|x: int, y: int|
                0 <= x < width && 0 <= y < height ==> (#[trigger] c.board()[x + y * width]).lives()
                    == drawn_alive(
                    first_column as int,
                    end_column as int,
                    first_row as int,
                    width as int,
                    end_row as int,
                    draws@,
                    x,
                    y,
                ),
    {
        let span_w = span_of(first_column, end_column, width);
        let span_h = span_of(first_row, end_row, height);
        let ghost dr = draws@;
        let n = draws.len();
        let mut cells: Vec<Cell> = Vec::with_capacity(width * height);
        let mut row: usize = 0;
        while row < height
            invariant
                row <= height,
                width * height <= usize::MAX,
                span_w == span(first_column as int, end_column as int, width as int),
                span_h == span(first_row as int, end_row as int, height as int),
                dr == draws@,
                n == draws@.len(),
                draws@.len() == span_w * span_h,
                cells@.len() == row * width,
                forall|i: int| 0 <= i < cells@.len() ==> (#[trigger] cells@[i]).age_count() is None
                    && cells@[i].ghost_count() is None,
                forall|x: int, y: int|
                    0 <= x < width && 0 <= y < row ==> (#[trigger] cells@[x + y * width]).lives()
                        == drawn_alive(
                        first_column as int,
                        end_column as int,
                        first_row as int,
                        width as int,
                        end_row as int,
                        dr,
                        x,
                        y,
                    ),
            decreases height - row,
        {
            let mut col: usize = 0;
            while col < width
                invariant
                    row < height,
                    col <= width,
                    width * height <= usize::MAX,
                    span_w == span(first_column as int, end_column as int, width as int),
                    span_h == span(first_row as int, end_row as int, height as int),
                    dr == draws@,
                    n == draws@.len(),
                    draws@.len() == span_w * span_h,
                    cells@.len() == row * width + col,
                    forall|i: int| 0 <= i < cells@.len() ==> (#[trigger] cells@[i]).age_count() is None
                        && cells@[i].ghost_count() is None,
                    forall|x: int, y: int|
                        0 <= x < width && 0 <= y < row ==> (#[trigger] cells@[x + y * width]).lives()
                            == drawn_alive(
                            first_column as int,
                            end_column as int,
                            first_row as int,
                            width as int,
                            end_row as int,
                            dr,
                            x,
                            y,
                        ),
                    forall|x: int|
                        0 <= x < col ==> (#[trigger] cells@[x + row * width]).lives() == drawn_alive(
                            first_column as int,
                            end_column as int,
                            first_row as int,
                            width as int,
                            end_row as int,
                            dr,
                            x,
                            row as int,
                        ),
                decreases width - col,
            {
                proof {
                    crate::grid::lemma_flat_index_in_range(width as int, height as int, col as int, row as int);
                }
                let in_region = first_column <= col && col < end_column && first_row <= row && row
                    < end_row;
                let cell = if in_region {
                    let dy = row - first_row;
                    let dx = col - first_column;
                    proof {
                        assert(dy < span_h && dx < span_w);
                        assert(dy * span_w + dx < span_w * span_h) by (nonlinear_arith)
                            requires
                                dy < span_h,
                                dx < span_w,
                        ;
                        assert(dy * span_w + dx >= 0) by (nonlinear_arith)
                            requires
                                dy >= 0,
                                dx >= 0,
                                span_w >= 0,
                        ;
                    }
                    Cell::new(draws[dy * span_w + dx])
                } else {
                    Cell::default()
                };
                let ghost before = cells@;
                cells.push(cell);
                proof {
                    assert forall|x: int, y: int| 0 <= x < width && 0 <= y < row implies (
                    #[trigger] cells@[x + y * width]).lives() == drawn_alive(
                        first_column as int,
                        end_column as int,
                        first_row as int,
                        width as int,
                        end_row as int,
                        dr,
                        x,
                        y,
                    ) by {
                        crate::grid::lemma_flat_index_in_range(width as int, row as int, x, y);
                        assert(cells@[x + y * width] == before[x + y * width]);
                    }
                    assert forall|x: int| 0 <= x < col + 1 implies (#[trigger] cells@[x + row
                        * width]).lives() == drawn_alive(
                        first_column as int,
                        end_column as int,
                        first_row as int,
                        width as int,
                        end_row as int,
                        dr,
                        x,
                        row as int,
                    ) by {
                        if x < col {
                            assert(cells@[x + row * width] == before[x + row * width]);
                        }
                    }
                }
                col += 1;
            }
            proof {
                assert((row + 1) * width == row * width + width) by (nonlinear_arith);
            }
            row += 1;
        }
        proof {
            assert(height * width == width * height) by (nonlinear_arith);
        }
        let grid = Grid::new(cells, width, height);
        Self::new(rulestring, grid, width, height)
    }

    /// A board whose cells are dead, except those in columns
    /// `first_column..end_column` and rows `first_row..end_row`, which are
    /// each alive or dead at random: one coin is drawn from `rng` for each of
    /// them, row by row, and the board is [`Self::from_draws`] of the coins.
    pub fn random(
        rulestring: &str,
        first_column: usize,
        end_column: usize,
        first_row: usize,
        end_row: usize,
        width: usize,
        height: usize,
        rng: Rng,
    ) -> (c: Self)
        requires
            rulestring@.contains('/'),
            !rulestring@.contains('9'),
            width < isize::MAX,
            height < isize::MAX,
            width * height <= usize::MAX,
        ensures
            c.wf(),
            c.board_width() == width,
            c.board_height() == height,
            c.rule_of().spelled_by(rulestring@),
            c.unspent_nanos() == 0,
            forall|i: int| 0 <= i < c.board().len() ==> (#[trigger] c.board()[i]).age_count() is None
                && c.board()[i].ghost_count() is None,
            exists|draws: Seq<bool>|
                draws.len() == span(first_column as int, end_column as int, width as int) * span(
                    first_row as int,
                    end_row as int,
                    height as int,
                ) && forall|x: int, y: int|
                    0 <= x < width && 0 <= y < height ==> (#[trigger] c.board()[x + y * width]).lives()
                        == drawn_alive(
                        first_column as int,
                        end_column as int,
                        first_row as int,
                        width as int,
                        end_row as int,
                        draws,
                        x,
                        y,
                    ),
    {
        let mut rng = rng;
        let span_w = span_of(first_column, end_column, width);
        let span_h = span_of(first_row, end_row, height);
        let mut draws: Vec<bool> = Vec::new();
        let mut r: usize = 0;
        while r < span_h
            invariant
                r <= span_h,
                draws@.len() == r * span_w,
            decreases span_h - r,
        {
            let mut k: usize = 0;
            while k < span_w
                invariant
                    r < span_h,
                    k <= span_w,
                    draws@.len() == r * span_w + k,
                decreases span_w - k,
            {
                draws.push(random_bool(&mut rng));
                k += 1;
            }
            proof {
                assert((r + 1) * span_w == r * span_w + span_w) by (nonlinear_arith);
            }
            r += 1;
        }
        proof {
            assert(span_h * span_w == span_w * span_h) by (nonlinear_arith);
        }
        Self::from_draws(
            rulestring,
            first_column,
            end_column,
            first_row,
            end_row,
            width,
            height,
            draws.as_slice(),
        )
    }

    /// The cell at `(x, y)`, or `None` outside the board.
    pub fn cell(&self, x: isize, y: isize) -> (c: Option<&Cell>)
        requires
            self.wf(),
        ensures
            c == (if 0 <= x < self.board_width() && 0 <= y < self.board_height() {
                Some(&self.board()[x + y * self.board_width()])
            } else {
                None::<&Cell>
            }),
    {
        self.buffer.state().get(x, y)
    }

    /// The width of the board in cells.
    pub fn columns(&self) -> (w: usize)
        ensures
            w == self.board_width(),
    {
        self.width
    }

    /// The height of the board in cells.
    pub fn rows(&self) -> (h: usize)
        ensures
            h == self.board_height(),
    {
        self.height
    }

    /// Simulated time owed but not yet spent on a generation.
    pub fn unspent(&self) -> (d: std::time::Duration)
        ensures
            duration_nanos(d) == self.unspent_nanos(),
    {
        duration_from_nanos(self.unspent)
    }
}

/// Every cell of `cells` is dead.
pub open spec fn all_dead(cells: Seq<Cell>) -> bool {
    forall|i: int| 0 <= i < cells.len() ==> !(#[trigger] cells[i]).lives()
}

/// A generation keeps the size of the board.
pub proof fn lemma_evolve_len(rule: Rule, cells: Seq<Cell>, width: int, height: int, n: nat)
    ensures
        evolve(rule, cells, width, height, n).len() == cells.len(),
    decreases n,
{
    if n > 0 {
        lemma_evolve_len(rule, cells, width, height, (n - 1) as nat);
    }
}

/// An empty board stays empty, under any rule that gives no birth to a
/// cell without live neighbours.
pub proof fn lemma_empty_board_stays_empty(rule: Rule, cells: Seq<Cell>, width: int, height: int, n: nat)
    requires
        all_dead(cells),
        cells.len() == width * height,
        width >= 0,
        height >= 0,
        !rule.births()[0],
    ensures
        all_dead(evolve(rule, cells, width, height, n)),
    decreases n,
{
    if n > 0 {
        let before = evolve(rule, cells, width, height, (n - 1) as nat);
        lemma_empty_board_stays_empty(rule, cells, width, height, (n - 1) as nat);
        lemma_evolve_len(rule, cells, width, height, (n - 1) as nat);
        assert forall|c: int, r: int| 0 <= c < width && 0 <= r < height implies !(#[trigger] before[c
            + r * width]).lives() by {
            crate::grid::lemma_flat_index_in_range(width, height, c, r);
        }
        let after = next_cells(rule, before, width, height);
        assert forall|i: int| 0 <= i < after.len() implies !(#[trigger] after[i]).lives() by {
            let c = i % width;
            let r = i / width;
            assert(live_neighbours(before, width, height, c, r) == 0) by {
                assert(live_at(before, width, height, c - 1, r - 1) == 0);
                assert(live_at(before, width, height, c, r - 1) == 0);
                assert(live_at(before, width, height, c + 1, r - 1) == 0);
                assert(live_at(before, width, height, c - 1, r) == 0);
                assert(live_at(before, width, height, c + 1, r) == 0);
                assert(live_at(before, width, height, c - 1, r + 1) == 0);
                assert(live_at(before, width, height, c, r + 1) == 0);
                assert(live_at(before, width, height, c + 1, r + 1) == 0);
            }
        }
    }
}

/// Running `m` generations and then `n` more is running `m + n`.
pub proof fn lemma_evolve_add(rule: Rule, cells: Seq<Cell>, width: int, height: int, m: nat, n: nat)
    ensures
        evolve(rule, evolve(rule, cells, width, height, m), width, height, n) == evolve(
            rule,
            cells,
            width,
            height,
            m + n,
        ),
    decreases n,
{
    if n > 0 {
        lemma_evolve_add(rule, cells, width, height, m, (n - 1) as nat);
    }
}

/// Generations are paced by simulated time, not by how it is handed over:
/// while less than the cap's worth plus one interval is owed in all,
/// spending `a` and then `b` nanoseconds runs the same generations and
/// leaves the same time owed as spending `a + b` at once.
pub proof fn lemma_updates_compose(
    rule: Rule,
    cells: Seq<Cell>,
    width: int,
    height: int,
    unspent: int,
    a: int,
    b: int,
)
    requires
        0 <= unspent,
        0 <= a,
        0 <= b,
        unspent + a + b < (MAX_TICKS_PER_UPDATE + 1) * UPDATE_INTERVAL_NANOS,
    ensures
        evolve(
            rule,
            evolve(rule, cells, width, height, ticks_for(unspent + a) as nat),
            width,
            height,
            ticks_for(carried(unspent + a) + b) as nat,
        ) == evolve(rule, cells, width, height, ticks_for(unspent + a + b) as nat),
        carried(carried(unspent + a) + b) == carried(unspent + a + b),
{
    let i = UPDATE_INTERVAL_NANOS as int;
    let x = unspent + a;
    let q = x / i;
    let rem = x % i;
    assert(x == q * i + rem && 0 <= rem < i) by (nonlinear_arith)
        requires
            i > 0,
            q == x / i,
            rem == x % i,
    ;
    assert(carried(x) == rem);
    let q2 = (rem + b) / i;
    let rem2 = (rem + b) % i;
    assert(rem + b == q2 * i + rem2 && 0 <= rem2 < i) by (nonlinear_arith)
        requires
            i > 0,
            q2 == (rem + b) / i,
            rem2 == (rem + b) % i,
    ;
    lemma_fundamental_div_mod_converse_div(x + b, i, q + q2, rem2);
    lemma_fundamental_div_mod_converse_mod(x + b, i, q + q2, rem2);
    assert(q >= 0 && q2 >= 0 && q + q2 <= 4);
    lemma_evolve_add(rule, cells, width, height, q as nat, q2 as nat);
}

/// The number of live cells in `cells`.
pub open spec fn live_count(cells: Seq<Cell>) -> nat {
    cells.filter(|c: Cell| c.lives()).len()
}

/// Of the first `n` coordinates of `coords`, how many `keep` selects with a
/// live cell of `g` there.
spec fn kept_live_upto(g: Grid<Cell>, coords: Seq<(int, int)>, keep: spec_fn((int, int)) -> bool, n: nat) -> int
    decreases n,
{
    if n == 0 {
        0
    } else {
        kept_live_upto(g, coords, keep, (n - 1) as nat) + if keep(coords[n - 1]) && g.cell(
            coords[n - 1].0,
            coords[n - 1].1,
        ).lives() {
            1int
        } else {
            0
        }
    }
}

/// Counting the live cells kept among the first `n` coordinates one at a
/// time agrees with filtering them out and counting.
proof fn lemma_kept_live_upto(g: Grid<Cell>, coords: Seq<(int, int)>, keep: spec_fn((int, int)) -> bool, n: nat)
    requires
        n <= coords.len(),
    ensures
        live_count(g.cells_at(coords.take(n as int), keep)) == kept_live_upto(g, coords, keep, n),
    decreases n,
{
    let lives = |c: Cell| c.lives();
    let at = |p: (int, int)| g.cell(p.0, p.1);
    if n == 0 {
        assert(coords.take(0) =~= Seq::<(int, int)>::empty());
        Seq::<(int, int)>::empty().lemma_filter_len(keep);
        Seq::<Cell>::empty().lemma_filter_len(lives);
        assert(g.cells_at(coords.take(0), keep) =~= Seq::<Cell>::empty());
    } else {
        let m = (n - 1) as int;
        lemma_kept_live_upto(g, coords, keep, m as nat);
        let x = coords[m];
        coords.lemma_take_succ_push(m);
        coords.take(m).lemma_filter_push(x, keep);
        let kept = coords.take(m).filter(keep);
        if keep(x) {
            kept.lemma_push_map_commute(at, x);
            kept.map_values(at).lemma_filter_push(at(x), lives);
        }
    }
}

/// The eight-cell sum that defines a cell's live neighbours counts the live
/// cells among the grid's neighbours of that cell, its neighbourhood of
/// distance one without the cell itself.
pub proof fn lemma_live_neighbours_counts_neighbours(g: Grid<Cell>, c: int, r: int)
    requires
        g.wf(),
        g.in_bounds(c, r),
    ensures
        live_neighbours(g.cells(), g.ncols() as int, g.nrows() as int, c, r) == live_count(
            g.neighbours(c, r, 1),
        ),
{
    let coords = crate::grid::neighbourhood_coords(c, r, 1);
    let keep = g.inside_except(c, r);
    let side: int = 2 * (1nat as int) + 1;
    assert(side * side == 9) by (nonlinear_arith)
        requires
            side == 3,
    ;
    assert(coords.len() == 9);
    lemma_kept_live_upto(g, coords, keep, 9);
    assert(coords.take(9) =~= coords);
    reveal_with_fuel(kept_live_upto, 10);
    assert(coords[0] == (c - 1, r - 1));
    assert(coords[1] == (c - 1, r));
    assert(coords[2] == (c - 1, r + 1));
    assert(coords[3] == (c, r - 1));
    assert(coords[4] == (c, r));
    assert(coords[5] == (c, r + 1));
    assert(coords[6] == (c + 1, r - 1));
    assert(coords[7] == (c + 1, r));
    assert(coords[8] == (c + 1, r + 1));
}

/// A generation applies the rule at every cell of the board, edge and corner
/// cells included: the cell at `(column, row)` becomes what its own state
/// and the number of live cells among its neighbours in the grid decide.
pub proof fn lemma_generation_everywhere(rule: Rule, g: Grid<Cell>, column: int, row: int)
    requires
        g.wf(),
        g.in_bounds(column, row),
    ensures
        next_cells(rule, g.cells(), g.ncols() as int, g.nrows() as int)[column + row * g.ncols()]
            == g.cell(column, row).next(
            rule.decides(g.cell(column, row).lives(), live_count(g.neighbours(column, row, 1) ) as int),
        ),
{
    let w = g.ncols() as int;
    let h = g.nrows() as int;
    let i = column + row * w;
    crate::grid::lemma_flat_index_in_range(w, h, column, row);
    lemma_fundamental_div_mod_converse_div(i, w, row, column);
    lemma_fundamental_div_mod_converse_mod(i, w, row, column);
    lemma_live_neighbours_counts_neighbours(g, column, row);
}

} // verus!
