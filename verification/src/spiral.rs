//! The square spiral that lays the natural numbers out on the grid.
//!
//! The walk starts with 1 at the origin, heads east and turns counter-clockwise.
//! Its runs have lengths 1, 1, 2, 2, 3, 3, ...: on ring `m` (m = 0, 1, ...) it walks
//! east for `2m+1` cells, north for `2m+1`, west for `2m+2` and south for `2m+2`.
//! The spec functions below describe every run in closed form, and the laws at the
//! end of the file state what the layout is: one cell per number, one number per
//! cell, neighbours on consecutive numbers, and the first `(2k+1)^2` numbers filling
//! the square of half-width `k` around the origin.
use vstd::prelude::*;

verus! {

/// Heading of the walk.
#[derive(Debug, Clone, Copy, PartialEq, Eq, Structural)]
pub enum Direction {
    Right,
    Up,
    Left,
    Down,
}

/// Number of cells walked in `dir` on ring `m`.
pub open spec fn run_length(dir: Direction, m: int) -> int {
    match dir {
        Direction::Right | Direction::Up => 2 * m + 1,
        Direction::Left | Direction::Down => 2 * m + 2,
    }
}

/// The number written in the first cell of the run in `dir` on ring `m`.
///
/// In factored form these are `2m(2m+1)+1`, `(2m+1)^2+1`, `(2m+1)(2m+2)+1` and
/// `(2m+2)^2+1`.
pub open spec fn run_first_value(dir: Direction, m: int) -> int {
    match dir {
        Direction::Right => 4 * (m * m) + 2 * m + 1,
        Direction::Up => 4 * (m * m) + 4 * m + 2,
        Direction::Left => 4 * (m * m) + 6 * m + 3,
        Direction::Down => 4 * (m * m) + 8 * m + 5,
    }
}

/// The cell of step `s` of the run in `dir` on ring `m`.
pub open spec fn run_point(dir: Direction, m: int, s: int) -> (int, int) {
    match dir {
        Direction::Right => (-m + s, -m),
        Direction::Up => (m + 1, -m + s),
        Direction::Left => (m + 1 - s, m + 1),
        Direction::Down => (-m - 1, m + 1 - s),
    }
}

/// The unit move of one step in `dir`.
pub open spec fn step_offset(dir: Direction) -> (int, int) {
    match dir {
        Direction::Right => (1, 0),
        Direction::Up => (0, 1),
        Direction::Left => (-1, 0),
        Direction::Down => (0, -1),
    }
}

/// The heading after a counter-clockwise quarter turn.
pub open spec fn turned(dir: Direction) -> Direction {
    match dir {
        Direction::Right => Direction::Up,
        Direction::Up => Direction::Left,
        Direction::Left => Direction::Down,
        Direction::Down => Direction::Right,
    }
}

/// Number `v` sits in cell `(x, y)`, as step `s` of the run in `dir` on ring `m`.
pub open spec fn placed(dir: Direction, m: int, s: int, v: int, x: int, y: int) -> bool {
    &&& 0 <= m
    &&& 0 <= s < run_length(dir, m)
    &&& v == run_first_value(dir, m) + s
    &&& x == run_point(dir, m, s).0
    &&& y == run_point(dir, m, s).1
}

/// Number `v` sits in cell `(x, y)` of the spiral.
pub open spec fn on_spiral(v: int, x: int, y: int) -> bool {
    exists|dir: Direction, m: int, s: int| #[trigger] placed(dir, m, s, v, x, y)
}

/// Where the walk goes after step `s` of the run in `dir` on ring `m`.
pub open spec fn next_place(dir: Direction, m: int, s: int) -> (Direction, int, int) {
    if s + 1 < run_length(dir, m) {
        (dir, m, s + 1)
    } else if dir == Direction::Down {
        (Direction::Right, m + 1, 0)
    } else {
        (turned(dir), m, 0)
    }
}

proof fn lemma_square_of_successor(m: int)
    ensures
        (m + 1) * (m + 1) == m * m + 2 * m + 1,
{
    assert((m + 1) * (m + 1) == m * m + 2 * m + 1) by (nonlinear_arith);
}

proof fn lemma_square_monotone(a: int, b: int)
    requires
        0 <= a <= b,
    ensures
        a * a <= b * b,
{
    assert(a * a <= b * b) by (nonlinear_arith)
        requires
            0 <= a <= b,
    ;
}

/// One step of the walk: the number after `v` sits one cell further in the heading.
proof fn lemma_walk_step(dir: Direction, m: int, s: int, v: int, x: int, y: int)
    requires
        placed(dir, m, s, v, x, y),
    ensures
        placed(
            next_place(dir, m, s).0,
            next_place(dir, m, s).1,
            next_place(dir, m, s).2,
            v + 1,
            x + step_offset(dir).0,
            y + step_offset(dir).1,
        ),
{
    lemma_square_of_successor(m);
}

/// The global position of a run in the order of the walk.
spec fn run_index(dir: Direction, m: int) -> int {
    4 * m + match dir {
        Direction::Right => 0int,
        Direction::Up => 1int,
        Direction::Left => 2int,
        Direction::Down => 3int,
    }
}

/// A run that comes later in the walk starts after the end of an earlier one.
proof fn lemma_runs_ordered(d1: Direction, m1: int, d2: Direction, m2: int)
    requires
        0 <= m1,
        0 <= m2,
        run_index(d1, m1) < run_index(d2, m2),
    ensures
        run_first_value(d1, m1) + run_length(d1, m1) <= run_first_value(d2, m2),
{
    if m1 < m2 {
        lemma_square_of_successor(m1);
        lemma_square_monotone(m1 + 1, m2);
        assert(run_first_value(d1, m1) + run_length(d1, m1) <= run_first_value(
            Direction::Right,
            m1 + 1,
        ));
    }
}

/// A number has one place on the spiral.
proof fn lemma_value_determines_place(
    d1: Direction,
    m1: int,
    s1: int,
    x1: int,
    y1: int,
    d2: Direction,
    m2: int,
    s2: int,
    x2: int,
    y2: int,
    v: int,
)
    requires
        placed(d1, m1, s1, v, x1, y1),
        placed(d2, m2, s2, v, x2, y2),
    ensures
        d1 == d2,
        m1 == m2,
        s1 == s2,
        x1 == x2,
        y1 == y2,
{
    if run_index(d1, m1) < run_index(d2, m2) {
        lemma_runs_ordered(d1, m1, d2, m2);
    } else if run_index(d2, m2) < run_index(d1, m1) {
        lemma_runs_ordered(d2, m2, d1, m1);
    }
}

/// A cell has one place on the spiral.
proof fn lemma_cell_determines_place(
    d1: Direction,
    m1: int,
    s1: int,
    v1: int,
    d2: Direction,
    m2: int,
    s2: int,
    v2: int,
    x: int,
    y: int,
)
    requires
        placed(d1, m1, s1, v1, x, y),
        placed(d2, m2, s2, v2, x, y),
    ensures
        d1 == d2,
        m1 == m2,
        s1 == s2,
        v1 == v2,
{
}

/// The place of a cell: which run of which ring passes through it.
spec fn place_of_cell(x: int, y: int) -> (Direction, int, int) {
    if y <= 0 && y <= x <= -y {
        (Direction::Right, -y, x - y)
    } else if x >= 1 && -(x - 1) <= y <= x - 1 {
        (Direction::Up, x - 1, y + x - 1)
    } else if y >= 1 && -(y - 1) <= x <= y {
        (Direction::Left, y - 1, y - x)
    } else {
        (Direction::Down, -x - 1, -x - y)
    }
}

/// Number 1 sits at the origin.
pub proof fn lemma_spiral_starts_at_origin()
    ensures
        on_spiral(1, 0, 0),
{
    assert(placed(Direction::Right, 0, 0, 1, 0, 0));
}

/// Every number from 1 on has a cell.
pub proof fn lemma_spiral_every_number_placed(v: int)
    requires
        v >= 1,
    ensures
        exists|x: int, y: int| #[trigger] on_spiral(v, x, y),
    decreases v,
{
    if v == 1 {
        lemma_spiral_starts_at_origin();
    } else {
        lemma_spiral_every_number_placed(v - 1);
        let (x, y) = choose|x: int, y: int| #[trigger] on_spiral(v - 1, x, y);
        let (d, m, s) = choose|d: Direction, m: int, s: int| #[trigger] placed(d, m, s, v - 1, x, y);
        lemma_walk_step(d, m, s, v - 1, x, y);
        let n = next_place(d, m, s);
        assert(placed(n.0, n.1, n.2, v, x + step_offset(d).0, y + step_offset(d).1));
        assert(on_spiral(v, x + step_offset(d).0, y + step_offset(d).1));
    }
}

/// A number has only one cell.
pub proof fn lemma_spiral_one_cell_per_number(v: int, x1: int, y1: int, x2: int, y2: int)
    requires
        on_spiral(v, x1, y1),
        on_spiral(v, x2, y2),
    ensures
        x1 == x2,
        y1 == y2,
{
    let (d1, m1, s1) = choose|d: Direction, m: int, s: int| #[trigger] placed(d, m, s, v, x1, y1);
    let (d2, m2, s2) = choose|d: Direction, m: int, s: int| #[trigger] placed(d, m, s, v, x2, y2);
    lemma_value_determines_place(d1, m1, s1, x1, y1, d2, m2, s2, x2, y2, v);
}

/// No cell is visited twice: a cell holds only one number.
pub proof fn lemma_spiral_one_number_per_cell(v1: int, v2: int, x: int, y: int)
    requires
        on_spiral(v1, x, y),
        on_spiral(v2, x, y),
    ensures
        v1 == v2,
{
    let (d1, m1, s1) = choose|d: Direction, m: int, s: int| #[trigger] placed(d, m, s, v1, x, y);
    let (d2, m2, s2) = choose|d: Direction, m: int, s: int| #[trigger] placed(d, m, s, v2, x, y);
    lemma_cell_determines_place(d1, m1, s1, v1, d2, m2, s2, v2, x, y);
}

/// Every cell of the plane is reached by the walk.
pub proof fn lemma_spiral_every_cell_reached(x: int, y: int)
    ensures
        exists|v: int| v >= 1 && #[trigger] on_spiral(v, x, y),
{
    let (d, m, s) = place_of_cell(x, y);
    let v = run_first_value(d, m) + s;
    assert(0 <= m);
    assert(m * m >= 0) by (nonlinear_arith);
    assert(placed(d, m, s, v, x, y));
    assert(v >= 1 && on_spiral(v, x, y));
}

/// Consecutive numbers sit in neighbouring cells (one step east, north, west or south).
pub proof fn lemma_spiral_consecutive_numbers_adjacent(
    v: int,
    x1: int,
    y1: int,
    x2: int,
    y2: int,
)
    requires
        on_spiral(v, x1, y1),
        on_spiral(v + 1, x2, y2),
    ensures
        (x2 == x1 + 1 && y2 == y1) || (x2 == x1 - 1 && y2 == y1) || (x2 == x1 && y2 == y1 + 1)
            || (x2 == x1 && y2 == y1 - 1),
{
    let (d, m, s) = choose|d: Direction, m: int, s: int| #[trigger] placed(d, m, s, v, x1, y1);
    lemma_walk_step(d, m, s, v, x1, y1);
    let n = next_place(d, m, s);
    assert(on_spiral(v + 1, x1 + step_offset(d).0, y1 + step_offset(d).1));
    lemma_spiral_one_cell_per_number(
        v + 1,
        x2,
        y2,
        x1 + step_offset(d).0,
        y1 + step_offset(d).1,
    );
}

/// Half the side of the smallest square around the origin that holds a cell
/// (its Chebyshev distance from the origin).
pub open spec fn ring_radius(x: int, y: int) -> int {
    let ax = if x < 0 {
        -x
    } else {
        x
    };
    let ay = if y < 0 {
        -y
    } else {
        y
    };
    if ax < ay {
        ay
    } else {
        ax
    }
}

/// The numbers placed on the square of radius `c` run from `(2c-1)^2 + 1` to `(2c+1)^2`.
proof fn lemma_radius_bounds(d: Direction, m: int, s: int, v: int, x: int, y: int)
    requires
        placed(d, m, s, v, x, y),
    ensures
        ring_radius(x, y) >= 1 ==> (2 * ring_radius(x, y) - 1) * (2 * ring_radius(x, y) - 1) < v,
        v <= (2 * ring_radius(x, y) + 1) * (2 * ring_radius(x, y) + 1),
{
    let c = ring_radius(x, y);
    assert((2 * m + 1) * (2 * m + 1) == 4 * (m * m) + 4 * m + 1) by (nonlinear_arith);
    assert((2 * m - 1) * (2 * m - 1) == 4 * (m * m) - 4 * m + 1) by (nonlinear_arith);
    assert((2 * m + 3) * (2 * m + 3) == 4 * (m * m) + 12 * m + 9) by (nonlinear_arith);
    match d {
        Direction::Right => {
            assert(c == m);
        },
        _ => {
            assert(c == m + 1);
        },
    }
}

/// The first `(2k+1)^2` numbers fill exactly the `(2k+1) x (2k+1)` square around
/// the origin: a number is at most `(2k+1)^2` if and only if its cell lies within
/// `k` of the origin on both axes.
pub proof fn lemma_spiral_fills_squares(v: int, x: int, y: int, k: int)
    requires
        on_spiral(v, x, y),
        k >= 0,
    ensures
        v <= (2 * k + 1) * (2 * k + 1) <==> (-k <= x <= k && -k <= y <= k),
{
    let (d, m, s) = choose|d: Direction, m: int, s: int| #[trigger] placed(d, m, s, v, x, y);
    lemma_radius_bounds(d, m, s, v, x, y);
    let c = ring_radius(x, y);
    if c <= k {
        lemma_square_monotone(2 * c + 1, 2 * k + 1);
    } else {
        lemma_square_monotone(2 * k + 1, 2 * c - 1);
    }
}

/// The odd squares lie on the diagonal going south-east: `(2k+1)^2` is at `(k, -k)`.
pub proof fn lemma_spiral_odd_squares_on_diagonal(k: int)
    requires
        k >= 0,
    ensures
        on_spiral((2 * k + 1) * (2 * k + 1), k, -k),
{
    assert((2 * k + 1) * (2 * k + 1) == 4 * (k * k) + 4 * k + 1) by (nonlinear_arith);
    assert(placed(Direction::Right, k, 2 * k, (2 * k + 1) * (2 * k + 1), k, -k));
}

/// The even squares lie on the diagonal going north-west: `(2k)^2` is at `(1-k, k)`.
pub proof fn lemma_spiral_even_squares_on_diagonal(k: int)
    requires
        k >= 1,
    ensures
        on_spiral((2 * k) * (2 * k), 1 - k, k),
{
    let m = k - 1;
    assert((2 * k) * (2 * k) == 4 * (m * m) + 8 * m + 4) by (nonlinear_arith)
        requires
            m == k - 1,
    ;
    assert(placed(Direction::Left, m, 2 * m + 1, (2 * k) * (2 * k), 1 - k, k));
}

/// Counted from 1 in the order of the walk, the heading of the `j`-th straight run:
/// east, north, west, south, east, ...
pub open spec fn nth_run_direction(j: int) -> Direction {
    let k = (j - 1) % 4;
    if k == 0 {
        Direction::Right
    } else if k == 1 {
        Direction::Up
    } else if k == 2 {
        Direction::Left
    } else {
        Direction::Down
    }
}

/// The number of steps of the `j`-th straight run: 1, 1, 2, 2, 3, 3, ...; each
/// length serves two legs before it grows by one.
pub open spec fn nth_run_length(j: int) -> int {
    (j + 1) / 2
}

/// The number from which the `j`-th straight run steps off: 1 for the first run,
/// then each run starts where the previous one ended.
pub open spec fn nth_run_start(j: int) -> int
    decreases j,
{
    if j <= 1 {
        1
    } else {
        nth_run_start(j - 1) + nth_run_length(j - 1)
    }
}

/// The `j`-th run of the walk is the run in `nth_run_direction(j)` on ring `(j-1)/4`.
proof fn lemma_nth_run_is_run(j: int)
    requires
        j >= 1,
    ensures
        nth_run_start(j) == run_first_value(nth_run_direction(j), (j - 1) / 4),
        nth_run_length(j) == run_length(nth_run_direction(j), (j - 1) / 4),
        (j - 1) / 4 >= 0,
    decreases j,
{
    if j > 1 {
        lemma_nth_run_is_run(j - 1);
        let m = (j - 2) / 4;
        lemma_square_of_successor(m);
    }
}

/// The walk goes in straight runs of lengths 1, 1, 2, 2, 3, 3, ...: every step
/// taken from a number of the `j`-th run (from `nth_run_start(j)` to just before
/// `nth_run_start(j) + nth_run_length(j)`) moves one cell in
/// `nth_run_direction(j)`, and each run turns a quarter left from the one before,
/// so no run can be longer.
pub proof fn lemma_spiral_runs(j: int, v: int, x1: int, y1: int, x2: int, y2: int)
    requires
        j >= 1,
        nth_run_start(j) <= v < nth_run_start(j) + nth_run_length(j),
        on_spiral(v, x1, y1),
        on_spiral(v + 1, x2, y2),
    ensures
        x2 - x1 == step_offset(nth_run_direction(j)).0,
        y2 - y1 == step_offset(nth_run_direction(j)).1,
        nth_run_direction(j + 1) == turned(nth_run_direction(j)),
        turned(nth_run_direction(j)) != nth_run_direction(j),
{
    lemma_nth_run_is_run(j);
    let d = nth_run_direction(j);
    let m = (j - 1) / 4;
    let s = v - nth_run_start(j);
    let p = run_point(d, m, s);
    assert(placed(d, m, s, v, p.0, p.1));
    lemma_spiral_one_cell_per_number(v, x1, y1, p.0, p.1);
    lemma_walk_step(d, m, s, v, p.0, p.1);
    let n = next_place(d, m, s);
    assert(placed(n.0, n.1, n.2, v + 1, p.0 + step_offset(d).0, p.1 + step_offset(d).1));
    lemma_spiral_one_cell_per_number(
        v + 1,
        x2,
        y2,
        p.0 + step_offset(d).0,
        p.1 + step_offset(d).1,
    );
}

/// The runs follow one another without gap: every number from 1 on is the
/// starting point of a step of some run.
pub proof fn lemma_spiral_runs_cover(v: int)
    requires
        v >= 1,
    ensures
        exists|j: int|
            j >= 1 && #[trigger] nth_run_start(j) <= v < nth_run_start(j) + nth_run_length(j),
    decreases v,
{
    if v == 1 {
        assert(nth_run_start(1) <= 1 < nth_run_start(1) + nth_run_length(1));
    } else {
        lemma_spiral_runs_cover(v - 1);
        let j = choose|j: int|
            j >= 1 && #[trigger] nth_run_start(j) <= v - 1 < nth_run_start(j) + nth_run_length(j);
        if v < nth_run_start(j) + nth_run_length(j) {
            assert(nth_run_start(j) <= v < nth_run_start(j) + nth_run_length(j));
        } else {
            assert(nth_run_start(j + 1) == nth_run_start(j) + nth_run_length(j));
            assert(nth_run_start(j + 1) <= v < nth_run_start(j + 1) + nth_run_length(j + 1));
        }
    }
}

/// A number below `2^32` sits on a ring below `2^15`.
proof fn lemma_ring_small(d: Direction, m: int, s: int, v: int, x: int, y: int)
    requires
        placed(d, m, s, v, x, y),
        v <= 0xffff_ffff,
    ensures
        m < 0x8000,
{
    if m >= 0x8000 {
        lemma_square_monotone(0x8000, m);
    }
}

/// Walks the spiral: each call of `next` gives the current number and its cell,
/// then moves one cell on.
pub struct SpiralIterator {
    current_value: u32,
    x: i32,
    y: i32,
    steps_in_current_dir: i32,
    dir: Direction,
    segment_length: i32,
    is_second_segment: bool,
}

impl SpiralIterator {
    /// The ring of the run being walked.
    spec fn ring(self) -> int {
        match self.dir {
            Direction::Right | Direction::Up => (self.segment_length - 1) / 2,
            Direction::Left | Direction::Down => (self.segment_length - 2) / 2,
        }
    }

    /// The walk is at step `steps_in_current_dir` of the run in `dir` on ring
    /// `ring()`; the second run of a ring (north or south) is flagged, and the
    /// current number sits in the cell `(x, y)` of that step.
    #[verifier::type_invariant]
    spec fn well_formed(self) -> bool {
        &&& self.is_second_segment <==> (self.dir == Direction::Up || self.dir
            == Direction::Down)
        &&& self.segment_length >= 1
        &&& run_length(self.dir, self.ring()) == self.segment_length
        &&& placed(
            self.dir,
            self.ring(),
            self.steps_in_current_dir as int,
            self.current_value as int,
            self.x as int,
            self.y as int,
        )
    }

    /// The cell of the current number.
    pub closed spec fn cell(self) -> (int, int) {
        (self.x as int, self.y as int)
    }
}

impl View for SpiralIterator {
    type V = nat;

    /// The number that the next call of `next` gives.
    closed spec fn view(&self) -> nat {
        self.current_value as nat
    }
}

impl SpiralIterator {
    /// The number that the next call of `next` gives.
    pub fn value(&self) -> (r: u32)
        ensures
            r == self@,
    {
        self.current_value
    }
}

impl Default for SpiralIterator {
    /// A walk that starts with 1 at the origin, heading east.
    fn default() -> (r: Self)
        ensures
            r@ == 1,
            r.cell() == (0int, 0int),
    {
        assert(placed(Direction::Right, 0, 0, 1, 0, 0));
        SpiralIterator {
            current_value: 1,
            x: 0,
            y: 0,
            dir: Direction::Right,
            steps_in_current_dir: 0,
            segment_length: 1,
            is_second_segment: false,
        }
    }
}

impl SpiralIterator {
    /// Gives the current number with its cell and moves one cell on.
    /// The walk never ends; the number must stay below `u32::MAX`.
    pub fn next(&mut self) -> (r: Option<(u32, i32, i32)>)
        requires
            old(self)@ < u32::MAX,
        ensures
            final(self)@ == old(self)@ + 1,
            r matches Some((v, x, y)) && v == old(self)@ && x == old(self).cell().0 && y == old(
                self,
            ).cell().1 && on_spiral(v as int, x as int, y as int),
            on_spiral(old(self)@ as int, old(self).cell().0, old(self).cell().1),
            on_spiral(final(self)@ as int, final(self).cell().0, final(self).cell().1),
            i32::MIN < final(self).cell().0 < i32::MAX,
            i32::MIN < final(self).cell().1 < i32::MAX,
    {
        proof {
            use_type_invariant(&*self);
        }
        let ghost m = self.ring();
        let ghost s = self.steps_in_current_dir as int;
        proof {
            lemma_ring_small(
                self.dir,
                m,
                s,
                self.current_value as int,
                self.x as int,
                self.y as int,
            );
            lemma_walk_step(
                self.dir,
                m,
                s,
                self.current_value as int,
                self.x as int,
                self.y as int,
            );
            assert(m * m >= 0) by (nonlinear_arith);
        }
        let res = (self.current_value, self.x, self.y);
        let mut x = self.x;
        let mut y = self.y;
        match self.dir {
            Direction::Right => x = x + 1,
            Direction::Up => y = y + 1,
            Direction::Left => x = x - 1,
            Direction::Down => y = y - 1,
        }
        let mut steps = self.steps_in_current_dir + 1;
        let mut dir = self.dir;
        let mut segment_length = self.segment_length;
        let mut is_second_segment = self.is_second_segment;
        if steps == segment_length {
            steps = 0;
            // counter-clockwise
            dir = match dir {
                Direction::Right => Direction::Up,
                Direction::Up => Direction::Left,
                Direction::Left => Direction::Down,
                Direction::Down => Direction::Right,
            };
            if is_second_segment {
                segment_length = segment_length + 1;
                is_second_segment = false;
            } else {
                is_second_segment = true;
            }
        }
        let current_value = self.current_value + 1;
        *self = SpiralIterator {
            current_value,
            x,
            y,
            steps_in_current_dir: steps,
            dir,
            segment_length,
            is_second_segment,
        };
        proof {
            assert(on_spiral(
                res.0 as int,
                res.1 as int,
                res.2 as int,
            )) by {
                assert(placed(old(self).dir, m, s, res.0 as int, res.1 as int, res.2 as int));
            }
            let n = next_place(old(self).dir, m, s);
            assert(placed(n.0, n.1, n.2, current_value as int, x as int, y as int));
        }
        Some(res)
    }

    /// Gives the next `count` numbers with their cells, in order, and moves past them
    /// (what `take(count)` followed by `collect()` gives on the walk).
    pub fn take_points(&mut self, count: u32) -> (r: Vec<(u32, i32, i32)>)
        requires
            old(self)@ + count <= u32::MAX,
        ensures
            final(self)@ == old(self)@ + count,
            r.len() == count,
            forall|i: int|
                0 <= i < count ==> (#[trigger] r@[i]).0 == old(self)@ + i && on_spiral(
                    r@[i].0 as int,
                    r@[i].1 as int,
                    r@[i].2 as int,
                ),
    {
        let mut out: Vec<(u32, i32, i32)> = Vec::new();
        let mut i: u32 = 0;
        while i < count
            invariant
                i <= count,
                old(self)@ + count <= u32::MAX,
                self@ == old(self)@ + i,
                out.len() == i,
                forall|j: int|
                    0 <= j < i ==> (#[trigger] out@[j]).0 == old(self)@ + j && on_spiral(
                        out@[j].0 as int,
                        out@[j].1 as int,
                        out@[j].2 as int,
                    ),
            decreases count - i,
        {
            let p = self.next();
            match p {
                Some(t) => out.push(t),
                None => {},
            }
            i = i + 1;
        }
        out
    }
}

} // verus!
