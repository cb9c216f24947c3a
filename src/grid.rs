//! The board: static passability plus the movement and attack overlays.

use vstd::prelude::*;

verus! {

/// Largest width or height of a board, so that every coordinate and every
/// neighbour of a coordinate fits an `i16`.
pub const MAX_SIDE: usize = 16384;

#[derive(Copy, Clone, Debug, PartialEq, Eq, Structural)]
pub enum Cell {
    Empty,
    Floor,
}

pub struct Grid {
    pub grid: Vec<Cell>,
    pub width: usize,
    /// Movement overlay: for each cell, how much budget is left on arrival, plus one.
    pub highlight: Vec<u16>,
    /// Attack overlay: for each cell that the active attack may aim at, its range left, plus one.
    pub attack_hi: Vec<u16>,
    pub attack_loc: Option<(i16, i16)>,
    /// `None` when the player has no moves left or when no unit is selected.
    pub player_pos: Option<(i16, i16)>,
}

/// What a board holds, as plain values.
pub struct GridView {
    pub cells: Seq<Cell>,
    pub width: usize,
    pub highlight: Seq<u16>,
    pub attack_hi: Seq<u16>,
    pub attack_loc: Option<(i16, i16)>,
    pub player_pos: Option<(i16, i16)>,
}

impl View for Grid {
    type V = GridView;

    open spec fn view(&self) -> GridView {
        GridView {
            cells: self.grid@,
            width: self.width,
            highlight: self.highlight@,
            attack_hi: self.attack_hi@,
            attack_loc: self.attack_loc,
            player_pos: self.player_pos,
        }
    }
}

/// Position of cell `(x, y)` in the row-major cell array of a board `w` wide.
pub open spec fn cell_index(w: int, x: int, y: int) -> int {
    x + y * w
}

pub open spec fn abs_diff(a: int, b: int) -> int {
    if a >= b { a - b } else { b - a }
}

pub open spec fn manhattan(a: (int, int), b: (int, int)) -> int {
    abs_diff(a.0, b.0) + abs_diff(a.1, b.1)
}

/// Cell `c` lies on a `w` by `h` board and `open` lets a walk pass through it.
pub open spec fn is_open(open: Seq<bool>, w: int, h: int, c: (int, int)) -> bool {
    0 <= c.0 < w && 0 <= c.1 < h && open[cell_index(w, c.0, c.1)]
}

/// Cell `c` is the end of a walk from `o` of at most `k` cardinal steps whose
/// cells, `o` and `c` included, are all open.
pub open spec fn within(open: Seq<bool>, w: int, h: int, o: (int, int), c: (int, int), k: nat) -> bool
    decreases k,
{
    is_open(open, w, h, c) && if k == 0 {
        c == o
    } else {
        within(open, w, h, o, c, (k - 1) as nat)
        || within(open, w, h, o, (c.0 - 1, c.1), (k - 1) as nat)
        || within(open, w, h, o, (c.0 + 1, c.1), (k - 1) as nat)
        || within(open, w, h, o, (c.0, c.1 - 1), (k - 1) as nat)
        || within(open, w, h, o, (c.0, c.1 + 1), (k - 1) as nat)
    }
}

/// The movement overlay value of `c` for budget `k`: the number of budgets
/// `j <= k` for which `c` is within `j` steps, that is `k + 1 - d` for a cell at
/// walking distance `d <= k`, and 0 for a cell farther off.
pub open spec fn reach_value(open: Seq<bool>, w: int, h: int, o: (int, int), c: (int, int), k: nat) -> nat
    decreases k,
{
    (if within(open, w, h, o, c, k) { 1nat } else { 0nat }) + if k == 0 {
        0nat
    } else {
        reach_value(open, w, h, o, c, (k - 1) as nat)
    }
}

pub proof fn lemma_index_bounds(w: int, h: int, x: int, y: int)
    requires
        0 <= x < w,
        0 <= y < h,
    ensures
        0 <= cell_index(w, x, y) < w * h,
{
    assert(0 <= y * w) by (nonlinear_arith)
        requires 0 <= y, 0 <= w;
    assert(y * w + w <= h * w) by (nonlinear_arith)
        requires y < h, 0 <= w;
    assert(h * w == w * h) by (nonlinear_arith);
}

pub proof fn lemma_index_order(w: int, x1: int, y1: int, x2: int, y2: int)
    requires
        0 <= x1 < w,
        0 <= x2 < w,
        y1 < y2 || (y1 == y2 && x1 < x2),
    ensures
        cell_index(w, x1, y1) < cell_index(w, x2, y2),
{
    if y1 < y2 {
        assert(y1 * w + w <= y2 * w) by (nonlinear_arith)
            requires y1 < y2, 0 <= w;
    }
}

pub proof fn lemma_index_rows(w: int, x: int, y: int)
    ensures
        cell_index(w, x, y + 1) == cell_index(w, x, y) + w,
        cell_index(w, x, y - 1) == cell_index(w, x, y) - w,
{
    assert((y + 1) * w == y * w + w) by (nonlinear_arith);
    assert((y - 1) * w == y * w - w) by (nonlinear_arith);
}

/// A walk of at most `j` steps is also one of at most `k >= j` steps.
pub proof fn lemma_within_monotone(open: Seq<bool>, w: int, h: int, o: (int, int), c: (int, int), j: nat, k: nat)
    requires
        j <= k,
        within(open, w, h, o, c, j),
    ensures
        within(open, w, h, o, c, k),
    decreases k - j,
{
    if j < k {
        lemma_within_monotone(open, w, h, o, c, j, (k - 1) as nat);
    }
}

/// The overlay value pins down for which budgets a cell is reachable.
pub proof fn lemma_reach_value_exact(open: Seq<bool>, w: int, h: int, o: (int, int), c: (int, int), k: nat)
    ensures
        reach_value(open, w, h, o, c, k) <= k + 1,
        forall|j: nat| j <= k ==> (#[trigger] within(open, w, h, o, c, j)
            <==> j + reach_value(open, w, h, o, c, k) >= k + 1),
    decreases k,
{
    if k > 0 {
        let k1 = (k - 1) as nat;
        lemma_reach_value_exact(open, w, h, o, c, k1);
        let v1 = reach_value(open, w, h, o, c, k1);
        if !within(open, w, h, o, c, k) {
            assert forall|j: nat| j <= k implies !#[trigger] within(open, w, h, o, c, j) by {
                if within(open, w, h, o, c, j) {
                    lemma_within_monotone(open, w, h, o, c, j, k);
                }
            }
            if v1 > 0 {
                assert(within(open, w, h, o, c, k1));
            }
        }
    }
}

/// Flood-fill correctness: a cell with movement value `v > 0` for budget `b`
/// has a shortest open walk from the origin of exactly `b - v + 1` steps (one
/// of that many steps exists, none shorter does), and a cell with value 0 has
/// no open walk of at most `b` steps.
pub proof fn lemma_overlay_is_distance(open: Seq<bool>, w: int, h: int, o: (int, int), c: (int, int), b: nat)
    ensures
        ({
            let v = reach_value(open, w, h, o, c, b);
            &&& v <= b + 1
            &&& v > 0 ==> within(open, w, h, o, c, (b + 1 - v) as nat)
            &&& v > 0 && b + 1 - v > 0 ==> !within(open, w, h, o, c, (b - v) as nat)
            &&& v == 0 ==> !within(open, w, h, o, c, b)
        }),
{
    lemma_reach_value_exact(open, w, h, o, c, b);
    let v = reach_value(open, w, h, o, c, b);
    if v > 0 {
        assert(within(open, w, h, o, c, (b + 1 - v) as nat));
        if b + 1 - v > 0 {
            assert(!within(open, w, h, o, c, (b - v) as nat));
        }
    } else {
        assert(!within(open, w, h, o, c, b));
    }
}

/// Two in-bounds cells with the same index are the same cell.
pub proof fn lemma_index_injective(w: int, x1: int, y1: int, x2: int, y2: int)
    requires
        0 <= x1 < w,
        0 <= x2 < w,
        cell_index(w, x1, y1) == cell_index(w, x2, y2),
    ensures
        x1 == x2 && y1 == y2,
{
    if y1 < y2 || (y1 == y2 && x1 < x2) {
        lemma_index_order(w, x1, y1, x2, y2);
    } else if y2 < y1 || (y1 == y2 && x2 < x1) {
        lemma_index_order(w, x2, y2, x1, y1);
    }
}

/// Past the last row, an index is past the end of the board.
pub proof fn lemma_index_past(w: int, h: int, x: int, y: int)
    requires
        0 <= x,
        0 <= w,
        h <= y,
    ensures
        w * h <= cell_index(w, x, y),
{
    assert(h * w <= y * w) by (nonlinear_arith)
        requires h <= y, 0 <= w;
    assert(h * w == w * h) by (nonlinear_arith);
}

/// `reach` and `val` hold, for every in-bounds cell before index `upto`,
/// whether it is within `k` steps and its overlay value for budget `k`.
pub open spec fn layer_ok(
    open: Seq<bool>,
    w: int,
    h: int,
    o: (int, int),
    reach: Seq<bool>,
    val: Seq<u16>,
    k: nat,
    upto: int,
) -> bool {
    forall|x: int, y: int|
        0 <= x < w && 0 <= y < h && cell_index(w, x, y) < upto ==> {
            &&& reach[cell_index(w, x, y)] == #[trigger] within(open, w, h, o, (x, y), k)
            &&& val[cell_index(w, x, y)] == reach_value(open, w, h, o, (x, y), k)
        }
}

/// The overlay for budget 0: the origin alone, if it is open.
fn first_layer(w: usize, h: usize, open: &Vec<bool>, ox: i16, oy: i16) -> (r: (Vec<bool>, Vec<u16>))
    requires
        w <= MAX_SIDE,
        h <= MAX_SIDE,
        open@.len() == w * h,
    ensures
        r.0@.len() == w * h,
        r.1@.len() == w * h,
        layer_ok(open@, w as int, h as int, (ox as int, oy as int), r.0@, r.1@, 0, w * h),
{
    let n = open.len();
    let ghost o = (ox as int, oy as int);
    let mut reach: Vec<bool> = Vec::new();
    let mut val: Vec<u16> = Vec::new();
    let mut i: usize = 0;
    let mut x: usize = 0;
    let mut y: usize = 0;
    while i < n
        invariant
            n == w * h,
            w <= MAX_SIDE,
            h <= MAX_SIDE,
            open@.len() == n,
            o == (ox as int, oy as int),
            i <= n,
            i == cell_index(w as int, x as int, y as int),
            x < w || i == n,
            reach@.len() == i,
            val@.len() == i,
            layer_ok(open@, w as int, h as int, o, reach@, val@, 0, i as int),
        decreases n - i,
    {
        proof {
            if y >= h {
                lemma_index_past(w as int, h as int, x as int, y as int);
            }
        }
        let here = x as i16 == ox && y as i16 == oy && open[i];
        reach.push(here);
        val.push(if here { 1 } else { 0 });
        proof {
            assert(y < h);
            assert(x < w);
            assert((x as i16) as int == x as int);
            assert((y as i16) as int == y as int);
            assert(open@[i as int] == is_open(open@, w as int, h as int, (x as int, y as int)));
            assert(within(open@, w as int, h as int, o, (x as int, y as int), 0)
                == (is_open(open@, w as int, h as int, (x as int, y as int)) && x == ox && y == oy));
            assert(here == within(open@, w as int, h as int, o, (x as int, y as int), 0));
            assert forall|x2: int, y2: int|
                0 <= x2 < w && 0 <= y2 < h && cell_index(w as int, x2, y2) < i + 1 implies {
                    &&& reach@[cell_index(w as int, x2, y2)] == #[trigger] within(open@, w as int, h as int, o, (x2, y2), 0)
                    &&& val@[cell_index(w as int, x2, y2)] == reach_value(open@, w as int, h as int, o, (x2, y2), 0)
                } by {
                if cell_index(w as int, x2, y2) == i {
                    lemma_index_injective(w as int, x2, y2, x as int, y as int);
                }
            }
        }
        i += 1;
        if x + 1 < w {
            x += 1;
        } else {
            proof { lemma_index_rows(w as int, 0, y as int); }
            x = 0;
            y += 1;
        }
    }
    (reach, val)
}

/// From the overlay for budget `k`, the overlay for budget `k + 1`.
fn next_layer(
    w: usize,
    h: usize,
    open: &Vec<bool>,
    Ghost(o): Ghost<(int, int)>,
    reach: &Vec<bool>,
    val: &Vec<u16>,
    Ghost(k): Ghost<nat>,
) -> (r: (Vec<bool>, Vec<u16>))
    requires
        w <= MAX_SIDE,
        h <= MAX_SIDE,
        open@.len() == w * h,
        reach@.len() == w * h,
        val@.len() == w * h,
        k + 2 <= u16::MAX,
        layer_ok(open@, w as int, h as int, o, reach@, val@, k, w * h),
    ensures
        r.0@.len() == w * h,
        r.1@.len() == w * h,
        layer_ok(open@, w as int, h as int, o, r.0@, r.1@, k + 1, w * h),
{
    let n = open.len();
    let ghost gw = w as int;
    let ghost gh = h as int;
    let mut reach2: Vec<bool> = Vec::new();
    let mut val2: Vec<u16> = Vec::new();
    let mut i: usize = 0;
    let mut x: usize = 0;
    let mut y: usize = 0;
    while i < n
        invariant
            n == w * h,
            w <= MAX_SIDE,
            h <= MAX_SIDE,
            open@.len() == n,
            reach@.len() == n,
            val@.len() == n,
            k + 2 <= u16::MAX,
            gw == w as int,
            gh == h as int,
            layer_ok(open@, gw, gh, o, reach@, val@, k, n as int),
            i <= n,
            i == cell_index(gw, x as int, y as int),
            x < w || i == n,
            reach2@.len() == i,
            val2@.len() == i,
            layer_ok(open@, gw, gh, o, reach2@, val2@, k + 1, i as int),
        decreases n - i,
    {
        proof {
            if y >= h {
                lemma_index_past(gw, gh, x as int, y as int);
            }
            lemma_index_rows(gw, x as int, y as int);
            lemma_reach_value_exact(open@, gw, gh, o, (x as int, y as int), k);
            assert(within(open@, gw, gh, o, (x as int, y as int), k) == reach@[i as int]);
            assert(within(open@, gw, gh, o, (x as int - 1, y as int), k) == (x > 0 && reach@[i - 1]));
            if x + 1 < w {
                lemma_index_bounds(gw, gh, x as int + 1, y as int);
                assert(within(open@, gw, gh, o, (x as int + 1, y as int), k) == reach@[i + 1]);
            } else {
                assert(!within(open@, gw, gh, o, (x as int + 1, y as int), k));
            }
            if y > 0 {
                assert(within(open@, gw, gh, o, (x as int, y as int - 1), k) == reach@[i - w]);
            } else {
                assert(!within(open@, gw, gh, o, (x as int, y as int - 1), k));
            }
            if y + 1 < h {
                lemma_index_bounds(gw, gh, x as int, y as int + 1);
                assert(within(open@, gw, gh, o, (x as int, y as int + 1), k) == reach@[i + w]);
            } else {
                assert(!within(open@, gw, gh, o, (x as int, y as int + 1), k));
            }
        }
        let near = reach[i]
            || (x > 0 && reach[i - 1])
            || (x + 1 < w && reach[i + 1])
            || (y > 0 && reach[i - w])
            || (y + 1 < h && reach[i + w]);
        let here = open[i] && near;
        reach2.push(here);
        val2.push(if here { val[i] + 1 } else { val[i] });
        proof {
            assert(here == within(open@, gw, gh, o, (x as int, y as int), k + 1));
            assert forall|x2: int, y2: int|
                0 <= x2 < gw && 0 <= y2 < gh && cell_index(gw, x2, y2) < i + 1 implies {
                    &&& reach2@[cell_index(gw, x2, y2)] == #[trigger] within(open@, gw, gh, o, (x2, y2), k + 1)
                    &&& val2@[cell_index(gw, x2, y2)] == reach_value(open@, gw, gh, o, (x2, y2), k + 1)
                } by {
                if cell_index(gw, x2, y2) == i {
                    lemma_index_injective(gw, x2, y2, x as int, y as int);
                }
            }
        }
        i += 1;
        if x + 1 < w {
            x += 1;
        } else {
            proof { lemma_index_rows(gw, 0, y as int); }
            x = 0;
            y += 1;
        }
    }
    (reach2, val2)
}

/// A copy of a vector of plain values.
pub fn copy_vec<T: Copy>(v: &Vec<T>) -> (r: Vec<T>)
    ensures
        r@ == v@,
{
    let mut r: Vec<T> = Vec::new();
    let mut i: usize = 0;
    while i < v.len()
        invariant
            i <= v@.len(),
            r@ == v@.subrange(0, i as int),
        decreases v@.len() - i,
    {
        r.push(v[i]);
        i += 1;
        assert(r@ =~= v@.subrange(0, i as int));
    }
    assert(r@ =~= v@);
    r
}

impl Grid {
    /// Number of rows.
    pub open spec fn rows(&self) -> int {
        if self.width == 0 {
            0
        } else {
            (self.grid@.len() as int) / (self.width as int)
        }
    }

    pub open spec fn wf(&self) -> bool {
        &&& self.width <= MAX_SIDE
        &&& 0 <= self.rows() <= MAX_SIDE
        &&& self.grid@.len() == self.width * self.rows()
        &&& self.highlight@.len() == self.grid@.len()
        &&& self.attack_hi@.len() == self.grid@.len()
    }

    pub open spec fn in_bounds(&self, x: int, y: int) -> bool {
        0 <= x < self.width && 0 <= y < self.rows()
    }

    pub open spec fn cell(&self, x: int, y: int) -> Cell {
        self.grid@[cell_index(self.width as int, x, y)]
    }

    pub open spec fn passable(&self, x: int, y: int) -> bool {
        self.in_bounds(x, y) && self.cell(x, y) != Cell::Empty
    }

    /// Overlay value of cell `(x, y)`, read from `v`.
    pub open spec fn value_at(&self, v: Seq<u16>, x: int, y: int) -> u16 {
        v[cell_index(self.width as int, x, y)]
    }

    /// Whether an attack may aim at `(x, y)`: a unit-targeting attack
    /// (`ground == None`) aims at passable cells; a ground-targeting one with
    /// flags `(full, empty)` at in-bounds cells, floor only if `full`, empty
    /// ones only if `empty`.
    pub open spec fn accepts(&self, ground: Option<(bool, bool)>, x: int, y: int) -> bool {
        match ground {
            None => self.passable(x, y),
            Some((full, empty)) => self.in_bounds(x, y)
                && (full || self.cell(x, y) != Cell::Floor)
                && (empty || self.cell(x, y) != Cell::Empty),
        }
    }

    /// Attack overlay value of `c` for an attack from `o` with the given range.
    pub open spec fn attack_value(&self, ground: Option<(bool, bool)>, o: (int, int), c: (int, int), range: int) -> int {
        if manhattan(o, c) <= range && self.accepts(ground, c.0, c.1) {
            range + 1 - manhattan(o, c)
        } else {
            0
        }
    }

    /// Every value of overlay `v` is zero.
    pub open spec fn zeroed(v: Seq<u16>) -> bool {
        forall|i: int| 0 <= i < v.len() ==> v[i] == 0
    }
}

impl Grid {
    /// A board with no cells.
    pub fn dummy() -> (r: Grid)
        ensures
            r.wf(),
            r.grid@.len() == 0,
            r.width == 0,
            r.attack_loc.is_none(),
            r.player_pos.is_none(),
    {
        Grid {
            grid: Vec::new(),
            width: 0,
            highlight: Vec::new(),
            attack_hi: Vec::new(),
            attack_loc: None,
            player_pos: None,
        }
    }

    /// The 9 by 6 practice board: all floor but two empty cells at each end
    /// of the first and the last row.
    pub fn sample() -> (r: Grid)
        ensures
            r.wf(),
            r.width == 9,
            r.rows() == 6,
            forall|x: int, y: int| r.in_bounds(x, y) ==> #[trigger] r.cell(x, y) == sample_cell(x, y),
            Grid::zeroed(r.highlight@),
            Grid::zeroed(r.attack_hi@),
            r.attack_loc.is_none(),
            r.player_pos.is_none(),
    {
        let mut cells: Vec<Cell> = Vec::new();
        let mut i: usize = 0;
        let mut x: usize = 0;
        let mut y: usize = 0;
        while i < 54
            invariant
                i <= 54,
                i == cell_index(9, x as int, y as int),
                x < 9,
                cells@.len() == i,
                forall|x2: int, y2: int|
                    0 <= x2 < 9 && 0 <= y2 < 6 && cell_index(9, x2, y2) < i
                        ==> cells@[cell_index(9, x2, y2)] == #[trigger] sample_cell(x2, y2),
            decreases 54 - i,
        {
            let empty = (y == 0 || y == 5) && (x < 2 || x > 6);
            cells.push(if empty { Cell::Empty } else { Cell::Floor });
            proof {
                assert forall|x2: int, y2: int|
                    0 <= x2 < 9 && 0 <= y2 < 6 && cell_index(9, x2, y2) < i + 1
                        implies cells@[cell_index(9, x2, y2)] == #[trigger] sample_cell(x2, y2) by {
                    if cell_index(9, x2, y2) == i {
                        lemma_index_injective(9, x2, y2, x as int, y as int);
                    }
                }
            }
            i += 1;
            if x + 1 < 9 {
                x += 1;
            } else {
                x = 0;
                y += 1;
            }
        }
        let r = Grid {
            grid: cells,
            width: 9,
            highlight: zeros(54),
            attack_hi: zeros(54),
            attack_loc: None,
            player_pos: None,
        };
        assert(r.rows() == 6);
        r
    }

    /// Number of rows; 0 for a board of width 0.
    pub fn height(&self) -> (r: usize)
        requires
            self.wf(),
        ensures
            r == self.rows(),
    {
        if self.width == 0 {
            0
        } else {
            self.grid.len() / self.width
        }
    }

    /// In bounds and not an empty cell.
    pub fn is_valid(&self, x: i16, y: i16) -> (r: bool)
        requires
            self.wf(),
        ensures
            r == self.passable(x as int, y as int),
    {
        if !self.is_in_bounds(x, y) {
            return false;
        }
        let xu = x as usize;
        let yu = y as usize;
        let n = self.grid.len();
        proof {
            assert(xu as int == x as int && yu as int == y as int);
            lemma_index_bounds(self.width as int, self.rows(), xu as int, yu as int);
        }
        self.grid[xu + yu * self.width] != Cell::Empty
    }

    /// In bounds, whatever the cell holds.
    pub fn is_in_bounds(&self, x: i16, y: i16) -> (r: bool)
        requires
            self.wf(),
        ensures
            r == self.in_bounds(x as int, y as int),
    {
        x >= 0 && y >= 0 && (x as usize) < self.width && (y as usize) < self.height()
    }

    /// A copy of the board, overlays and markers included.
    pub fn duplicate(&self) -> (r: Grid)
        ensures
            r@ == self@,
    {
        Grid {
            grid: copy_vec(&self.grid),
            width: self.width,
            highlight: copy_vec(&self.highlight),
            attack_hi: copy_vec(&self.attack_hi),
            attack_loc: self.attack_loc,
            player_pos: self.player_pos,
        }
    }

    /// Zeroes both overlays and drops the reachable-from marker.
    pub fn clear_overlays(&mut self)
        requires
            old(self).wf(),
        ensures
            final(self).wf(),
            final(self).grid@ == old(self).grid@,
            final(self).width == old(self).width,
            final(self).attack_loc == old(self).attack_loc,
            final(self).player_pos.is_none(),
            Grid::zeroed(final(self).highlight@),
            Grid::zeroed(final(self).attack_hi@),
    {
        let n = self.grid.len();
        self.highlight = zeros(n);
        self.attack_hi = zeros(n);
        self.player_pos = None;
    }

    /// The in-bounds cell `(x, y)`.
    pub fn cell_at(&self, x: i16, y: i16) -> (r: Cell)
        requires
            self.wf(),
            self.in_bounds(x as int, y as int),
        ensures
            r == self.cell(x as int, y as int),
    {
        let xu = x as usize;
        let yu = y as usize;
        let n = self.grid.len();
        proof {
            lemma_index_bounds(self.width as int, self.rows(), xu as int, yu as int);
        }
        self.grid[xu + yu * self.width]
    }

    /// The movement overlay value of the in-bounds cell `(x, y)`.
    pub fn value_at_cell(&self, x: i16, y: i16) -> (r: u16)
        requires
            self.wf(),
            self.in_bounds(x as int, y as int),
        ensures
            r == self.value_at(self.highlight@, x as int, y as int),
    {
        let xu = x as usize;
        let yu = y as usize;
        let n = self.grid.len();
        proof {
            lemma_index_bounds(self.width as int, self.rows(), xu as int, yu as int);
        }
        self.highlight[xu + yu * self.width]
    }

    /// Makes the in-bounds cell `(x, y)` floor.
    pub fn set_floor(&mut self, x: i16, y: i16)
        requires
            old(self).wf(),
            old(self).in_bounds(x as int, y as int),
        ensures
            final(self).wf(),
            final(self).grid@ == old(self).grid@.update(
                cell_index(old(self).width as int, x as int, y as int),
                Cell::Floor,
            ),
            final(self).width == old(self).width,
            final(self).highlight == old(self).highlight,
            final(self).attack_hi == old(self).attack_hi,
            final(self).attack_loc == old(self).attack_loc,
            final(self).player_pos == old(self).player_pos,
    {
        let xu = x as usize;
        let yu = y as usize;
        let n = self.grid.len();
        proof {
            assert(xu as int == x as int && yu as int == y as int);
            lemma_index_bounds(self.width as int, self.rows(), xu as int, yu as int);
        }
        let i = xu + yu * self.width;
        self.grid.set(i, Cell::Floor);
    }

    /// Recomputes the movement overlay: each cell gets the number of budgets
    /// `j <= budget` for which an open walk of at most `j` steps leads to it
    /// from `(ox, oy)`, where `open` says which cells a walk may use.
    pub fn compute_movement(&mut self, open: &Vec<bool>, ox: i16, oy: i16, budget: u16)
        requires
            old(self).wf(),
            open@.len() == old(self).grid@.len(),
            budget < u16::MAX,
        ensures
            final(self).wf(),
            final(self).grid@ == old(self).grid@,
            final(self).width == old(self).width,
            final(self).attack_hi == old(self).attack_hi,
            final(self).attack_loc == old(self).attack_loc,
            final(self).player_pos == old(self).player_pos,
            forall|x: int, y: int| #![trigger final(self).value_at(final(self).highlight@, x, y)]
                final(self).in_bounds(x, y) ==> final(self).value_at(final(self).highlight@, x, y)
                    == reach_value(open@, old(self).width as int, old(self).rows(), (ox as int, oy as int), (x, y), budget as nat),
    {
        let w = self.width;
        let h = self.height();
        let ghost o = (ox as int, oy as int);
        let ghost n = self.grid@.len() as int;
        assert(n == w * h) by (nonlinear_arith)
            requires n == w * h;
        let (mut reach, mut val) = first_layer(w, h, open, ox, oy);
        let mut k: u16 = 0;
        while k < budget
            invariant
                w <= MAX_SIDE,
                h <= MAX_SIDE,
                open@.len() == w * h,
                k <= budget,
                budget < u16::MAX,
                reach@.len() == w * h,
                val@.len() == w * h,
                o == (ox as int, oy as int),
                layer_ok(open@, w as int, h as int, o, reach@, val@, k as nat, w * h),
            decreases budget - k,
        {
            let (r2, v2) = next_layer(w, h, open, Ghost(o), &reach, &val, Ghost(k as nat));
            reach = r2;
            val = v2;
            k += 1;
        }
        self.highlight = val;
        proof {
            assert forall|x: int, y: int| #![trigger self.value_at(self.highlight@, x, y)]
                self.in_bounds(x, y) implies self.value_at(self.highlight@, x, y)
                    == reach_value(open@, w as int, h as int, o, (x, y), budget as nat) by {
                lemma_index_bounds(w as int, h as int, x, y);
                assert(within(open@, w as int, h as int, o, (x, y), budget as nat) == reach@[cell_index(w as int, x, y)]);
            }
        }
    }

    /// Recomputes the attack overlay for an attack of the given range from
    /// `(ox, oy)`: each cell that the attack accepts at Manhattan distance
    /// `d <= range` gets `range + 1 - d`, every other cell 0.
    pub fn compute_attack(&mut self, ox: i16, oy: i16, range: u16, ground: Option<(bool, bool)>)
        requires
            old(self).wf(),
            range < u16::MAX,
        ensures
            final(self).wf(),
            final(self).grid@ == old(self).grid@,
            final(self).width == old(self).width,
            final(self).highlight == old(self).highlight,
            final(self).attack_loc == old(self).attack_loc,
            final(self).player_pos == old(self).player_pos,
            forall|x: int, y: int| #![trigger final(self).value_at(final(self).attack_hi@, x, y)]
                final(self).in_bounds(x, y) ==> final(self).value_at(final(self).attack_hi@, x, y)
                    == old(self).attack_value(ground, (ox as int, oy as int), (x, y), range as int),
    {
        let w = self.width;
        let h = self.height();
        let n = self.grid.len();
        assert(n == w * h) by (nonlinear_arith)
            requires n == w * h;
        let ghost o = (ox as int, oy as int);
        let mut val: Vec<u16> = Vec::new();
        let mut i: usize = 0;
        let mut x: usize = 0;
        let mut y: usize = 0;
        while i < n
            invariant
                n == w * h,
                w == self.width,
                h == self.rows(),
                self.wf(),
                n == self.grid@.len(),
                o == (ox as int, oy as int),
                range < u16::MAX,
                i <= n,
                i == cell_index(w as int, x as int, y as int),
                x < w || i == n,
                val@.len() == i,
                forall|x2: int, y2: int|
                    0 <= x2 < w && 0 <= y2 < h && cell_index(w as int, x2, y2) < i
                        ==> val@[cell_index(w as int, x2, y2)] == #[trigger] self.attack_value(ground, o, (x2, y2), range as int),
            decreases n - i,
        {
            proof {
                if y >= h {
                    lemma_index_past(w as int, h as int, x as int, y as int);
                }
            }
            let dx: i32 = if (x as i32) >= (ox as i32) { x as i32 - ox as i32 } else { ox as i32 - x as i32 };
            let dy: i32 = if (y as i32) >= (oy as i32) { y as i32 - oy as i32 } else { oy as i32 - y as i32 };
            let d: i32 = dx + dy;
            let cell = self.grid[i];
            let accepted = match ground {
                None => cell != Cell::Empty,
                Some((full, empty)) => (full || cell != Cell::Floor) && (empty || cell != Cell::Empty),
            };
            let v: u16 = if d <= range as i32 && accepted { (range as i32 + 1 - d) as u16 } else { 0 };
            val.push(v);
            proof {
                assert(v == self.attack_value(ground, o, (x as int, y as int), range as int));
                assert forall|x2: int, y2: int|
                    0 <= x2 < w && 0 <= y2 < h && cell_index(w as int, x2, y2) < i + 1
                        implies val@[cell_index(w as int, x2, y2)] == #[trigger] self.attack_value(ground, o, (x2, y2), range as int) by {
                    if cell_index(w as int, x2, y2) == i {
                        lemma_index_injective(w as int, x2, y2, x as int, y as int);
                    }
                }
            }
            i += 1;
            if x + 1 < w {
                x += 1;
            } else {
                proof { lemma_index_rows(w as int, 0, y as int); }
                x = 0;
                y += 1;
            }
        }
        let ghost before = *self;
        self.attack_hi = val;
        proof {
            assert forall|x2: int, y2: int| #![trigger self.value_at(self.attack_hi@, x2, y2)]
                self.in_bounds(x2, y2) implies self.value_at(self.attack_hi@, x2, y2)
                    == before.attack_value(ground, o, (x2, y2), range as int) by {
                lemma_index_bounds(w as int, h as int, x2, y2);
            }
        }
    }
}

/// A cell of the practice board.
pub open spec fn sample_cell(x: int, y: int) -> Cell {
    if (y == 0 || y == 5) && (x < 2 || x > 6) {
        Cell::Empty
    } else {
        Cell::Floor
    }
}

/// `n` zeros.
pub fn zeros(n: usize) -> (r: Vec<u16>)
    ensures
        r@.len() == n,
        Grid::zeroed(r@),
{
    let mut r: Vec<u16> = Vec::new();
    let mut i: usize = 0;
    while i < n
        invariant
            i <= n,
            r@.len() == i,
            Grid::zeroed(r@),
        decreases n - i,
    {
        r.push(0);
        i += 1;
    }
    r
}

} // verus!
