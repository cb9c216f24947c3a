//! Level text: one line per row; `' '` is an empty cell, `'#'` floor, and
//! any other character floor with a unit on it, the character naming the unit.

use vstd::prelude::*;
use vstd::string::StringSliceAdditionalSpecFns;

use crate::grid::{cell_index, lemma_index_injective, Cell, Grid, MAX_SIDE, zeros};
use crate::unit::{Attack, Unit};

verus! {

/// Why a level cannot be loaded.
#[derive(Copy, Clone, Debug, PartialEq, Eq, Structural)]
pub enum LoadError {
    /// The text has no line.
    Empty,
    /// A row is wider or narrower than the first.
    WidthMismatch,
    /// A character names no unit.
    UnknownUnit(char),
    /// The level is wider or taller than a board can be.
    TooLarge,
}

pub open spec fn strip_cr(line: Seq<u8>) -> Seq<u8> {
    if line.len() > 0 && line.last() == 13 {
        line.drop_last()
    } else {
        line
    }
}

/// The lines of `b` from position `start` on, `cur` being what the current
/// line holds so far: lines end at `\n`, a `\r` before it is dropped, and a
/// last line without `\n` counts unless it is empty.
pub open spec fn lines_from(b: Seq<u8>, start: int, cur: Seq<u8>) -> Seq<Seq<u8>>
    decreases b.len() - start,
{
    if start >= b.len() {
        if cur.len() == 0 {
            Seq::empty()
        } else {
            seq![cur]
        }
    } else if b[start] == 10 {
        seq![strip_cr(cur)] + lines_from(b, start + 1, Seq::empty())
    } else {
        lines_from(b, start + 1, cur.push(b[start]))
    }
}

pub open spec fn level_lines(b: Seq<u8>) -> Seq<Seq<u8>> {
    lines_from(b, 0, Seq::empty())
}

/// A character that a level may hold.
pub open spec fn known(c: u8) -> bool {
    c == 32 || c == 35 || spawns(c)
}

/// A character that puts a unit on the board: `A`, `B`, `1`, `2`.
pub open spec fn spawns(c: u8) -> bool {
    c == 65 || c == 66 || c == 49 || c == 50
}

pub open spec fn level_cell(c: u8) -> Cell {
    if c == 32 {
        Cell::Empty
    } else {
        Cell::Floor
    }
}

/// The lines make a board: at least one, all as wide as the first, which is
/// not empty, a board's size at most, and every character known.
pub open spec fn level_ok(lines: Seq<Seq<u8>>) -> bool {
    &&& lines.len() > 0
    &&& lines.len() <= MAX_SIDE
    &&& 0 < lines[0].len() <= MAX_SIDE
    &&& forall|y: int| 0 <= y < lines.len() ==> (#[trigger] lines[y]).len() == lines[0].len()
    &&& forall|y: int, x: int| 0 <= y < lines.len() && 0 <= x < lines[y].len() ==> known(#[trigger] lines[y][x])
}

/// The views of a vector of lines.
pub open spec fn views(rows: Seq<Vec<u8>>) -> Seq<Seq<u8>> {
    rows.map_values(|r: Vec<u8>| r@)
}

/// Splits bytes into lines, as `level_lines` says.
fn split_lines(b: &[u8]) -> (r: Vec<Vec<u8>>)
    ensures
        views(r@) == level_lines(b@),
{
    let mut rows: Vec<Vec<u8>> = Vec::new();
    let mut cur: Vec<u8> = Vec::new();
    let mut i: usize = 0;
    while i < b.len()
        invariant
            i <= b@.len(),
            level_lines(b@) == views(rows@) + lines_from(b@, i as int, cur@),
        decreases b@.len() - i,
    {
        let ghost c = cur@;
        if b[i] == 10 {
            let ghost before = rows@;
            let mut line = cur;
            let n = line.len();
            if n > 0 && line[n - 1] == 13 {
                line.pop();
            }
            proof {
                assert(line@ =~= strip_cr(c));
            }
            rows.push(line);
            cur = Vec::new();
            proof {
                assert(views(rows@) =~= views(before).push(strip_cr(c)));
                assert(views(before) + lines_from(b@, i as int, c)
                    =~= views(rows@) + lines_from(b@, i + 1, cur@));
            }
        } else {
            cur.push(b[i]);
        }
        i += 1;
    }
    if cur.len() > 0 {
        let ghost before = rows@;
        let ghost c = cur@;
        rows.push(cur);
        proof {
            assert(views(rows@) =~= views(before).push(c));
        }
    }
    assert(views(rows@) =~= level_lines(b@));
    rows
}

/// The team of the unit that a spawning character puts down.
pub open spec fn team_of(c: u8) -> u16 {
    if c == 65 || c == 66 {
        1
    } else {
        0
    }
}

/// The cell a one-cell unit stands on.
pub open spec fn pos(u: Unit) -> (i16, i16) {
    u.parts@[0]
}

/// `u` is the unit that spawning character `c` puts down on its cell, as
/// `Unit::from_char` makes it.
pub open spec fn spawned_as(u: Unit, c: u8) -> bool {
    &&& c == 65 ==> u.fresh(pos(u), 5, 1, 1, 3) && u.attacks@ == seq![Attack::thump_spec()]
    &&& c == 66 ==> u.fresh(pos(u), 5, 1, 1, 2) && u.attacks@ == seq![Attack::thump_spec()]
    &&& c == 49 ==> u.fresh(pos(u), 4, 3, 0, 1) && u.attacks@ == seq![Attack::slice_spec(), Attack::dice_spec()]
    &&& c == 50 ==> u.fresh(pos(u), 4, 3, 0, 2) && u.attacks@ == seq![Attack::slice_spec(), Attack::dice_spec()]
}

/// `units` are the units that the spawning characters of `lines` put down,
/// before index `upto`, in reading order: each a well-formed one-cell unit of
/// its character's team on its character's cell, and one on each such cell.
pub open spec fn spawned(lines: Seq<Seq<u8>>, w: int, units: Seq<Unit>, upto: int) -> bool {
    &&& forall|j: int| 0 <= j < units.len() ==> {
        let u = #[trigger] units[j];
        let c = pos(u);
        &&& u.wf()
        &&& u.parts@.len() == 1
        &&& 0 <= c.0 < w
        &&& 0 <= c.1 < lines.len()
        &&& cell_index(w, c.0 as int, c.1 as int) < upto
        &&& spawns(lines[c.1 as int][c.0 as int])
        &&& u.team == team_of(lines[c.1 as int][c.0 as int])
        &&& spawned_as(u, lines[c.1 as int][c.0 as int])
    }
    &&& forall|j1: int, j2: int| 0 <= j1 < j2 < units.len() ==> cell_index(w, pos(#[trigger] units[j1]).0 as int, pos(units[j1]).1 as int)
        < cell_index(w, pos(#[trigger] units[j2]).0 as int, pos(units[j2]).1 as int)
    &&& forall|x: int, y: int| 0 <= x < w && 0 <= y < lines.len() && cell_index(w, x, y) < upto
        && #[trigger] spawns(lines[y][x]) ==> exists|j: int| 0 <= j < units.len() && pos(#[trigger] units[j]) == (x as i16, y as i16)
}

impl Grid {
    /// Reads a level: the board and, in reading order, the units that its
    /// characters put down. Fails on a text without lines, on a character that
    /// names no unit, on rows of different widths (whichever comes first, row
    /// by row), on rows that are all empty, or on a level too large for a
    /// board.
    pub fn from_string(s: &str) -> (r: Result<(Grid, Vec<Unit>), LoadError>)
        ensures
            ({
                let lines = level_lines(s.spec_bytes());
                &&& r is Ok <==> level_ok(lines)
                &&& r matches Ok((g, units)) ==> {
                    &&& g.wf()
                    &&& g.width == lines[0].len()
                    &&& g.rows() == lines.len()
                    &&& forall|x: int, y: int| g.in_bounds(x, y) ==> #[trigger] g.cell(x, y) == level_cell(lines[y][x])
                    &&& Grid::zeroed(g.highlight@)
                    &&& Grid::zeroed(g.attack_hi@)
                    &&& g.attack_loc is None
                    &&& g.player_pos is None
                    &&& spawned(lines, g.width as int, units@, g.grid@.len() as int)
                    &&& units@.len() <= g.grid@.len()
                }
                &&& r == Err::<(Grid, Vec<Unit>), LoadError>(LoadError::Empty)
                    <==> forall|y: int| 0 <= y < lines.len() ==> (#[trigger] lines[y]).len() == 0
                &&& r matches Err(LoadError::UnknownUnit(c)) ==> exists|y: int, x: int|
                    0 <= y < lines.len() && 0 <= x < lines[y].len() && !known(#[trigger] lines[y][x]) && c == lines[y][x] as char
                &&& r == Err::<(Grid, Vec<Unit>), LoadError>(LoadError::WidthMismatch) ==> exists|y: int|
                    0 <= y < lines.len() && (#[trigger] lines[y]).len() != lines[0].len()
            }),
    {
        let bytes = s.as_bytes();
        let rows = split_lines(bytes);
        let ghost lines = views(rows@);
        assert(lines == level_lines(s.spec_bytes()));
        let h = rows.len();
        if h == 0 {
            return Err(LoadError::Empty);
        }
        let w = rows[0].len();
        let mut y: usize = 0;
        while y < h
            invariant
                h == rows@.len(),
                h > 0,
                lines == views(rows@),
                lines == level_lines(s.spec_bytes()),
                w == lines[0].len(),
                y <= h,
                forall|y2: int| 0 <= y2 < y ==> (#[trigger] lines[y2]).len() == w,
                forall|y2: int, x2: int| 0 <= y2 < y && 0 <= x2 < lines[y2].len() ==> known(#[trigger] lines[y2][x2]),
            decreases h - y,
        {
            let row = &rows[y];
            proof {
                assert(lines[y as int] == row@);
            }
            let mut x: usize = 0;
            while x < row.len()
                invariant
                    lines == views(rows@),
                    lines == level_lines(s.spec_bytes()),
                lines == level_lines(s.spec_bytes()),
                    y < h,
                    h == rows@.len(),
                    lines[y as int] == row@,
                    x <= row@.len(),
                    forall|x2: int| 0 <= x2 < x ==> known(#[trigger] row@[x2]),
                decreases row@.len() - x,
            {
                let c = row[x];
                if !(c == 32 || c == 35 || c == 65 || c == 66 || c == 49 || c == 50) {
                    proof {
                        assert(!known(lines[y as int][x as int]));
                        assert(!level_ok(lines));
                    }
                    return Err(LoadError::UnknownUnit(c as char));
                }
                x += 1;
            }
            if row.len() != w {
                proof {
                    assert(lines[y as int].len() != lines[0].len());
                    assert(!level_ok(lines));
                }
                return Err(LoadError::WidthMismatch);
            }
            y += 1;
        }
        if w == 0 {
            return Err(LoadError::Empty);
        }
        if w > MAX_SIDE || h > MAX_SIDE {
            return Err(LoadError::TooLarge);
        }
        assert(forall|y2: int| 0 <= y2 < h ==> (#[trigger] lines[y2]).len() == w);
        proof {
            assert(level_ok(lines));
        }
        let ghost gw = w as int;
        let mut cells: Vec<Cell> = Vec::new();
        let mut units: Vec<Unit> = Vec::new();
        assert(w * h <= MAX_SIDE * MAX_SIDE) by (nonlinear_arith)
            requires w <= MAX_SIDE, h <= MAX_SIDE;
        let n = w * h;
        assert(w == 0 ==> n == 0) by (nonlinear_arith)
            requires n == w * h;
        let mut i: usize = 0;
        let mut x: usize = 0;
        let mut y: usize = 0;
        while i < n
            invariant
                h == rows@.len(),
                lines == views(rows@),
                lines == level_lines(s.spec_bytes()),
                level_ok(lines),
                w == lines[0].len(),
                gw == w as int,
                w <= MAX_SIDE,
                h <= MAX_SIDE,
                n == w * h,
                i <= n,
                i == cell_index(gw, x as int, y as int),
                x < w || i == n,
                cells@.len() == i,
                forall|x2: int, y2: int| 0 <= x2 < w && 0 <= y2 < h && cell_index(gw, x2, y2) < i
                    ==> cells@[cell_index(gw, x2, y2)] == level_cell(#[trigger] lines[y2][x2]),
                spawned(lines, gw, units@, i as int),
                units@.len() <= i,
            decreases n - i,
        {
            proof {
                if y >= h {
                    crate::grid::lemma_index_past(gw, h as int, x as int, y as int);
                }
                assert(lines[y as int] == rows@[y as int]@);
            }
            let c = rows[y][x];
            cells.push(if c == 32 { Cell::Empty } else { Cell::Floor });
            let ghost before = units@;
            if c == 65 || c == 66 || c == 49 || c == 50 {
                let coords = (x as i16, y as i16);
                let u = Unit::from_char(c as char, coords).unwrap();
                units.push(u);
                proof {
                    assert(pos(units@[units@.len() - 1]) == coords);
                }
            }
            proof {
                assert forall|x2: int, y2: int| 0 <= x2 < w && 0 <= y2 < h && cell_index(gw, x2, y2) < i + 1
                    implies cells@[cell_index(gw, x2, y2)] == level_cell(#[trigger] lines[y2][x2]) by {
                    if cell_index(gw, x2, y2) == i {
                        lemma_index_injective(gw, x2, y2, x as int, y as int);
                    }
                }
                assert forall|x2: int, y2: int| 0 <= x2 < w && 0 <= y2 < lines.len() && cell_index(gw, x2, y2) < i + 1
                    && #[trigger] spawns(lines[y2][x2]) implies exists|j: int| 0 <= j < units@.len() && pos(#[trigger] units@[j]) == (x2 as i16, y2 as i16) by {
                    if cell_index(gw, x2, y2) == i {
                        lemma_index_injective(gw, x2, y2, x as int, y as int);
                        assert(pos(units@[units@.len() - 1]) == (x2 as i16, y2 as i16));
                    } else {
                        let j = choose|j: int| 0 <= j < before.len() && pos(#[trigger] before[j]) == (x2 as i16, y2 as i16);
                        assert(units@[j] == before[j]);
                    }
                }
            }
            i += 1;
            if x + 1 < w {
                x += 1;
            } else {
                proof { crate::grid::lemma_index_rows(gw, 0, y as int); }
                x = 0;
                y += 1;
            }
        }
        let g = Grid {
            grid: cells,
            width: w,
            highlight: zeros(n),
            attack_hi: zeros(n),
            attack_loc: None,
            player_pos: None,
        };
        proof {
            if w > 0 {
                assert((n as int) / (w as int) == h as int) by (nonlinear_arith)
                    requires n == w * h, w > 0;
            }
            assert forall|x2: int, y2: int| g.in_bounds(x2, y2) implies #[trigger] g.cell(x2, y2) == level_cell(lines[y2][x2]) by {
                crate::grid::lemma_index_bounds(gw, h as int, x2, y2);
            }
        }
        Ok((g, units))
    }
}

} // verus!
