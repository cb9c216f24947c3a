//! The turn state: the board, the live units, selection, teams and undo.

use vec_map::VecMap;
use vstd::prelude::*;
use vstd::arithmetic::div_mod::lemma_fundamental_div_mod_converse;

use crate::controller::TeamController;
use crate::grid::{Cell, cell_index, lemma_index_bounds, lemma_index_past, lemma_index_rows, reach_value, Grid};
use crate::roster::{MAX_KEYS, roster_get, roster_insert, roster_keys, roster_new, roster_of, roster_remove};
use crate::unit::{cursor_moved, resolved, step_chain, Unit, UnitView};

verus! {

pub struct Team {
    pub name: String,
    pub controller: TeamController,
}

pub struct Game {
    pub grid: Grid,
    pub units: VecMap<Unit>,
    pub frame: u64,
    pub selected_idx: Option<usize>,
    pub teams: Vec<Team>,
    pub current_team: u16,
    /// Whether the acting unit's first move of the turn has been saved.
    pub done: bool,
    pub undo: Vec<UndoState>,
    /// Key of the unit taken out of `units` while it acts.
    pub acting: Option<usize>,
}

/// A full copy of the board, the units and the selection.
pub struct UndoState {
    pub grid: Grid,
    pub units: VecMap<Unit>,
    pub selected_idx: Option<usize>,
}

/// Every unit of the map is well formed, under a key that can be inserted.
pub open spec fn units_wf(m: Map<usize, Unit>) -> bool {
    &&& forall|k: usize| #[trigger] m.contains_key(k) ==> k < MAX_KEYS
    &&& forall|k: usize| m.contains_key(k) ==> (#[trigger] m[k]).wf()
}

/// Some unit of the map has a cell at `c`.
pub open spec fn occupied(m: Map<usize, Unit>, c: (i16, i16)) -> bool {
    exists|k: usize| m.contains_key(k) && (#[trigger] m[k]).parts@.contains(c)
}

/// Two maps with the same keys whose units hold the same values.
pub open spec fn same_units(a: Map<usize, Unit>, b: Map<usize, Unit>) -> bool {
    &&& a.dom() == b.dom()
    &&& forall|k: usize| a.contains_key(k) ==> (#[trigger] a[k])@ == b[k]@
}

/// `k` is the least key of the map whose unit has a cell at `c`.
pub open spec fn first_at(m: Map<usize, Unit>, c: (i16, i16), k: usize) -> bool {
    &&& m.contains_key(k)
    &&& m[k].parts@.contains(c)
    &&& forall|j: usize| m.contains_key(j) && j < k ==> !(#[trigger] m[j]).parts@.contains(c)
}

/// The least key of the map whose unit is on team `t`.
pub open spec fn first_of_team(m: Map<usize, Unit>, t: u16, k: usize) -> bool {
    &&& m.contains_key(k)
    &&& m[k].team == t
    &&& forall|j: usize| m.contains_key(j) && j < k ==> (#[trigger] m[j]).team != t
}

/// A walk may pass through `(x, y)` of the board with cells `cells`, `w`
/// wide: a cell that is in bounds and not empty, and no unit of `m` on it.
pub open spec fn open_cell_in(cells: Seq<Cell>, w: usize, m: Map<usize, Unit>, x: int, y: int) -> bool {
    let h = if w == 0 { 0 } else { cells.len() as int / w as int };
    &&& 0 <= x < w
    &&& 0 <= y < h
    &&& cells[cell_index(w as int, x, y)] != Cell::Empty
    &&& !occupied(m, (x as i16, y as i16))
}

/// `open_cell_in` for each cell, in the board's row-major order.
pub open spec fn open_cells_in(cells: Seq<Cell>, w: usize, m: Map<usize, Unit>) -> Seq<bool> {
    Seq::new(cells.len(), |i: int| open_cell_in(cells, w, m, i % (w as int), i / (w as int)))
}

/// `s` holds board `g`, units with the values of those of `m`, and selection `sel`.
pub open spec fn snapshot_of(s: UndoState, g: Grid, m: Map<usize, Unit>, sel: Option<usize>) -> bool {
    &&& s.grid@ == g@
    &&& same_units(roster_of(s.units), m)
    &&& s.selected_idx == sel
}

/// The map with the unit under `sel`, if any, no longer selected.
pub open spec fn unselect(m: Map<usize, Unit>, sel: Option<usize>) -> Map<usize, Unit> {
    match sel {
        Some(k) => if m.contains_key(k) {
            m.insert(k, Unit { selected: false, ..m[k] })
        } else {
            m
        },
        None => m,
    }
}

/// The unit as a new turn finds it: full moves, free to attack, not aiming.
pub open spec fn refreshed(u: Unit) -> Unit {
    Unit { moves: u.move_limit, has_attacked: false, attack: None, ..u }
}

/// Position `d` places after `p`, going round a sequence of length `n`.
pub open spec fn wrap(p: int, d: int, n: int) -> int {
    if p + d < n {
        p + d
    } else {
        p + d - n
    }
}

/// `k` is the next key after `from`, going round, whose unit is on team `t`.
pub open spec fn next_of_team(m: Map<usize, Unit>, t: u16, from: usize, k: usize) -> bool {
    &&& m.contains_key(k)
    &&& m[k].team == t
    &&& if from < k {
        forall|j: usize| m.contains_key(j) && from < j < k ==> (#[trigger] m[j]).team != t
    } else {
        forall|j: usize| m.contains_key(j) && (from < j || j < k) ==> (#[trigger] m[j]).team != t
    }
}

/// Some cell of unit `u` lies in the attack overlay of `g`.
pub open spec fn in_range(g: Grid, u: Unit) -> bool {
    exists|i: int| 0 <= i < u.parts@.len() && #[trigger] g.in_bounds(u.parts@[i].0 as int, u.parts@[i].1 as int)
        && g.value_at(g.attack_hi@, u.parts@[i].0 as int, u.parts@[i].1 as int) > 0
}

/// Unit `k` of `m`, another than `me`, can be picked as a target.
pub open spec fn target_cand(g: Grid, m: Map<usize, Unit>, me: usize, k: usize) -> bool {
    m.contains_key(k) && k != me && in_range(g, m[k])
}

/// `k` is the target that comes after `from`: the least candidate key above
/// `from`, or, with none, or no `from`, the least candidate key.
pub open spec fn next_target(g: Grid, m: Map<usize, Unit>, me: usize, from: Option<usize>, k: usize) -> bool {
    &&& target_cand(g, m, me, k)
    &&& match from {
        Some(f) => if exists|j: usize| #[trigger] target_cand(g, m, me, j) && f < j {
            f < k && forall|j: usize| #[trigger] target_cand(g, m, me, j) && f < j ==> k <= j
        } else {
            forall|j: usize| #[trigger] target_cand(g, m, me, j) ==> k <= j
        },
        None => forall|j: usize| #[trigger] target_cand(g, m, me, j) ==> k <= j,
    }
}

/// Game `n` is game `o` after `Game::attack(k, slot)`: a unit that aims
/// stops and its snapshot is dropped; a unit free to attack with such a slot
/// and some cells is saved, then aims; anything else changes nothing.
pub open spec fn attacked(o: Game, n: Game, k: usize, slot: u16) -> bool {
    let m = o.roster();
    &&& n.teams == o.teams
    &&& n.current_team == o.current_team
    &&& n.selected_idx == o.selected_idx
    &&& n.frame == o.frame
    &&& n.done == o.done
    &&& n.grid.grid@ == o.grid.grid@
    &&& n.grid.width == o.grid.width
    &&& n.roster().dom() == m.dom()
    &&& n.roster().remove(k) == m.remove(k)
    &&& if m.contains_key(k) && (m[k].attack is Some || (!m[k].has_attacked && slot < m[k].attacks@.len()
        && m[k].parts@.len() > 0)) {
        let u0 = m[k];
        let u1 = n.roster()[k];
        &&& u0.attack is Some ==> u1@ == (UnitView { attack: None, ..u0@ }) && n.grid.attack_loc is None
            && n.undo@ == (if o.undo@.len() > 0 { o.undo@.drop_last() } else { o.undo@ })
        &&& u0.attack is None ==> u1@ == (UnitView { attack: Some(slot), ..u0@ })
            && n.grid.attack_loc == Some(u0.head())
            && n.undo@.len() == o.undo@.len() + 1
            && n.undo@.drop_last() == o.undo@
            && snapshot_of(n.undo@.last(), o.grid, m, o.selected_idx)
    } else {
        n == o
    }
}

/// Game `n` is game `o` after `Game::relocate(k, dx, dy)`: unit `k` steps
/// as `Unit::relocate` says, out of the map while it does.
pub open spec fn relocated(o: Game, n: Game, k: usize, dx: i16, dy: i16) -> bool {
    let m = o.roster();
    &&& n.teams == o.teams
    &&& n.current_team == o.current_team
    &&& n.selected_idx == o.selected_idx
    &&& n.frame == o.frame
    &&& n.grid.grid@ == o.grid.grid@
    &&& n.grid.width == o.grid.width
    &&& n.roster().dom() == m.dom()
    &&& n.roster().remove(k) == m.remove(k)
    &&& if m.contains_key(k) {
        let u0 = m[k];
        let u1 = n.roster()[k];
        let new = (u0.head().0 + dx, u0.head().1 + dy);
        let ok = u0.attack is None && u0.moves > 0 && u0.parts@.len() > 0
            && ((dx == 0 && (dy == 1 || dy == -1)) || (dy == 0 && (dx == 1 || dx == -1)))
            && open_cell_in(o.grid.grid@, o.grid.width, m.remove(k), new.0, new.1);
        &&& u0.attack is Some ==> n.roster() == m && n.undo == o.undo && n.done == o.done
            && cursor_moved(o.grid, n.grid, dx, dy)
        &&& ok ==> {
            &&& u1@ == (UnitView {
                parts: step_chain(u0.parts@, (new.0 as i16, new.1 as i16), u0.len_limit as nat),
                moves: (u0.moves - 1) as u16,
                ..u0@
            })
            &&& n.done
            &&& n.grid.attack_loc == o.grid.attack_loc
            &&& n.shows(&u1, open_cells_in(o.grid.grid@, o.grid.width, m.remove(k)))
            &&& !o.done ==> n.undo@.len() == o.undo@.len() + 1 && n.undo@.drop_last() == o.undo@
                && snapshot_of(n.undo@.last(), o.grid, m, o.selected_idx)
            &&& o.done ==> n.undo == o.undo
        }
        &&& !ok && u0.attack is None ==> n.roster() == m && n.grid == o.grid && n.undo == o.undo && n.done == o.done
    } else {
        n == o
    }
}

/// Only the unit under the selection, if any, is marked selected.
pub open spec fn sel_consistent(g: Game) -> bool {
    forall|k: usize| #[trigger] g.roster().contains_key(k) && g.roster()[k].selected ==> g.selected_idx == Some(k)
}

/// Game `n` is game `o` after `Game::select_next`.
pub open spec fn selected_next(o: Game, n: Game) -> bool {
    &&& n.teams == o.teams
    &&& n.current_team == o.current_team
    &&& n.undo == o.undo
    &&& n.grid.grid@ == o.grid.grid@
    &&& n.grid.width == o.grid.width
    &&& n.frame == o.frame
    &&& sel_consistent(o) ==> sel_consistent(n)
    &&& ({
        let m = o.roster();
        let t = o.current_team;
        match o.selected_idx {
            Some(idx) => {
                if m.contains_key(idx) && m[idx].attack is None {
                    &&& forall|k: usize| next_of_team(m, t, idx, k) ==> n.selected_idx == Some(k)
                        && n.roster()[k].selected
                    &&& (forall|k: usize| !next_of_team(m, t, idx, k)) ==> n == o
                } else {
                    n == o
                }
            },
            None => n == o,
        }
    })
}

/// Game `n` is game `o` after `Game::fire(unit_idx)`.
pub open spec fn fired(o: Game, n: Game, unit_idx: usize) -> bool {
    &&& n.teams == o.teams
    &&& n.current_team == o.current_team
    &&& n.undo == o.undo
    &&& !(o.roster().contains_key(unit_idx) && o.roster()[unit_idx].attack is Some)
        ==> n == o
    &&& o.roster().contains_key(unit_idx) && o.roster()[unit_idx].attack is Some ==> {
        let u0 = o.roster()[unit_idx];
        let m0 = o.roster().remove(unit_idx);
        let m1 = n.roster().remove(unit_idx);
        exists|u1: UnitView, mr: Map<usize, Unit>| {
            &&& #[trigger] resolved(u0, o.grid, m0, u1, n.grid.grid@, mr, u0.attack->0)
            &&& u1.parts.len() > 0 ==> m1 == mr && n.roster().contains_key(unit_idx)
                && n.roster()[unit_idx]@ == u1
            &&& u1.parts.len() == 0 ==> !n.roster().contains_key(unit_idx)
                && m1.dom() == mr.dom()
                && forall|k: usize| #[trigger] m1.contains_key(k) ==> m1[k]
                    == (Unit { selected: m1[k].selected, ..mr[k] })
                && forall|k: usize| first_of_team(mr, o.current_team, k)
                    ==> n.selected_idx == Some(k) && n.roster()[k].selected
        }
    }
}

/// Game `n` is game `o` after `Game::next_team`.
pub open spec fn team_ended(o: Game, n: Game) -> bool {
    &&& n.current_team == (o.current_team + 1) % (o.teams@.len() as int)
    &&& n.undo@.len() == 0
    &&& !n.done
    &&& n.roster().dom() == o.roster().dom()
    &&& forall|k: usize| #[trigger] n.roster().contains_key(k) ==> {
        &&& n.roster()[k].moves == n.roster()[k].move_limit
        &&& !n.roster()[k].has_attacked
        &&& n.roster()[k].attack is None
        &&& n.roster()[k].parts@ == o.roster()[k].parts@
    }
    &&& forall|k: usize| first_of_team(o.roster(), n.current_team, k)
        ==> n.selected_idx == Some(k) && n.roster()[k].selected
    &&& sel_consistent(o) ==> sel_consistent(n)
    &&& n.grid.grid@ == o.grid.grid@
    &&& n.grid.width == o.grid.width
    &&& n.grid.attack_loc is None
    &&& n.teams == o.teams
    &&& n.frame == o.frame
}

/// Game `n` is game `o` after `Game::undo`.
pub open spec fn undone(o: Game, n: Game) -> bool {
    &&& o.undo@.len() == 0 ==> n.same_but_undo(&o) && n.undo@ == o.undo@
    &&& o.undo@.len() > 0 ==> {
        let s = o.undo@.last();
        &&& n.grid == s.grid
        &&& n.units == s.units
        &&& n.selected_idx == s.selected_idx
        &&& !n.done
        &&& n.undo@ == o.undo@.drop_last()
        &&& n.frame == o.frame
        &&& n.teams == o.teams
        &&& n.current_team == o.current_team
        &&& n.acting == o.acting
    }
}

impl UndoState {
    pub open spec fn wf(&self) -> bool {
        self.grid.wf() && units_wf(roster_of(self.units))
    }
}

impl Game {
    pub open spec fn roster(&self) -> Map<usize, Unit> {
        roster_of(self.units)
    }

    pub open spec fn acting_spec(&self) -> Option<usize> {
        self.acting
    }

    pub open spec fn wf(&self) -> bool {
        &&& self.grid.wf()
        &&& units_wf(self.roster())
        &&& 0 < self.teams@.len() < u16::MAX
        &&& self.current_team < self.teams@.len()
        &&& forall|i: int| 0 <= i < self.undo@.len() ==> (#[trigger] self.undo@[i]).wf()
        &&& (self.acting matches Some(k) ==> k < MAX_KEYS)
    }

    /// A walk may pass through `(x, y)`: passable, and no unit in the map on it.
    pub open spec fn open_cell(&self, x: int, y: int) -> bool {
        open_cell_in(self.grid.grid@, self.grid.width, self.roster(), x, y)
    }

    pub open spec fn open_cells(&self) -> Seq<bool> {
        open_cells_in(self.grid.grid@, self.grid.width, self.roster())
    }

    /// The overlays show `u`: its attack overlay while it aims, else its
    /// movement overlay over the cells that `open` lets it walk.
    pub open spec fn shows(&self, u: &Unit, open: Seq<bool>) -> bool {
        let g = self.grid;
        let head = u.head();
        let o = (head.0 as int, head.1 as int);
        match u.attack {
            Some(a) => {
                &&& forall|x: int, y: int| #![trigger g.value_at(g.attack_hi@, x, y)]
                    g.in_bounds(x, y) ==> g.value_at(g.attack_hi@, x, y) == g.attack_value(
                        u.attacks@[a as int].ground_spec(),
                        o,
                        (x, y),
                        u.attacks@[a as int].range_spec() as int,
                    )
                &&& Grid::zeroed(g.highlight@)
                &&& g.player_pos.is_none()
            },
            None => {
                &&& forall|x: int, y: int| #![trigger g.value_at(g.highlight@, x, y)]
                    g.in_bounds(x, y) ==> g.value_at(g.highlight@, x, y) == reach_value(
                        open,
                        g.width as int,
                        g.rows(),
                        o,
                        (x, y),
                        u.moves as nat,
                    )
                &&& Grid::zeroed(g.attack_hi@)
                &&& g.player_pos == if u.moves == 0 { None } else { Some(head) }
            },
        }
    }

    /// `self` is `o` with, at most, other overlays and reachable-from marker.
    pub open spec fn same_but_overlays(&self, o: &Game) -> bool {
        &&& self.grid.grid@ == o.grid.grid@
        &&& self.grid.width == o.grid.width
        &&& self.grid.attack_loc == o.grid.attack_loc
        &&& self.units == o.units
        &&& self.frame == o.frame
        &&& self.selected_idx == o.selected_idx
        &&& self.teams == o.teams
        &&& self.current_team == o.current_team
        &&& self.done == o.done
        &&& self.undo == o.undo
        &&& self.acting == o.acting
    }

    /// A game on `grid` whose units get the keys `0, 1, ...` in order.
    pub fn new(grid: Grid, units: Vec<Unit>, teams: Vec<Team>) -> (r: Game)
        requires
            grid.wf(),
            forall|i: int| 0 <= i < units@.len() ==> (#[trigger] units@[i]).wf(),
            units@.len() <= MAX_KEYS,
            0 < teams@.len() < u16::MAX,
        ensures
            r.wf(),
            r.grid == grid,
            r.roster().dom() == Set::new(|k: usize| k < units@.len()),
            forall|k: usize| k < units@.len() ==> r.roster()[k] == #[trigger] units@[k as int],
            r.teams == teams,
            r.selected_idx.is_none(),
            r.current_team == 0,
            !r.done,
            r.undo@.len() == 0,
            r.acting_spec().is_none(),
    {
        let mut map = roster_new();
        let mut units = units;
        let n = units.len();
        let ghost all = units@;
        let mut i: usize = n;
        while i > 0
            invariant
                i <= n,
                n == all.len(),
                n <= MAX_KEYS,
                units@ == all.subrange(0, i as int),
                forall|j: int| 0 <= j < all.len() ==> (#[trigger] all[j]).wf(),
                roster_of(map).dom() == Set::new(|k: usize| i <= k < n),
                forall|k: usize| i <= k < n ==> roster_of(map)[k] == #[trigger] all[k as int],
            decreases i,
        {
            let u = units.pop().unwrap();
            i -= 1;
            roster_insert(&mut map, i, u);
            assert(units@ =~= all.subrange(0, i as int));
            assert(roster_of(map).dom() =~= Set::new(|k: usize| i <= k < n));
        }
        assert(Set::new(|k: usize| 0 <= k < n) =~= Set::new(|k: usize| k < n));
        assert forall|k: usize| roster_of(map).contains_key(k) implies k < MAX_KEYS && (#[trigger] roster_of(map)[k]).wf() by {
            assert(all[k as int].wf());
        }
        let r = Game {
            grid,
            units: map,
            frame: 0,
            selected_idx: None,
            teams,
            current_team: 0,
            done: false,
            undo: Vec::new(),
            acting: None,
        };
        r
    }

    /// Whether `(x, y)` is passable and no unit in the map stands on it.
    pub fn is_valid(&self, x: i16, y: i16) -> (r: bool)
        requires
            self.wf(),
        ensures
            r == self.open_cell(x as int, y as int),
    {
        if !self.grid.is_valid(x, y) {
            return false;
        }
        let keys = roster_keys(&self.units);
        let mut i: usize = 0;
        while i < keys.len()
            invariant
                i <= keys@.len(),
                forall|k: usize| self.roster().contains_key(k) <==> keys@.contains(k),
                forall|j: int| 0 <= j < i && self.roster().contains_key(keys@[j])
                    ==> !(#[trigger] self.roster()[keys@[j]]).parts@.contains((x, y)),
            decreases keys@.len() - i,
        {
            let k = keys[i];
            match roster_get(&self.units, k) {
                Some(u) => {
                    if u.occupies(x, y) {
                        return false;
                    }
                },
                None => {},
            }
            i += 1;
        }
        proof {
            assert forall|k: usize| self.roster().contains_key(k) implies !(#[trigger] self.roster()[k]).parts@.contains((x, y)) by {
                assert(keys@.contains(k));
                let j = choose|j: int| 0 <= j < keys@.len() && keys@[j] == k;
                assert(!self.roster()[keys@[j]].parts@.contains((x, y)));
            }
        }
        true
    }

    /// `is_valid` for every cell, in the board's row-major order.
    pub fn open_mask(&self) -> (r: Vec<bool>)
        requires
            self.wf(),
        ensures
            r@ == self.open_cells(),
    {
        let w = self.grid.width;
        let h = self.grid.height();
        let n = self.grid.grid.len();
        assert(n == w * h) by (nonlinear_arith)
            requires n == w * h;
        let mut r: Vec<bool> = Vec::new();
        let mut i: usize = 0;
        let mut x: usize = 0;
        let mut y: usize = 0;
        while i < n
            invariant
                self.wf(),
                n == self.grid.grid@.len(),
                n == w * h,
                w == self.grid.width,
                h == self.grid.rows(),
                i <= n,
                i == cell_index(w as int, x as int, y as int),
                x < w || i == n,
                r@.len() == i,
                forall|j: int| 0 <= j < i ==> r@[j] == #[trigger] self.open_cells()[j],
            decreases n - i,
        {
            proof {
                if y >= h {
                    lemma_index_past(w as int, h as int, x as int, y as int);
                }
                lemma_fundamental_div_mod_converse(i as int, w as int, y as int, x as int);
            }
            let v = self.is_valid(x as i16, y as i16);
            r.push(v);
            i += 1;
            if x + 1 < w {
                x += 1;
            } else {
                proof { lemma_index_rows(w as int, 0, y as int); }
                x = 0;
                y += 1;
            }
        }
        assert(r@ =~= self.open_cells());
        r
    }

    /// Zeroes both overlays and drops the reachable-from marker.
    pub fn clear_highlight(&mut self)
        requires
            old(self).wf(),
        ensures
            final(self).wf(),
            final(self).same_but_overlays(old(self)),
            final(self).grid.player_pos.is_none(),
            Grid::zeroed(final(self).grid.highlight@),
            Grid::zeroed(final(self).grid.attack_hi@),
    {
        self.grid.clear_overlays();
    }
}

impl Game {
    /// `self` is `o` with, at most, another undo history.
    pub open spec fn same_but_undo(&self, o: &Game) -> bool {
        &&& self.grid == o.grid
        &&& self.units == o.units
        &&& self.frame == o.frame
        &&& self.selected_idx == o.selected_idx
        &&& self.teams == o.teams
        &&& self.current_team == o.current_team
        &&& self.done == o.done
        &&& self.acting == o.acting
    }

    /// The units of the map as it stands plus, if a unit is out acting, that one.
    pub open spec fn with_acting(&self, u: Unit) -> Map<usize, Unit> {
        match self.acting {
            Some(k) => self.roster().insert(k, u),
            None => self.roster(),
        }
    }

    /// A copy of the units.
    fn copy_units(&self) -> (r: VecMap<Unit>)
        requires
            self.wf(),
        ensures
            same_units(roster_of(r), self.roster()),
            units_wf(roster_of(r)),
    {
        let keys = roster_keys(&self.units);
        let mut r = roster_new();
        let mut i: usize = 0;
        while i < keys.len()
            invariant
                self.wf(),
                i <= keys@.len(),
                forall|k: usize| self.roster().contains_key(k) <==> keys@.contains(k),
                forall|k: usize| roster_of(r).contains_key(k) <==> exists|j: int| 0 <= j < i && keys@[j] == k,
                forall|k: usize| #[trigger] roster_of(r).contains_key(k) ==> roster_of(r)[k]@ == self.roster()[k]@
                    && roster_of(r)[k].wf(),
            decreases keys@.len() - i,
        {
            let k = keys[i];
            proof {
                assert(keys@.contains(k));
            }
            match roster_get(&self.units, k) {
                Some(u) => {
                    roster_insert(&mut r, k, u.duplicate());
                },
                None => {},
            }
            proof {
                assert forall|k2: usize| roster_of(r).contains_key(k2) <==> exists|j: int| 0 <= j < i + 1 && keys@[j] == k2 by {
                    if k2 == k {
                        assert(keys@[i as int] == k2);
                    }
                }
            }
            i += 1;
        }
        proof {
            assert forall|k: usize| roster_of(r).contains_key(k) <==> self.roster().contains_key(k) by {
                if roster_of(r).contains_key(k) {
                    let j = choose|j: int| 0 <= j < i && keys@[j] == k;
                    assert(keys@.contains(k));
                }
                if self.roster().contains_key(k) {
                    assert(keys@.contains(k));
                    let j = choose|j: int| 0 <= j < keys@.len() && keys@[j] == k;
                }
            }
            assert(roster_of(r).dom() =~= self.roster().dom());
        }
        r
    }

    /// Pushes a snapshot of the board, the units and the selection.
    pub fn save(&mut self)
        requires
            old(self).wf(),
        ensures
            final(self).wf(),
            final(self).same_but_undo(old(self)),
            final(self).undo@.len() == old(self).undo@.len() + 1,
            final(self).undo@.subrange(0, old(self).undo@.len() as int) == old(self).undo@,
            snapshot_of(final(self).undo@.last(), old(self).grid, old(self).roster(), old(self).selected_idx),
    {
        let s = UndoState { grid: self.grid.duplicate(), units: self.copy_units(), selected_idx: self.selected_idx };
        self.undo.push(s);
        proof {
            assert(self.undo@.subrange(0, old(self).undo@.len() as int) =~= old(self).undo@);
        }
    }

    /// Pushes a snapshot in which `unit`, a copy of the unit out acting, is
    /// back among the units.
    pub fn save_with(&mut self, unit: Unit)
        requires
            old(self).wf(),
            unit.wf(),
        ensures
            final(self).wf(),
            final(self).same_but_undo(old(self)),
            final(self).undo@.len() == old(self).undo@.len() + 1,
            final(self).undo@.subrange(0, old(self).undo@.len() as int) == old(self).undo@,
            snapshot_of(final(self).undo@.last(), old(self).grid, old(self).with_acting(unit), old(self).selected_idx),
    {
        let mut units = self.copy_units();
        match self.acting {
            Some(k) => {
                roster_insert(&mut units, k, unit);
            },
            None => {},
        }
        let s = UndoState { grid: self.grid.duplicate(), units, selected_idx: self.selected_idx };
        self.undo.push(s);
        proof {
            assert(self.undo@.subrange(0, old(self).undo@.len() as int) =~= old(self).undo@);
            assert(roster_of(s.units).dom() =~= old(self).with_acting(unit).dom());
            assert forall|k: usize| roster_of(s.units).contains_key(k) implies k < MAX_KEYS && (#[trigger] roster_of(s.units)[k]).wf() by {
                if Some(k) != old(self).acting {
                    assert(old(self).roster().contains_key(k));
                    assert(old(self).roster()[k]@ == roster_of(s.units)[k]@);
                    assert(k < MAX_KEYS);
                }
            }
            assert(s.grid.wf());
            assert(units_wf(roster_of(s.units)));
            assert(self.undo@[self.undo@.len() - 1] == s);
        }
    }

    /// Restores the last snapshot, if there is one, and forgets it; the next
    /// move of the turn is saved again.
    pub fn undo(&mut self)
        requires
            old(self).wf(),
        ensures
            final(self).wf(),
            undone(*old(self), *final(self)),
    {
        match self.undo.pop() {
            Some(s) => {
                self.grid = s.grid;
                self.units = s.units;
                self.selected_idx = s.selected_idx;
                self.done = false;
                proof {
                    assert(old(self).undo@[old(self).undo@.len() - 1].wf());
                }
            },
            None => {},
        }
    }

    /// Takes unit `k` out of the map while it acts.
    pub fn take_unit(&mut self, k: usize) -> (r: Option<Unit>)
        requires
            old(self).wf(),
        ensures
            final(self).wf(),
            r.is_some() == old(self).roster().contains_key(k),
            r matches Some(u) ==> u == old(self).roster()[k] && u.wf(),
            final(self).roster() == old(self).roster().remove(k),
            final(self).acting == if r.is_some() { Some(k) } else { old(self).acting },
            final(self).grid == old(self).grid,
            final(self).selected_idx == old(self).selected_idx,
            final(self).teams == old(self).teams,
            final(self).current_team == old(self).current_team,
            final(self).done == old(self).done,
            final(self).undo == old(self).undo,
            final(self).frame == old(self).frame,
    {
        let r = roster_remove(&mut self.units, k);
        if r.is_some() {
            proof {
                assert(old(self).roster()[k].wf());
            }
            self.acting = Some(k);
        }
        proof {
            assert forall|j: usize| self.roster().contains_key(j) implies j < MAX_KEYS && (#[trigger] self.roster()[j]).wf() by {
                assert(old(self).roster().contains_key(j));
                assert(old(self).roster()[j].wf());
                assert(j < MAX_KEYS);
            }
        }
        r
    }

    /// Puts unit `u` back under key `k` when it is done acting.
    pub fn put_unit(&mut self, k: usize, u: Unit)
        requires
            old(self).wf(),
            u.wf(),
            k < MAX_KEYS,
        ensures
            final(self).wf(),
            final(self).roster() == old(self).roster().insert(k, u),
            final(self).acting.is_none(),
            final(self).grid == old(self).grid,
            final(self).selected_idx == old(self).selected_idx,
            final(self).teams == old(self).teams,
            final(self).current_team == old(self).current_team,
            final(self).done == old(self).done,
            final(self).undo == old(self).undo,
            final(self).frame == old(self).frame,
    {
        roster_insert(&mut self.units, k, u);
        self.acting = None;
        proof {
            assert forall|j: usize| self.roster().contains_key(j) implies j < MAX_KEYS && (#[trigger] self.roster()[j]).wf() by {
                if j != k {
                    assert(old(self).roster().contains_key(j));
                    assert(old(self).roster()[j].wf());
                    assert(j < MAX_KEYS);
                }
            }
        }
    }
}

impl Game {
    /// The least key whose unit has a cell at `c`.
    pub fn unit_at(&self, c: (i16, i16)) -> (r: Option<usize>)
        requires
            self.wf(),
        ensures
            r matches Some(k) ==> first_at(self.roster(), c, k),
            r is None ==> !occupied(self.roster(), c),
    {
        let keys = roster_keys(&self.units);
        let mut i: usize = 0;
        while i < keys.len()
            invariant
                i <= keys@.len(),
                forall|a: int, b: int| 0 <= a < b < keys@.len() ==> keys@[a] < keys@[b],
                forall|k: usize| self.roster().contains_key(k) <==> keys@.contains(k),
                forall|j: int| 0 <= j < i && self.roster().contains_key(keys@[j])
                    ==> !(#[trigger] self.roster()[keys@[j]]).parts@.contains(c),
            decreases keys@.len() - i,
        {
            let k = keys[i];
            match roster_get(&self.units, k) {
                Some(u) => {
                    if u.occupies(c.0, c.1) {
                        proof {
                            assert forall|j: usize| self.roster().contains_key(j) && j < k
                                implies !(#[trigger] self.roster()[j]).parts@.contains(c) by {
                                assert(keys@.contains(j));
                                let p = choose|p: int| 0 <= p < keys@.len() && keys@[p] == j;
                                if p >= i {
                                    if p > i {
                                        assert(keys@[i as int] < keys@[p]);
                                    }
                                }
                            }
                        }
                        return Some(k);
                    }
                },
                None => {},
            }
            i += 1;
        }
        proof {
            assert forall|k: usize| self.roster().contains_key(k) implies !(#[trigger] self.roster()[k]).parts@.contains(c) by {
                assert(keys@.contains(k));
                let j = choose|j: int| 0 <= j < keys@.len() && keys@[j] == k;
            }
        }
        None
    }

    /// Takes unit `k` out of the map for good, or to put it back.
    pub fn remove_unit(&mut self, k: usize) -> (r: Option<Unit>)
        requires
            old(self).wf(),
        ensures
            final(self).wf(),
            r.is_some() == old(self).roster().contains_key(k),
            r matches Some(u) ==> u == old(self).roster()[k] && u.wf(),
            final(self).roster() == old(self).roster().remove(k),
            final(self).grid == old(self).grid,
            final(self).selected_idx == old(self).selected_idx,
            final(self).teams == old(self).teams,
            final(self).current_team == old(self).current_team,
            final(self).done == old(self).done,
            final(self).undo == old(self).undo,
            final(self).frame == old(self).frame,
            final(self).acting == old(self).acting,
    {
        let r = roster_remove(&mut self.units, k);
        proof {
            if r.is_some() {
                assert(old(self).roster()[k].wf());
            }
            assert forall|j: usize| self.roster().contains_key(j) implies j < MAX_KEYS && (#[trigger] self.roster()[j]).wf() by {
                assert(old(self).roster().contains_key(j));
                assert(old(self).roster()[j].wf());
            }
        }
        r
    }

    /// Stores `u` under key `k`.
    pub fn insert_unit(&mut self, k: usize, u: Unit)
        requires
            old(self).wf(),
            u.wf(),
            k < MAX_KEYS,
        ensures
            final(self).wf(),
            final(self).roster() == old(self).roster().insert(k, u),
            final(self).grid == old(self).grid,
            final(self).selected_idx == old(self).selected_idx,
            final(self).teams == old(self).teams,
            final(self).current_team == old(self).current_team,
            final(self).done == old(self).done,
            final(self).undo == old(self).undo,
            final(self).frame == old(self).frame,
            final(self).acting == old(self).acting,
    {
        roster_insert(&mut self.units, k, u);
        proof {
            assert forall|j: usize| self.roster().contains_key(j) implies j < MAX_KEYS && (#[trigger] self.roster()[j]).wf() by {
                if j != k {
                    assert(old(self).roster().contains_key(j));
                    assert(old(self).roster()[j].wf());
                }
            }
        }
    }
}

impl Game {
    /// Clears the selection.
    pub fn deselect(&mut self)
        requires
            old(self).wf(),
        ensures
            final(self).wf(),
            final(self).selected_idx.is_none(),
            final(self).roster() == unselect(old(self).roster(), old(self).selected_idx),
            final(self).grid == old(self).grid,
            final(self).teams == old(self).teams,
            final(self).current_team == old(self).current_team,
            final(self).done == old(self).done,
            final(self).undo == old(self).undo,
            final(self).frame == old(self).frame,
            final(self).acting == old(self).acting,
    {
        match self.selected_idx {
            Some(k) => {
                match self.remove_unit(k) {
                    Some(u) => {
                        let mut u = u;
                        u.selected = false;
                        proof {
                            assert(k < MAX_KEYS);
                        }
                        self.insert_unit(k, u);
                        proof {
                            assert(self.roster() =~= unselect(old(self).roster(), old(self).selected_idx));
                        }
                    },
                    None => {
                        proof {
                            assert(self.roster() =~= old(self).roster());
                        }
                    },
                }
            },
            None => {},
        }
        self.selected_idx = None;
    }

    /// Selects unit `unit_idx` and shows its overlays; the next move is saved
    /// again. Nothing happens if there is no such unit.
    pub fn select(&mut self, unit_idx: usize)
        requires
            old(self).wf(),
        ensures
            final(self).wf(),
            final(self).grid.grid@ == old(self).grid.grid@,
            final(self).grid.width == old(self).grid.width,
            final(self).grid.attack_loc == old(self).grid.attack_loc,
            final(self).teams == old(self).teams,
            final(self).current_team == old(self).current_team,
            final(self).undo == old(self).undo,
            final(self).frame == old(self).frame,
            final(self).acting == old(self).acting,
            !old(self).roster().contains_key(unit_idx) ==> final(self).roster() == old(self).roster()
                && final(self).selected_idx == old(self).selected_idx && final(self).done == old(self).done
                && final(self).grid == old(self).grid,
            old(self).roster().contains_key(unit_idx) ==> {
                let m = unselect(old(self).roster(), old(self).selected_idx);
                &&& final(self).selected_idx == Some(unit_idx)
                &&& !final(self).done
                &&& final(self).roster() == m.insert(unit_idx, Unit { selected: true, ..m[unit_idx] })
                &&& sel_consistent(*old(self)) ==> sel_consistent(*final(self))
                &&& m[unit_idx].parts@.len() > 0 ==> final(self).shows(
                    &final(self).roster()[unit_idx],
                    open_cells_in(old(self).grid.grid@, old(self).grid.width, m.remove(unit_idx)),
                )
            },
    {
        match roster_get(&self.units, unit_idx) {
            None => {
                return;
            },
            Some(_) => {},
        }
        self.deselect();
        self.selected_idx = Some(unit_idx);
        let mut u = self.remove_unit(unit_idx).unwrap();
        u.selected = true;
        proof {
            assert(unit_idx < MAX_KEYS);
        }
        u.highlight(self);
        self.insert_unit(unit_idx, u);
        self.done = false;
    }

    /// The least key whose unit is on team `t`.
    pub fn first_of_team(&self, t: u16) -> (r: Option<usize>)
        requires
            self.wf(),
        ensures
            r matches Some(k) ==> first_of_team(self.roster(), t, k),
            r is None ==> forall|k: usize| self.roster().contains_key(k) ==> (#[trigger] self.roster()[k]).team != t,
    {
        let keys = roster_keys(&self.units);
        let mut i: usize = 0;
        while i < keys.len()
            invariant
                i <= keys@.len(),
                forall|a: int, b: int| 0 <= a < b < keys@.len() ==> keys@[a] < keys@[b],
                forall|k: usize| self.roster().contains_key(k) <==> keys@.contains(k),
                forall|j: int| 0 <= j < i && self.roster().contains_key(keys@[j])
                    ==> (#[trigger] self.roster()[keys@[j]]).team != t,
            decreases keys@.len() - i,
        {
            let k = keys[i];
            match roster_get(&self.units, k) {
                Some(u) => {
                    if u.team == t {
                        proof {
                            assert forall|j: usize| self.roster().contains_key(j) && j < k
                                implies (#[trigger] self.roster()[j]).team != t by {
                                assert(keys@.contains(j));
                                let p = choose|p: int| 0 <= p < keys@.len() && keys@[p] == j;
                                if p > i {
                                    assert(keys@[i as int] < keys@[p]);
                                }
                            }
                        }
                        return Some(k);
                    }
                },
                None => {},
            }
            i += 1;
        }
        proof {
            assert forall|k: usize| self.roster().contains_key(k) implies (#[trigger] self.roster()[k]).team != t by {
                assert(keys@.contains(k));
                let j = choose|j: int| 0 <= j < keys@.len() && keys@[j] == k;
            }
        }
        None
    }

    /// Starts team `t`'s turn: every unit gets its full moves back and may
    /// attack again, no unit aims, the undo history is emptied, and team `t`'s
    /// unit with the least key is selected.
    pub fn select_team(&mut self, team_idx: u16)
        requires
            old(self).wf(),
            team_idx < old(self).teams@.len(),
        ensures
            final(self).wf(),
            final(self).current_team == team_idx,
            final(self).undo@.len() == 0,
            !final(self).done,
            final(self).roster().dom() == old(self).roster().dom(),
            forall|k: usize| #[trigger] final(self).roster().contains_key(k) ==> final(self).roster()[k]
                == (Unit { selected: final(self).roster()[k].selected, ..refreshed(old(self).roster()[k]) }),
            forall|k: usize| first_of_team(old(self).roster(), team_idx, k) ==> final(self).selected_idx == Some(k)
                && final(self).roster()[k].selected,
            sel_consistent(*old(self)) ==> sel_consistent(*final(self)),
            final(self).grid.grid@ == old(self).grid.grid@,
            final(self).grid.width == old(self).grid.width,
            final(self).grid.attack_loc is None,
            final(self).teams == old(self).teams,
            final(self).acting == old(self).acting,
            final(self).frame == old(self).frame,
    {
        self.undo.clear();
        self.grid.attack_loc = None;
        let keys = roster_keys(&self.units);
        let ghost m0 = self.roster();
        let mut i: usize = 0;
        while i < keys.len()
            invariant
                self.wf(),
                self.undo@.len() == 0,
                team_idx < self.teams@.len(),
                self.grid.grid@ == old(self).grid.grid@,
                self.grid.width == old(self).grid.width,
                self.grid.attack_loc is None,
                self.teams == old(self).teams,
                self.acting == old(self).acting,
                self.selected_idx == old(self).selected_idx,
                self.frame == old(self).frame,
                m0 == old(self).roster(),
                i <= keys@.len(),
                forall|a: int, b: int| 0 <= a < b < keys@.len() ==> keys@[a] != keys@[b],
                forall|k: usize| m0.contains_key(k) <==> keys@.contains(k),
                self.roster().dom() == m0.dom(),
                forall|k: usize| #[trigger] self.roster().contains_key(k) ==> self.roster()[k] == if exists|j: int|
                    0 <= j < i && keys@[j] == k {
                    refreshed(m0[k])
                } else {
                    m0[k]
                },
            decreases keys@.len() - i,
        {
            let k = keys[i];
            proof {
                assert(keys@.contains(k));
                assert forall|j: int| 0 <= j < i implies keys@[j] != k by {
                    assert(keys@[j] != keys@[i as int]);
                }
            }
            let mut u = self.remove_unit(k).unwrap();
            u.moves = u.move_limit;
            u.has_attacked = false;
            u.attack = None;
            self.insert_unit(k, u);
            proof {
                assert(self.roster().dom() =~= m0.dom());
                assert forall|k2: usize| #[trigger] self.roster().contains_key(k2) implies self.roster()[k2] == if exists|j: int|
                    0 <= j < i + 1 && keys@[j] == k2 {
                    refreshed(m0[k2])
                } else {
                    m0[k2]
                } by {
                    if k2 == k {
                        assert(keys@[i as int] == k2);
                    } else {
                        if exists|j: int| 0 <= j < i + 1 && keys@[j] == k2 {
                            let j = choose|j: int| 0 <= j < i + 1 && keys@[j] == k2;
                            assert(j < i);
                        }
                    }
                }
            }
            i += 1;
        }
        proof {
            assert forall|k: usize| #[trigger] self.roster().contains_key(k) implies self.roster()[k] == refreshed(m0[k]) by {
                assert(keys@.contains(k));
                let j = choose|j: int| 0 <= j < keys@.len() && keys@[j] == k;
            }
        }
        proof {
            if sel_consistent(*old(self)) {
                assert forall|k: usize| #[trigger] self.roster().contains_key(k) && self.roster()[k].selected
                    implies self.selected_idx == Some(k) by {
                    assert(m0.contains_key(k));
                    assert(self.roster()[k] == refreshed(m0[k]));
                }
            }
        }
        let first = self.first_of_team(team_idx);
        proof {
            assert forall|k: usize| first_of_team(old(self).roster(), team_idx, k) implies first == Some(k) by {
                match first {
                    Some(f) => {
                        if f < k {
                            assert(self.roster()[f].team == m0[f].team);
                        } else if k < f {
                            assert(self.roster()[k].team == m0[k].team);
                        }
                    },
                    None => {
                        assert(self.roster()[k].team == m0[k].team);
                    },
                }
            }
        }
        match first {
            Some(k) => {
                self.select(k);
            },
            None => {},
        }
        self.current_team = team_idx;
        self.done = false;
    }
}

impl Game {
    /// Ends the current team's turn: the selected unit stops aiming, and the
    /// next team, going round, starts its turn as `select_team` says.
    pub fn next_team(&mut self)
        requires
            old(self).wf(),
        ensures
            final(self).wf(),
            team_ended(*old(self), *final(self)),
    {
        let len = self.teams.len();
        let next = ((self.current_team as usize + 1) % len) as u16;
        match self.selected_idx {
            Some(k) => {
                match self.remove_unit(k) {
                    Some(u) => {
                        let mut u = u;
                        u.leave_attack(self);
                        proof {
                            assert(k < MAX_KEYS);
                        }
                        self.insert_unit(k, u);
                        proof {
                            assert(self.roster().dom() =~= old(self).roster().dom());
                        }
                    },
                    None => {},
                }
            },
            None => {},
        }
        let ghost mid = self.roster();
        assert(mid.dom() == old(self).roster().dom());
        assert(forall|j: usize| #[trigger] mid.contains_key(j) ==> mid[j].team == old(self).roster()[j].team);
        proof {
            assert forall|k: usize| first_of_team(old(self).roster(), next, k) implies first_of_team(mid, next, k) by {
                assert(mid.contains_key(k));
                assert forall|j: usize| mid.contains_key(j) && j < k implies (#[trigger] mid[j]).team != next by {
                    assert(old(self).roster().contains_key(j));
                    assert(old(self).roster()[j].team != next);
                }
            }
        }
        self.select_team(next);
        proof {
            assert forall|k: usize| first_of_team(old(self).roster(), self.current_team, k) implies
                self.selected_idx == Some(k) && self.roster()[k].selected by {
                assert(first_of_team(mid, next, k));
            }
            assert forall|k: usize| #[trigger] self.roster().contains_key(k) implies self.roster()[k].parts@ == old(self).roster()[k].parts@ by {
                assert(mid.contains_key(k));
            }
        }
    }

    /// Toggles aiming for unit `unit_idx`: if it aims, the snapshot taken when
    /// it started is dropped and it stops; else the game is saved and it starts
    /// aiming attack `slot` (see `Unit::attack`). Nothing happens without such
    /// a unit.
    pub fn attack(&mut self, unit_idx: usize, slot: u16)
        requires
            old(self).wf(),
        ensures
            final(self).wf(),
            attacked(*old(self), *final(self), unit_idx, slot),
    {
        let proceed = match roster_get(&self.units, unit_idx) {
            Some(u) => u.attack.is_some() || (!u.has_attacked && (slot as usize) < u.attacks.len() && u.parts.len() > 0),
            None => false,
        };
        if !proceed {
            return;
        }
        let mut u = match self.take_unit(unit_idx) {
            Some(u) => u,
            None => {
                return;
            },
        };
        if u.attack.is_some() {
            self.undo.pop();
            u.leave_attack(self);
        } else {
            self.save_with(u.duplicate());
            proof {
                let s = self.undo@.last();
                let m = old(self).roster();
                assert(roster_of(s.units).dom() =~= m.dom());
                assert forall|k: usize| roster_of(s.units).contains_key(k) implies (#[trigger] roster_of(s.units)[k])@ == m[k]@ by {
                    if k != unit_idx {
                        assert(roster_of(s.units)[k]@ == old(self).roster().remove(unit_idx)[k]@);
                    }
                }
            }
            u.attack(self, slot);
        }
        proof {
            assert(unit_idx < MAX_KEYS);
        }
        self.put_unit(unit_idx, u);
        proof {
            assert(self.roster().dom() =~= old(self).roster().dom());
            assert(self.roster().remove(unit_idx) =~= old(self).roster().remove(unit_idx));
        }
    }

    /// Unit `unit_idx` fires the attack it aims (see `Unit::fire`). If that
    /// leaves it with no cells, it leaves the map and the current team's unit
    /// with the least key, if any, is selected.
    pub fn fire(&mut self, unit_idx: usize)
        requires
            old(self).wf(),
        ensures
            final(self).wf(),
            fired(*old(self), *final(self), unit_idx),
    {
        let aiming = match roster_get(&self.units, unit_idx) {
            Some(u) => u.attack.is_some(),
            None => false,
        };
        if !aiming {
            return;
        }
        let mut u = match self.take_unit(unit_idx) {
            Some(u) => u,
            None => {
                return;
            },
        };
        let ghost u0 = u;
        let ghost m0 = self.roster();
        let ghost cells0 = self.grid.grid@;
        u.fire(self);
        let ghost mr = self.roster();
        let ghost cells1 = self.grid.grid@;
        if u.parts.len() == 0 {
            self.acting = None;
            let ghost gd = *self;
            assert(!self.roster().contains_key(unit_idx));
            match self.first_of_team(self.current_team) {
                Some(k) => {
                    self.select(k);
                    proof {
                        assert(self.roster().dom() =~= gd.roster().dom());
                        assert(self.roster().remove(unit_idx) =~= self.roster());
                        assert forall|k2: usize| #[trigger] self.roster().remove(unit_idx).contains_key(k2) implies
                            self.roster().remove(unit_idx)[k2] == (Unit { selected: self.roster().remove(unit_idx)[k2].selected, ..mr[k2] }) by {
                        }
                    }
                },
                None => {
                    proof {
                        assert(self.roster().remove(unit_idx) =~= self.roster());
                    }
                },
            }
            proof {
                if u0.attack is Some {
                    assert(resolved(u0, old(self).grid, m0, u@, cells1, mr, u0.attack->0));
                }
            }
        } else {
            proof {
                assert(unit_idx < MAX_KEYS);
            }
            self.put_unit(unit_idx, u);
            proof {
                assert(mr =~= self.roster().remove(unit_idx));
                if u0.attack is None {
                    assert(self.roster() =~= old(self).roster());
                }
                if u0.attack is Some {
                    assert(resolved(u0, old(self).grid, m0, u@, cells1, mr, u0.attack->0));
                }
            }
        }
    }
}

impl Game {
    /// Selects the next unit of the current team after the selected one,
    /// going round the keys in ascending order; nothing happens while the
    /// selected unit aims, or without a selected unit.
    pub fn select_next(&mut self)
        requires
            old(self).wf(),
        ensures
            final(self).wf(),
            selected_next(*old(self), *final(self)),
    {
        let idx = match self.selected_idx {
            Some(i) => i,
            None => {
                return;
            },
        };
        match roster_get(&self.units, idx) {
            Some(u) => {
                if u.attack.is_some() {
                    return;
                }
            },
            None => {
                return;
            },
        }
        let ghost m = self.roster();
        let t = self.current_team;
        let keys = roster_keys(&self.units);
        let n = keys.len();
        proof {
            assert(keys@.contains(idx));
        }
        let mut p: usize = 0;
        while keys[p] != idx
            invariant
                p < n,
                n == keys@.len(),
                keys@.contains(idx),
                forall|j: int| 0 <= j < p ==> keys@[j] != idx,
            decreases n - p,
        {
            p += 1;
            proof {
                if p == n {
                    let j = choose|j: int| 0 <= j < n && keys@[j] == idx;
                }
            }
        }
        let mut c: usize = 0;
        while c < n
            invariant
                p < n,
                n == keys@.len(),
                keys@[p as int] == idx,
                c <= n,
                m == self.roster(),
                self.wf(),
                self.current_team == t,
                old(self).selected_idx == Some(idx),
                m.contains_key(idx),
                m[idx].attack is None,
                self == old(self),
                forall|a: int, b: int| 0 <= a < b < keys@.len() ==> keys@[a] < keys@[b],
                forall|k: usize| m.contains_key(k) <==> keys@.contains(k),
                forall|d: int| 1 <= d < c + 1 ==> (#[trigger] m[keys@[wrap(p as int, d, n as int)]]).team != t,
            decreases n - c,
        {
            let j = c + 1;
            let q = if j < n - p { p + j } else { j - (n - p) };
            assert(q == wrap(p as int, j as int, n as int));
            let k = keys[q];
            proof {
                assert(keys@.contains(k));
            }
            let u = roster_get(&self.units, k).unwrap();
            if u.team == t {
                proof {
                    assert forall|k2: usize| next_of_team(m, t, idx, k2) implies k2 == k by {
                        assert(keys@.contains(k2));
                        let r = choose|r: int| 0 <= r < n && keys@[r] == k2;
                        let d = if r > p { r - p } else { r + n - p };
                        assert(1 <= d <= n);
                        if d < j {
                            assert(keys@[wrap(p as int, d, n as int)] == k2);
                            assert(m[k2].team != t);
                        } else if d > j {
                            if p + j < n {
                                if r > p {
                                    assert(keys@[q as int] < keys@[r]);
                                    assert(idx < k);
                                } else {
                                    assert(keys@[r] < keys@[p as int] || r == p);
                                }
                            } else {
                                assert(r < p);
                                assert(keys@[q as int] < keys@[r]);
                                assert(q < p);
                                assert(keys@[q as int] < keys@[p as int]);
                            }
                        }
                        assert(d == j);
                    }
                    assert(next_of_team(m, t, idx, k)) by {
                        if idx < k {
                            assert forall|j2: usize| m.contains_key(j2) && idx < j2 < k implies (#[trigger] m[j2]).team != t by {
                                assert(keys@.contains(j2));
                                let r = choose|r: int| 0 <= r < n && keys@[r] == j2;
                                if r <= p {
                                    if r < p {
                                        assert(keys@[r] < keys@[p as int]);
                                    }
                                } else if p + j < n {
                                    if r >= q {
                                        if r > q {
                                            assert(keys@[q as int] < keys@[r]);
                                        }
                                    } else {
                                        assert(m[keys@[wrap(p as int, (r - p), n as int)]].team != t);
                                    }
                                } else {
                                    assert(q < p);
                                    assert(keys@[q as int] < keys@[p as int]);
                                }
                            }
                        } else {
                            assert forall|j2: usize| m.contains_key(j2) && (idx < j2 || j2 < k) implies (#[trigger] m[j2]).team != t by {
                                assert(keys@.contains(j2));
                                let r = choose|r: int| 0 <= r < n && keys@[r] == j2;
                                if idx < j2 {
                                    if r <= p {
                                        if r < p {
                                            assert(keys@[r] < keys@[p as int]);
                                        }
                                    } else {
                                        assert(m[keys@[wrap(p as int, (r - p), n as int)]].team != t);
                                    }
                                } else {
                                    if p + j < n {
                                        if q > p {
                                            assert(keys@[p as int] < keys@[q as int]);
                                        }
                                    }
                                    if r >= q {
                                        if r > q {
                                            assert(keys@[q as int] < keys@[r]);
                                        }
                                    } else if r > p {
                                        assert(keys@[p as int] < keys@[r]);
                                    } else if r == p {
                                    } else {
                                        assert(m[keys@[wrap(p as int, (r + n - p), n as int)]].team != t);
                                    }
                                }
                            }
                        }
                    }
                }
                self.select(k);
                return;
            }
            c += 1;
        }
        proof {
            assert forall|k2: usize| !next_of_team(m, t, idx, k2) by {
                if next_of_team(m, t, idx, k2) {
                    assert(keys@.contains(k2));
                    let r = choose|r: int| 0 <= r < n && keys@[r] == k2;
                    let d = if r > p { r - p } else { r + n - p };
                    assert(keys@[wrap(p as int, d, n as int)] == k2);
                }
            }
        }
    }
}

impl Game {
    /// Unit `unit_idx` takes one step (see `Unit::relocate`); nothing happens
    /// without such a unit.
    pub fn relocate(&mut self, unit_idx: usize, dx: i16, dy: i16)
        requires
            old(self).wf(),
        ensures
            final(self).wf(),
            relocated(*old(self), *final(self), unit_idx, dx, dy),
    {
        if roster_get(&self.units, unit_idx).is_none() {
            return;
        }
        let mut u = match self.take_unit(unit_idx) {
            Some(u) => u,
            None => {
                return;
            },
        };
        let ghost m = old(self).roster();
        proof {
            assert(m.remove(unit_idx).insert(unit_idx, m[unit_idx]) =~= m);
        }
        u.relocate(self, dx, dy);
        proof {
            assert(unit_idx < MAX_KEYS);
        }
        self.put_unit(unit_idx, u);
        proof {
            assert(self.roster().dom() =~= old(self).roster().dom());
            assert(self.roster().remove(unit_idx) =~= m.remove(unit_idx));
            if self.roster()[unit_idx] == m[unit_idx] {
                assert(self.roster() =~= m);
            }
        }
    }

    /// Whether `(x, y)` is a cell of the attack overlay.
    pub fn in_attack_range(&self, x: i16, y: i16) -> (r: bool)
        requires
            self.wf(),
        ensures
            r == (self.grid.in_bounds(x as int, y as int) && self.grid.value_at(self.grid.attack_hi@, x as int, y as int) > 0),
    {
        if !self.grid.is_in_bounds(x, y) {
            return false;
        }
        let xu = x as usize;
        let yu = y as usize;
        let n = self.grid.grid.len();
        proof {
            lemma_index_bounds(self.grid.width as int, self.grid.rows(), xu as int, yu as int);
        }
        self.grid.attack_hi[xu + yu * self.grid.width] > 0
    }
}

impl Game {
    /// Whether some cell of `u` lies in the attack overlay.
    pub fn unit_in_range(&self, u: &Unit) -> (r: bool)
        requires
            self.wf(),
        ensures
            r == in_range(self.grid, *u),
    {
        let mut i: usize = 0;
        while i < u.parts.len()
            invariant
                self.wf(),
                i <= u.parts@.len(),
                forall|j: int| 0 <= j < i ==> !(#[trigger] self.grid.in_bounds(u.parts@[j].0 as int, u.parts@[j].1 as int)
                    && self.grid.value_at(self.grid.attack_hi@, u.parts@[j].0 as int, u.parts@[j].1 as int) > 0),
            decreases u.parts@.len() - i,
        {
            let c = u.parts[i];
            if self.in_attack_range(c.0, c.1) {
                return true;
            }
            i += 1;
        }
        false
    }

    /// While unit `unit_idx` aims, picks its next target among the other
    /// units with a cell in the attack overlay (see `next_target`): the old
    /// target is no longer under attack, the new one is. This is bookkeeping;
    /// what an attack hits is decided by the cursor alone.
    pub fn attack_next(&mut self, unit_idx: usize)
        requires
            old(self).wf(),
        ensures
            final(self).wf(),
            final(self).grid == old(self).grid,
            final(self).selected_idx == old(self).selected_idx,
            final(self).teams == old(self).teams,
            final(self).current_team == old(self).current_team,
            final(self).undo == old(self).undo,
            final(self).roster().dom() == old(self).roster().dom(),
            ({
                let m = old(self).roster();
                let g = old(self).grid;
                let aiming = m.contains_key(unit_idx) && m[unit_idx].attack is Some;
                let from = m[unit_idx].target;
                &&& !aiming ==> final(self).roster() == m
                &&& aiming && (forall|k: usize| !next_target(g, m, unit_idx, from, k)) ==> final(self).roster() == m
                &&& aiming ==> forall|k: usize| #[trigger] next_target(g, m, unit_idx, from, k) ==> {
                    &&& final(self).roster()[unit_idx]@ == (UnitView { target: Some(k), ..m[unit_idx]@ })
                    &&& final(self).roster()[k].under_attack
                    &&& match from {
                        Some(p) => p != k && m.contains_key(p) && p != unit_idx ==> !final(self).roster()[p].under_attack,
                        None => true,
                    }
                }
            }),
    {
        let ghost m = self.roster();
        let mut u = match self.remove_unit(unit_idx) {
            Some(u) => u,
            None => {
                return;
            },
        };
        proof {
            assert(unit_idx < MAX_KEYS);
        }
        if u.attack.is_none() {
            self.insert_unit(unit_idx, u);
            proof {
                assert(self.roster() =~= m);
            }
            return;
        }
        let from = u.target;
        let keys = roster_keys(&self.units);
        let mut first: Option<usize> = None;
        let mut after: Option<usize> = None;
        let mut i: usize = 0;
        while i < keys.len()
            invariant
                self.wf(),
                self.roster() == m.remove(unit_idx),
                self.grid == old(self).grid,
                i <= keys@.len(),
                forall|a: int, b: int| 0 <= a < b < keys@.len() ==> keys@[a] < keys@[b],
                forall|k: usize| self.roster().contains_key(k) <==> keys@.contains(k),
                first matches Some(f0) ==> target_cand(old(self).grid, m, unit_idx, f0)
                    && (i < keys@.len() ==> f0 < keys@[i as int]),
                after matches Some(a0) ==> target_cand(old(self).grid, m, unit_idx, a0) && (from matches Some(f) && f < a0)
                    && (i < keys@.len() ==> a0 < keys@[i as int]),
                forall|j: int| 0 <= j < i && #[trigger] target_cand(old(self).grid, m, unit_idx, keys@[j])
                    ==> (first matches Some(f0) && f0 <= keys@[j]),
                forall|j: int| 0 <= j < i && #[trigger] target_cand(old(self).grid, m, unit_idx, keys@[j])
                    && (from matches Some(f) && f < keys@[j]) ==> (after matches Some(a0) && a0 <= keys@[j]),
            decreases keys@.len() - i,
        {
            let k = keys[i];
            proof {
                assert(keys@.contains(k));
            }
            let t = roster_get(&self.units, k).unwrap();
            let hit = self.unit_in_range(t);
            proof {
                assert(hit == target_cand(old(self).grid, m, unit_idx, k));
            }
            if hit {
                if first.is_none() {
                    first = Some(k);
                }
                let later = match from {
                    Some(f) => f < k,
                    None => false,
                };
                if later && after.is_none() {
                    after = Some(k);
                }
            }
            proof {
                if i + 1 < keys@.len() {
                    assert(keys@[i as int] < keys@[i + 1]);
                }
                assert forall|j: int| 0 <= j < i + 1 && #[trigger] target_cand(old(self).grid, m, unit_idx, keys@[j])
                    implies (first matches Some(f0) && f0 <= keys@[j]) by {
                    if j < i {
                        assert(keys@[j] < keys@[i as int]);
                    }
                }
                assert forall|j: int| 0 <= j < i + 1 && #[trigger] target_cand(old(self).grid, m, unit_idx, keys@[j])
                    && (from matches Some(f) && f < keys@[j]) implies (after matches Some(a0) && a0 <= keys@[j]) by {
                    if j < i {
                        assert(keys@[j] < keys@[i as int]);
                    }
                }
            }
            i += 1;
        }
        let pick = if after.is_some() { after } else { first };
        proof {
            let g = old(self).grid;
            assert forall|j: usize| #[trigger] target_cand(g, m, unit_idx, j) implies keys@.contains(j) by {
                assert(self.roster().contains_key(j));
            }
            assert forall|k: usize| next_target(g, m, unit_idx, from, k) implies pick == Some(k) by {
                assert(keys@.contains(k));
                let jk = choose|jk: int| 0 <= jk < keys@.len() && keys@[jk] == k;
                assert(target_cand(g, m, unit_idx, keys@[jk]));
                match pick {
                    Some(p) => {
                        assert(target_cand(g, m, unit_idx, p));
                        assert(keys@.contains(p));
                        let jp = choose|jp: int| 0 <= jp < keys@.len() && keys@[jp] == p;
                        assert(target_cand(g, m, unit_idx, keys@[jp]));
                    },
                    None => {},
                }
            }
            assert forall|j: usize| #[trigger] target_cand(g, m, unit_idx, j) implies (first matches Some(f0) && f0 <= j)
                && ((from matches Some(f) && f < j) ==> (after matches Some(a0) && a0 <= j)) by {
                assert(keys@.contains(j));
                let jj = choose|jj: int| 0 <= jj < keys@.len() && keys@[jj] == j;
                assert(target_cand(g, m, unit_idx, keys@[jj]));
            }
            match pick {
                Some(p) => {
                    assert(next_target(g, m, unit_idx, from, p));
                },
                None => {},
            }
            if pick is None {
                assert forall|k: usize| !next_target(g, m, unit_idx, from, k) by {
                    if next_target(g, m, unit_idx, from, k) {
                        assert(keys@.contains(k));
                        let jk = choose|jk: int| 0 <= jk < keys@.len() && keys@[jk] == k;
                        assert(target_cand(g, m, unit_idx, keys@[jk]));
                    }
                }
            }
        }
        match pick {
            Some(k) => {
                match from {
                    Some(p) => {
                        if p != k {
                            match self.remove_unit(p) {
                                Some(pu) => {
                                    let mut pu = pu;
                                    pu.under_attack = false;
                                    proof {
                                        assert(p < MAX_KEYS);
                                    }
                                    self.insert_unit(p, pu);
                                },
                                None => {},
                            }
                        }
                    },
                    None => {},
                }
                let mut t = self.remove_unit(k).unwrap();
                t.under_attack = true;
                proof {
                    assert(k < MAX_KEYS);
                }
                self.insert_unit(k, t);
                u.target = Some(k);
            },
            None => {},
        }
        self.insert_unit(unit_idx, u);
        proof {
            assert(self.roster().dom() =~= old(self).roster().dom());
            if pick is None {
                assert(self.roster() =~= m);
            }
        }
    }
}

} // verus!
