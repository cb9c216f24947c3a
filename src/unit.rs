//! Units: chains of cells with a movement budget and a set of attacks.

use std::collections::VecDeque;
use vstd::prelude::*;

use crate::game::{first_at, occupied, snapshot_of, Game};
use crate::grid::{abs_diff, cell_index, lemma_index_bounds, lemma_index_injective, lemma_index_past, lemma_index_rows, reach_value, Cell, Grid, MAX_SIDE};
use crate::roster::MAX_KEYS;

verus! {

/// An attack a unit may make.
#[derive(Copy, Clone, Debug, PartialEq, Eq, Structural)]
pub enum Attack {
    /// Aims at a unit's cell and takes `damage` cells off that unit's tail;
    /// it fails, and the turn is not spent, while the attacker is shorter than
    /// `min_len`.
    UnitTargetting { range: u16, damage: u16, min_len: usize },
    /// Aims at a cell and lays floor there. `full`: it may aim at floor;
    /// `empty`: it may aim at empty cells.
    GroundTargetting { range: u16, full: bool, empty: bool },
}

pub struct Unit {
    /// Occupied cells, head first.
    pub parts: VecDeque<(i16, i16)>,
    pub len_limit: usize,
    pub selected: bool,
    pub moves: u16,
    pub move_limit: u16,
    pub has_attacked: bool,
    pub team: u16,
    /// Index into `attacks` of the attack being aimed.
    pub attack: Option<u16>,
    pub attacks: Vec<Attack>,
    /// Which picture the unit is drawn with.
    pub texture: usize,
    /// Key of the unit this one has picked as its target.
    pub target: Option<usize>,
    /// Whether some unit has picked this one as its target.
    pub under_attack: bool,
}

/// What a unit holds, as plain values.
pub struct UnitView {
    pub parts: Seq<(i16, i16)>,
    pub len_limit: usize,
    pub selected: bool,
    pub moves: u16,
    pub move_limit: u16,
    pub has_attacked: bool,
    pub team: u16,
    pub attack: Option<u16>,
    pub attacks: Seq<Attack>,
    pub texture: usize,
    pub target: Option<usize>,
    pub under_attack: bool,
}

impl View for Unit {
    type V = UnitView;

    open spec fn view(&self) -> UnitView {
        UnitView {
            parts: self.parts@,
            len_limit: self.len_limit,
            selected: self.selected,
            moves: self.moves,
            move_limit: self.move_limit,
            has_attacked: self.has_attacked,
            team: self.team,
            attack: self.attack,
            attacks: self.attacks@,
            texture: self.texture,
            target: self.target,
            under_attack: self.under_attack,
        }
    }
}

/// A coordinate that a board can hold.
pub open spec fn on_board(c: (i16, i16)) -> bool {
    0 <= c.0 < MAX_SIDE && 0 <= c.1 < MAX_SIDE
}

/// The chain after its head steps onto `new`: a cell of the chain moves to
/// the front (a retrace); any other cell is added at the front, and the tail
/// cell is dropped when the chain would exceed `cap`.
pub open spec fn step_chain(parts: Seq<(i16, i16)>, new: (i16, i16), cap: nat) -> Seq<(i16, i16)> {
    if parts.contains(new) {
        seq![new] + parts.remove(choose|i: int| 0 <= i < parts.len() && parts[i] == new)
    } else if parts.len() + 1 > cap {
        (seq![new] + parts).drop_last()
    } else {
        seq![new] + parts
    }
}

/// The chain after `n` cells come off its tail.
pub open spec fn shortened(parts: Seq<(i16, i16)>, n: nat) -> Seq<(i16, i16)> {
    if n >= parts.len() {
        Seq::empty()
    } else {
        parts.subrange(0, parts.len() - n)
    }
}

/// A retrace keeps the chain's length and its cells; a step onto a new cell
/// gives length `min(len + 1, cap)`, for a chain no longer than `cap`.
pub proof fn lemma_step_lengths(parts: Seq<(i16, i16)>, new: (i16, i16), cap: nat)
    requires
        parts.no_duplicates(),
        parts.len() <= cap,
    ensures
        parts.contains(new) ==> step_chain(parts, new, cap).len() == parts.len(),
        parts.contains(new) ==> step_chain(parts, new, cap).to_set() == parts.to_set(),
        !parts.contains(new) ==> step_chain(parts, new, cap).len() == if parts.len() + 1 <= cap {
            parts.len() + 1
        } else {
            cap
        },
{
    if parts.contains(new) {
        let i = choose|i: int| 0 <= i < parts.len() && parts[i] == new;
        let r = step_chain(parts, new, cap);
        assert(r.len() == parts.len());
        assert forall|c| r.to_set().contains(c) <==> parts.to_set().contains(c) by {
            if parts.contains(c) {
                let j = choose|j: int| 0 <= j < parts.len() && parts[j] == c;
                if j < i {
                    assert(r[j + 1] == c);
                } else if j > i {
                    assert(r[j] == c);
                } else {
                    assert(r[0] == c);
                }
            }
            if r.contains(c) {
                let j = choose|j: int| 0 <= j < r.len() && r[j] == c;
                if j == 0 {
                    assert(parts[i] == c);
                } else if j <= i {
                    assert(parts[j - 1] == c);
                } else {
                    assert(parts[j] == c);
                }
            }
        }
        assert(r.to_set() =~= parts.to_set());
    }
}

/// Cell `(x, y)` lies beyond cursor `t` in direction `(dx, dy)`.
pub open spec fn aim_ahead(t: (i16, i16), dx: i16, dy: i16, x: int, y: int) -> bool {
    !((dx == 1 && x <= t.0) || (dx == -1 && x >= t.0) || (dy == 1 && y <= t.1) || (dy == -1 && y >= t.1))
}

/// How far `(x, y)` strays from the line through `t` along the direction,
/// then how far along it lies, then the cell itself: the cursor moves to the
/// cell with the least key.
pub open spec fn aim_key(t: (i16, i16), dy: i16, x: int, y: int) -> (int, int, int, int) {
    if dy == 0 {
        (abs_diff(y, t.1 as int), abs_diff(x, t.0 as int), x, y)
    } else {
        (abs_diff(x, t.0 as int), abs_diff(y, t.1 as int), x, y)
    }
}

/// Lexicographic order of keys.
pub open spec fn key_le(a: (int, int, int, int), b: (int, int, int, int)) -> bool {
    a.0 < b.0 || (a.0 == b.0 && (a.1 < b.1 || (a.1 == b.1 && (a.2 < b.2 || (a.2 == b.2 && a.3 <= b.3)))))
}

/// A cell of the attack overlay the cursor at `t` may move to in direction `(dx, dy)`.
pub open spec fn aim_candidate(g: Grid, t: (i16, i16), dx: i16, dy: i16, x: int, y: int) -> bool {
    g.in_bounds(x, y) && g.value_at(g.attack_hi@, x, y) > 0 && aim_ahead(t, dx, dy, x, y)
}

/// Damage of `n` leaves `max(len - n, 0)` cells.
pub proof fn lemma_damage_length(parts: Seq<(i16, i16)>, n: nat)
    ensures
        shortened(parts, n).len() == if parts.len() >= n { parts.len() - n } else { 0 },
{
}

/// From board `g0` to `g1` the attack cursor moves in direction `(dx, dy)`:
/// to the candidate cell with the least `aim_key`, or, with none, or no
/// cursor, it stays; nothing else changes.
pub open spec fn cursor_moved(g0: Grid, g1: Grid, dx: i16, dy: i16) -> bool {
    &&& g1@ == (crate::grid::GridView { attack_loc: g1.attack_loc, ..g0@ })
    &&& g0.attack_loc is None ==> g1.attack_loc is None
    &&& g0.attack_loc matches Some(t) ==> match g1.attack_loc {
        Some(c) => {
            ||| c == t && forall|x: int, y: int| !aim_candidate(g0, t, dx, dy, x, y)
            ||| aim_candidate(g0, t, dx, dy, c.0 as int, c.1 as int) && forall|x: int, y: int|
                #[trigger] aim_candidate(g0, t, dx, dy, x, y) ==> key_le(
                    aim_key(t, dy, c.0 as int, c.1 as int),
                    aim_key(t, dy, x, y),
                )
        },
        None => false,
    }
}

impl Attack {
    pub open spec fn slice_spec() -> Attack {
        Attack::UnitTargetting { range: 1, damage: 2, min_len: 0 }
    }

    pub open spec fn dice_spec() -> Attack {
        Attack::UnitTargetting { range: 1, damage: 3, min_len: 3 }
    }

    pub open spec fn thump_spec() -> Attack {
        Attack::UnitTargetting { range: 1, damage: 3, min_len: 0 }
    }

    pub open spec fn one_spec() -> Attack {
        Attack::GroundTargetting { range: 3, full: false, empty: true }
    }

    pub open spec fn range_spec(&self) -> u16 {
        match *self {
            Attack::UnitTargetting { range, .. } => range,
            Attack::GroundTargetting { range, .. } => range,
        }
    }

    /// For a ground-targeting attack, its flags `(full, empty)`.
    pub open spec fn ground_spec(&self) -> Option<(bool, bool)> {
        match *self {
            Attack::UnitTargetting { .. } => None,
            Attack::GroundTargetting { full, empty, .. } => Some((full, empty)),
        }
    }

    /// Melee, two cells of damage.
    pub fn slice() -> (r: Attack)
        ensures
            r == Attack::slice_spec(),
    {
        Attack::UnitTargetting { range: 1, damage: 2, min_len: 0 }
    }

    /// Melee, three cells of damage, only for an attacker of three cells or more.
    pub fn dice() -> (r: Attack)
        ensures
            r == Attack::dice_spec(),
    {
        Attack::UnitTargetting { range: 1, damage: 3, min_len: 3 }
    }

    /// Melee, three cells of damage.
    pub fn thump() -> (r: Attack)
        ensures
            r == Attack::thump_spec(),
    {
        Attack::UnitTargetting { range: 1, damage: 3, min_len: 0 }
    }

    /// Lays floor on an empty cell up to three steps away.
    pub fn one() -> (r: Attack)
        ensures
            r == Attack::one_spec(),
    {
        Attack::GroundTargetting { range: 3, full: false, empty: true }
    }

    pub fn range(&self) -> (r: u16)
        ensures
            r == self.range_spec(),
    {
        match *self {
            Attack::UnitTargetting { range, .. } => range,
            Attack::GroundTargetting { range, .. } => range,
        }
    }

    pub fn ground(&self) -> (r: Option<(bool, bool)>)
        ensures
            r == self.ground_spec(),
    {
        match *self {
            Attack::UnitTargetting { .. } => None,
            Attack::GroundTargetting { full, empty, .. } => Some((full, empty)),
        }
    }
}

/// A copy of a chain of cells.
pub fn copy_chain(v: &VecDeque<(i16, i16)>) -> (r: VecDeque<(i16, i16)>)
    ensures
        r@ == v@,
{
    let mut r: VecDeque<(i16, i16)> = VecDeque::new();
    let mut i: usize = 0;
    while i < v.len()
        invariant
            i <= v@.len(),
            r@ == v@.subrange(0, i as int),
        decreases v@.len() - i,
    {
        r.push_back(v[i]);
        i += 1;
        assert(r@ =~= v@.subrange(0, i as int));
    }
    assert(r@ =~= v@);
    r
}

/// A one-cell chain.
fn single(coords: (i16, i16)) -> (r: VecDeque<(i16, i16)>)
    ensures
        r@ == seq![coords],
{
    let mut v: VecDeque<(i16, i16)> = VecDeque::new();
    v.push_back(coords);
    assert(v@ =~= seq![coords]);
    v
}

impl Unit {
    pub open spec fn wf(&self) -> bool {
        &&& self.parts@.len() <= self.len_limit
        &&& self.parts@.no_duplicates()
        &&& forall|i: int| 0 <= i < self.parts@.len() ==> on_board(#[trigger] self.parts@[i])
        &&& self.moves <= self.move_limit
        &&& self.move_limit < u16::MAX
        &&& self.attacks@.len() <= u16::MAX
        &&& forall|i: int| 0 <= i < self.attacks@.len() ==> (#[trigger] self.attacks@[i]).range_spec() < u16::MAX
        &&& (self.attack matches Some(a) ==> a < self.attacks@.len())
    }

    pub open spec fn head(&self) -> (i16, i16) {
        self.parts@[0]
    }

    /// A unit of the given team and attacks, one cell long at `coords`.
    pub open spec fn fresh(&self, coords: (i16, i16), len_limit: usize, moves: u16, team: u16, texture: usize) -> bool {
        &&& self.parts@ == seq![coords]
        &&& self.len_limit == len_limit
        &&& !self.selected
        &&& self.attack.is_none()
        &&& self.moves == moves
        &&& self.move_limit == moves
        &&& !self.has_attacked
        &&& self.team == team
        &&& self.texture == texture
        &&& self.target.is_none()
        &&& !self.under_attack
    }

    /// The unit that a level character spawns, or `None` for a character
    /// that names no unit: `A` and `B` enemies, `1` and `2` players.
    pub fn from_char(c: char, coords: (i16, i16)) -> (r: Option<Unit>)
        requires
            on_board(coords),
        ensures
            r.is_some() <==> (c == 'A' || c == 'B' || c == '1' || c == '2'),
            r matches Some(u) ==> u.wf() && u.parts@ == seq![coords],
            r matches Some(u) ==> u.team == if c == 'A' || c == 'B' { 1u16 } else { 0u16 },
            r matches Some(u) ==> (c == 'A' ==> u.fresh(coords, 5, 1, 1, 3) && u.attacks@ == seq![Attack::thump_spec()]),
            r matches Some(u) ==> (c == 'B' ==> u.fresh(coords, 5, 1, 1, 2) && u.attacks@ == seq![Attack::thump_spec()]),
            r matches Some(u) ==> (c == '1' ==> u.fresh(coords, 4, 3, 0, 1)
                && u.attacks@ == seq![Attack::slice_spec(), Attack::dice_spec()]),
            r matches Some(u) ==> (c == '2' ==> u.fresh(coords, 4, 3, 0, 2)
                && u.attacks@ == seq![Attack::slice_spec(), Attack::dice_spec()]),
    {
        match c {
            'A' => Some(Unit::sample_enemy(coords)),
            'B' => Some(Unit::sample_enemy2(coords)),
            '1' => Some(Unit::sample(coords)),
            '2' => Some(Unit::sample2(coords)),
            _ => None,
        }
    }

    /// A player unit: four cells at most, three moves, slice and dice.
    pub fn sample(coords: (i16, i16)) -> (r: Unit)
        requires
            on_board(coords),
        ensures
            r.wf(),
            r.fresh(coords, 4, 3, 0, 1),
            r.attacks@ == seq![Attack::slice_spec(), Attack::dice_spec()],
    {
        let mut attacks: Vec<Attack> = Vec::new();
        attacks.push(Attack::slice());
        attacks.push(Attack::dice());
        assert(attacks@ =~= seq![Attack::slice_spec(), Attack::dice_spec()]);
        Unit {
            parts: single(coords),
            len_limit: 4,
            selected: false,
            attack: None,
            moves: 3,
            move_limit: 3,
            has_attacked: false,
            team: 0,
            attacks,
            texture: 1,
            target: None,
            under_attack: false,
        }
    }

    /// The second player unit, drawn differently.
    pub fn sample2(coords: (i16, i16)) -> (r: Unit)
        requires
            on_board(coords),
        ensures
            r.wf(),
            r.fresh(coords, 4, 3, 0, 2),
            r.attacks@ == seq![Attack::slice_spec(), Attack::dice_spec()],
    {
        let mut attacks: Vec<Attack> = Vec::new();
        attacks.push(Attack::slice());
        attacks.push(Attack::dice());
        assert(attacks@ =~= seq![Attack::slice_spec(), Attack::dice_spec()]);
        Unit {
            parts: single(coords),
            len_limit: 4,
            selected: false,
            attack: None,
            moves: 3,
            move_limit: 3,
            has_attacked: false,
            team: 0,
            attacks,
            texture: 2,
            target: None,
            under_attack: false,
        }
    }

    /// An enemy unit: five cells at most, one move, thump.
    pub fn sample_enemy(coords: (i16, i16)) -> (r: Unit)
        requires
            on_board(coords),
        ensures
            r.wf(),
            r.fresh(coords, 5, 1, 1, 3),
            r.attacks@ == seq![Attack::thump_spec()],
    {
        let mut attacks: Vec<Attack> = Vec::new();
        attacks.push(Attack::thump());
        assert(attacks@ =~= seq![Attack::thump_spec()]);
        Unit {
            parts: single(coords),
            len_limit: 5,
            selected: false,
            attack: None,
            moves: 1,
            move_limit: 1,
            has_attacked: false,
            team: 1,
            attacks,
            texture: 3,
            target: None,
            under_attack: false,
        }
    }

    /// The second enemy unit, drawn differently.
    pub fn sample_enemy2(coords: (i16, i16)) -> (r: Unit)
        requires
            on_board(coords),
        ensures
            r.wf(),
            r.fresh(coords, 5, 1, 1, 2),
            r.attacks@ == seq![Attack::thump_spec()],
    {
        let mut attacks: Vec<Attack> = Vec::new();
        attacks.push(Attack::thump());
        assert(attacks@ =~= seq![Attack::thump_spec()]);
        Unit {
            parts: single(coords),
            len_limit: 5,
            selected: false,
            attack: None,
            moves: 1,
            move_limit: 1,
            has_attacked: false,
            team: 1,
            attacks,
            texture: 2,
            target: None,
            under_attack: false,
        }
    }

    /// A copy of the unit.
    pub fn duplicate(&self) -> (r: Unit)
        ensures
            r@ == self@,
    {
        Unit {
            parts: copy_chain(&self.parts),
            len_limit: self.len_limit,
            selected: self.selected,
            moves: self.moves,
            move_limit: self.move_limit,
            has_attacked: self.has_attacked,
            team: self.team,
            attack: self.attack,
            attacks: crate::grid::copy_vec(&self.attacks),
            texture: self.texture,
            target: self.target,
            under_attack: self.under_attack,
        }
    }

    fn shorten(&mut self)
        ensures
            final(self)@ == (UnitView { parts: shortened(old(self)@.parts, 1), ..old(self)@ }),
    {
        self.parts.pop_back();
        assert(self.parts@ =~= shortened(old(self)@.parts, 1));
    }

    /// Takes `amount` cells off the tail, down to none.
    pub fn damage(&mut self, amount: u16)
        requires
            old(self).wf(),
        ensures
            final(self).wf(),
            final(self)@ == (UnitView { parts: shortened(old(self)@.parts, amount as nat), ..old(self)@ }),
            final(self).parts@.len() == if old(self).parts@.len() >= amount { old(self).parts@.len() - amount } else { 0 },
    {
        let mut i: u16 = 0;
        assert(self.parts@ =~= shortened(old(self)@.parts, 0));
        while i < amount
            invariant
                i <= amount,
                old(self).wf(),
                self@ == (UnitView { parts: shortened(old(self)@.parts, i as nat), ..old(self)@ }),
            decreases amount - i,
        {
            self.shorten();
            i += 1;
            assert(self.parts@ =~= shortened(old(self)@.parts, i as nat));
        }
        assert forall|j: int, k: int| 0 <= j < k < self.parts@.len() implies self.parts@[j] != self.parts@[k] by {
            assert(self.parts@[j] == old(self).parts@[j] && self.parts@[k] == old(self).parts@[k]);
        }
        assert forall|j: int| 0 <= j < self.parts@.len() implies on_board(#[trigger] self.parts@[j]) by {
            assert(self.parts@[j] == old(self).parts@[j]);
        }
    }

    /// Whether `(x, y)` is one of the unit's cells.
    pub fn occupies(&self, x: i16, y: i16) -> (r: bool)
        ensures
            r == self.parts@.contains((x, y)),
    {
        let mut i: usize = 0;
        while i < self.parts.len()
            invariant
                i <= self.parts@.len(),
                forall|j: int| 0 <= j < i ==> self.parts@[j] != (x, y),
            decreases self.parts@.len() - i,
        {
            let p = self.parts[i];
            if p.0 == x && p.1 == y {
                return true;
            }
            i += 1;
        }
        false
    }

    /// Where `(x, y)` stands in the chain, if it does.
    pub fn position(&self, x: i16, y: i16) -> (r: Option<usize>)
        ensures
            r matches Some(i) ==> i < self.parts@.len() && self.parts@[i as int] == (x, y),
            r is None <==> !self.parts@.contains((x, y)),
    {
        let mut i: usize = 0;
        while i < self.parts.len()
            invariant
                i <= self.parts@.len(),
                forall|j: int| 0 <= j < i ==> self.parts@[j] != (x, y),
            decreases self.parts@.len() - i,
        {
            let p = self.parts[i];
            if p.0 == x && p.1 == y {
                return Some(i);
            }
            i += 1;
        }
        None
    }
}

impl Unit {
    pub fn is_player(&self, game: &Game) -> (r: bool)
        ensures
            r == (game.current_team == self.team),
    {
        game.current_team == self.team
    }

    /// Recomputes the overlays for this unit, which is out of the game's map:
    /// the attack overlay from its head while it aims, else the movement
    /// overlay for its budget and the reachable-from marker at its head, if it
    /// has moves left. A unit with no cells changes nothing.
    pub fn highlight(&self, game: &mut Game)
        requires
            self.wf(),
            old(game).wf(),
        ensures
            final(game).wf(),
            final(game).same_but_overlays(old(game)),
            self.parts@.len() > 0 ==> final(game).shows(self, old(game).open_cells()),
            self.parts@.len() == 0 ==> final(game).grid@ == old(game).grid@,
    {
        if self.parts.len() == 0 {
            return;
        }
        game.clear_highlight();
        let head = self.parts[0];
        proof {
            assert(on_board(self.parts@[0]));
        }
        match self.attack {
            Some(a) => {
                let atk = self.attacks[a as usize];
                proof {
                    assert(self.attacks@[a as int].range_spec() < u16::MAX);
                }
                let ghost mid = game.grid;
                game.grid.compute_attack(head.0, head.1, atk.range(), atk.ground());
                proof {
                    let g = game.grid;
                    assert forall|x: int, y: int| #![trigger g.value_at(g.attack_hi@, x, y)]
                        g.in_bounds(x, y) implies g.value_at(g.attack_hi@, x, y) == g.attack_value(
                            atk.ground_spec(), (head.0 as int, head.1 as int), (x, y), atk.range_spec() as int) by {
                        assert(mid.in_bounds(x, y));
                        assert(mid.attack_value(atk.ground_spec(), (head.0 as int, head.1 as int), (x, y), atk.range_spec() as int)
                            == g.attack_value(atk.ground_spec(), (head.0 as int, head.1 as int), (x, y), atk.range_spec() as int));
                    }
                }
            },
            None => {
                let open = game.open_mask();
                let ghost mid = game.grid;
                game.grid.compute_movement(&open, head.0, head.1, self.moves);
                assert(game.grid.rows() == mid.rows());
                let ghost after = game.grid;
                if self.moves == 0 {
                    game.grid.player_pos = None;
                } else {
                    game.grid.player_pos = Some(head);
                }
                proof {
                    assert(open@ == old(game).open_cells());
                    let g = game.grid;
                    assert forall|x: int, y: int| #![trigger g.value_at(g.highlight@, x, y)]
                        g.in_bounds(x, y) implies g.value_at(g.highlight@, x, y) == reach_value(
                            old(game).open_cells(), g.width as int, g.rows(), (head.0 as int, head.1 as int), (x, y), self.moves as nat) by {
                        assert(mid.in_bounds(x, y));
                        assert(after.in_bounds(x, y));
                        assert(after.value_at(after.highlight@, x, y) == g.value_at(g.highlight@, x, y));
                    }
                }
            },
        }
    }

    /// Stops aiming and shows the movement overlay again.
    pub fn leave_attack(&mut self, game: &mut Game)
        requires
            old(self).wf(),
            old(game).wf(),
        ensures
            final(self).wf(),
            final(self)@ == (UnitView { attack: None, ..old(self)@ }),
            final(game).wf(),
            final(game).grid.attack_loc.is_none(),
            final(game).grid.grid@ == old(game).grid.grid@,
            final(game).grid.width == old(game).grid.width,
            final(game).units == old(game).units,
            final(game).selected_idx == old(game).selected_idx,
            final(game).teams == old(game).teams,
            final(game).current_team == old(game).current_team,
            final(game).done == old(game).done,
            final(game).undo == old(game).undo,
            final(game).acting == old(game).acting,
            final(game).frame == old(game).frame,
            old(self).parts@.len() > 0 ==> final(game).shows(final(self), old(game).open_cells()),
    {
        self.attack = None;
        game.grid.attack_loc = None;
        self.highlight(game);
    }

    /// Starts aiming attack `slot` from the head, with the cursor on the head.
    /// Nothing happens if the unit already attacked this turn, has no such
    /// attack or no cells.
    pub fn attack(&mut self, game: &mut Game, slot: u16)
        requires
            old(self).wf(),
            old(game).wf(),
        ensures
            final(self).wf(),
            final(game).wf(),
            final(game).grid.grid@ == old(game).grid.grid@,
            final(game).units == old(game).units,
            final(game).selected_idx == old(game).selected_idx,
            final(game).undo == old(game).undo,
            final(game).acting == old(game).acting,
            final(game).teams == old(game).teams,
            final(game).current_team == old(game).current_team,
            final(game).done == old(game).done,
            final(game).frame == old(game).frame,
            final(game).grid.width == old(game).grid.width,
            ({
                let ok = !old(self).has_attacked && slot < old(self).attacks@.len() && old(self).parts@.len() > 0;
                &&& ok ==> final(self)@ == (UnitView { attack: Some(slot), ..old(self)@ })
                &&& ok ==> final(game).grid.attack_loc == Some(old(self).head())
                &&& ok ==> final(game).shows(final(self), old(game).open_cells())
                &&& !ok ==> *final(self) == *old(self) && *final(game) == *old(game)
            }),
    {
        if self.has_attacked || slot as usize >= self.attacks.len() || self.parts.len() == 0 {
            return;
        }
        game.clear_highlight();
        self.attack = Some(slot);
        game.grid.attack_loc = Some(self.parts[0]);
        self.highlight(game);
    }

    /// One cardinal step of the head. While aiming, moves the cursor instead.
    /// The step is taken only with moves left, onto a cell that no other unit
    /// holds and that is passable; the first step of a turn saves the game
    /// first. A step onto the unit's own chain brings that cell to the front;
    /// another step adds a cell at the front and drops the tail beyond the
    /// cap. Every other case changes nothing.
    pub fn relocate(&mut self, game: &mut Game, dx: i16, dy: i16)
        requires
            old(self).wf(),
            old(game).wf(),
        ensures
            final(self).wf(),
            final(game).wf(),
            final(game).units == old(game).units,
            final(game).acting == old(game).acting,
            final(game).teams == old(game).teams,
            final(game).current_team == old(game).current_team,
            final(game).selected_idx == old(game).selected_idx,
            final(game).frame == old(game).frame,
            final(game).grid.grid@ == old(game).grid.grid@,
            final(game).grid.width == old(game).grid.width,
            old(self).attack.is_some() ==> *final(self) == *old(self) && final(game).undo == old(game).undo
                && final(game).done == old(game).done
                && cursor_moved(old(game).grid, final(game).grid, dx, dy),
            ({
                let new = (old(self).head().0 + dx, old(self).head().1 + dy);
                let ok = old(self).attack.is_none() && old(self).moves > 0 && old(self).parts@.len() > 0
                    && ((dx == 0 && (dy == 1 || dy == -1)) || (dy == 0 && (dx == 1 || dx == -1)))
                    && old(game).open_cell(new.0, new.1);
                &&& ok ==> final(self)@ == (UnitView {
                    parts: step_chain(old(self).parts@, (new.0 as i16, new.1 as i16), old(self).len_limit as nat),
                    moves: (old(self).moves - 1) as u16,
                    ..old(self)@
                })
                &&& ok ==> final(game).done
                &&& ok ==> final(game).grid.attack_loc == old(game).grid.attack_loc
                &&& ok ==> final(game).shows(final(self), old(game).open_cells())
                &&& ok && !old(game).done ==> final(game).undo@.len() == old(game).undo@.len() + 1
                    && final(game).undo@.drop_last() == old(game).undo@
                    && snapshot_of(final(game).undo@.last(), old(game).grid, old(game).with_acting(*old(self)), old(game).selected_idx)
                &&& ok && old(game).done ==> final(game).undo == old(game).undo
                &&& !ok && old(self).attack.is_none() ==> *final(self) == *old(self) && *final(game) == *old(game)
            }),
    {
        if self.attack.is_some() {
            self.move_target(game, dx, dy);
            return;
        }
        if self.moves == 0 || self.parts.len() == 0 {
            return;
        }
        if !((dx == 0 && (dy == 1 || dy == -1)) || (dy == 0 && (dx == 1 || dx == -1))) {
            return;
        }
        let head = self.parts[0];
        proof {
            assert(on_board(self.parts@[0]));
        }
        let new = (head.0 + dx, head.1 + dy);
        if !game.is_valid(new.0, new.1) {
            return;
        }
        if !game.done {
            game.save_with(self.duplicate());
            game.done = true;
        }
        let ghost before = self.parts@;
        match self.position(new.0, new.1) {
            Some(i) => {
                let v = self.parts.remove(i).unwrap();
                self.parts.push_front(v);
                proof {
                    let j = choose|j: int| 0 <= j < before.len() && before[j] == new;
                    assert(j == i);
                    assert(self.parts@ =~= step_chain(before, new, self.len_limit as nat));
                }
            },
            None => {
                self.parts.push_front(new);
                if self.parts.len() > self.len_limit {
                    self.shorten();
                }
                proof {
                    assert(self.parts@ =~= step_chain(before, new, self.len_limit as nat));
                }
            },
        }
        self.moves -= 1;
        proof {
            lemma_step_keeps_wf(before, new, self.len_limit as nat);
        }
        self.highlight(game);
    }
}

impl Unit {
    /// Moves the attack cursor to the in-range cell ahead in direction
    /// `(dx, dy)` with the least `aim_key`; with no such cell, or no cursor, it
    /// stays.
    fn move_target(&self, game: &mut Game, dx: i16, dy: i16)
        requires
            old(game).wf(),
        ensures
            final(game).wf(),
            final(game).units == old(game).units,
            final(game).acting == old(game).acting,
            final(game).teams == old(game).teams,
            final(game).current_team == old(game).current_team,
            final(game).selected_idx == old(game).selected_idx,
            final(game).undo == old(game).undo,
            final(game).done == old(game).done,
            final(game).frame == old(game).frame,
            cursor_moved(old(game).grid, final(game).grid, dx, dy),
    {
        let t = match game.grid.attack_loc {
            Some(t) => t,
            None => {
                return;
            },
        };
        let ghost g = game.grid;
        let w = game.grid.width;
        let h = game.grid.height();
        let n = game.grid.grid.len();
        assert(n == w * h) by (nonlinear_arith)
            requires n == w * h;
        let mut best: Option<(i16, i16)> = None;
        let mut bk: (i32, i32, i32, i32) = (0, 0, 0, 0);
        let mut i: usize = 0;
        let mut x: usize = 0;
        let mut y: usize = 0;
        while i < n
            invariant
                g == game.grid,
                g.wf(),
                n == g.grid@.len(),
                n == w * h,
                w == g.width,
                h == g.rows(),
                i <= n,
                i == cell_index(w as int, x as int, y as int),
                x < w || i == n,
                best matches Some(c) ==> aim_candidate(g, t, dx, dy, c.0 as int, c.1 as int)
                    && (bk.0 as int, bk.1 as int, bk.2 as int, bk.3 as int) == aim_key(t, dy, c.0 as int, c.1 as int),
                forall|x2: int, y2: int| #[trigger] aim_candidate(g, t, dx, dy, x2, y2) && cell_index(w as int, x2, y2) < i
                    ==> (best matches Some(c) && key_le(aim_key(t, dy, c.0 as int, c.1 as int), aim_key(t, dy, x2, y2))),
            decreases n - i,
        {
            proof {
                if y >= h {
                    lemma_index_past(w as int, h as int, x as int, y as int);
                }
            }
            let v = game.grid.attack_hi[i];
            let xi = x as i16;
            let yi = y as i16;
            let ahead = !((dx == 1 && xi <= t.0) || (dx == -1 && xi >= t.0) || (dy == 1 && yi <= t.1) || (dy == -1 && yi >= t.1));
            if v > 0 && ahead {
                let ax: i32 = if (x as i32) >= (t.0 as i32) { x as i32 - t.0 as i32 } else { t.0 as i32 - x as i32 };
                let ay: i32 = if (y as i32) >= (t.1 as i32) { y as i32 - t.1 as i32 } else { t.1 as i32 - y as i32 };
                let k: (i32, i32, i32, i32) = if dy == 0 { (ay, ax, x as i32, y as i32) } else { (ax, ay, x as i32, y as i32) };
                let better = match best {
                    None => true,
                    Some(_) => k.0 < bk.0 || (k.0 == bk.0 && (k.1 < bk.1 || (k.1 == bk.1 && (k.2 < bk.2 || (k.2 == bk.2 && k.3 < bk.3))))),
                };
                proof {
                    assert(aim_candidate(g, t, dx, dy, x as int, y as int));
                }
                if better {
                    best = Some((xi, yi));
                    bk = k;
                }
            }
            proof {
                assert forall|x2: int, y2: int| #[trigger] aim_candidate(g, t, dx, dy, x2, y2) && cell_index(w as int, x2, y2) < i + 1
                    implies (best matches Some(c) && key_le(aim_key(t, dy, c.0 as int, c.1 as int), aim_key(t, dy, x2, y2))) by {
                    if cell_index(w as int, x2, y2) == i {
                        lemma_index_injective(w as int, x2, y2, x as int, y as int);
                    }
                }
            }
            i += 1;
            if x + 1 < w {
                x += 1;
            } else {
                proof { lemma_index_rows(w as int, 0, y as int); }
                x = 0;
                y += 1;
            }
        }
        proof {
            assert forall|x2: int, y2: int| #[trigger] aim_candidate(g, t, dx, dy, x2, y2)
                implies (best matches Some(c) && key_le(aim_key(t, dy, c.0 as int, c.1 as int), aim_key(t, dy, x2, y2))) by {
                lemma_index_bounds(w as int, h as int, x2, y2);
            }
        }
        match best {
            Some(c) => {
                game.grid.attack_loc = Some(c);
            },
            None => {},
        }
    }
}

/// The unit after an attack that took its turn: no moves, has attacked, not aiming.
pub open spec fn spent(u: UnitView) -> UnitView {
    UnitView { moves: 0, has_attacked: true, attack: None, ..u }
}

/// What firing attack `a` of `u0` on board `g0` among the units `m0` leaves:
/// the unit `u1`, the board cells `cells1` and the units `m1`.
///
/// A unit-targeting attack strikes the unit with the least key that has a
/// cell at the cursor, or else the attacker itself if it has one there; the
/// struck unit loses `damage` tail cells and leaves the map at length 0. A
/// ground-targeting attack lays floor at the cursor if it accepts that cell.
/// An attack that lands spends the attacker's turn.
pub open spec fn resolved(
    u0: Unit,
    g0: Grid,
    m0: Map<usize, Unit>,
    u1: UnitView,
    cells1: Seq<Cell>,
    m1: Map<usize, Unit>,
    a: u16,
) -> bool {
    match g0.attack_loc {
        None => u1 == (UnitView { attack: None, ..u0@ }) && m1 == m0 && cells1 == g0.grid@,
        Some(c) => match u0.attacks@[a as int] {
            Attack::UnitTargetting { damage, min_len, .. } => {
                let hit = u0.parts@.len() >= min_len;
                &&& cells1 == g0.grid@
                &&& if occupied(m0, c) {
                    let k = choose|k: usize| first_at(m0, c, k);
                    let left = shortened(m0[k].parts@, damage as nat);
                    &&& first_at(m0, c, k)
                    &&& u1 == if hit { spent(u0@) } else { UnitView { attack: None, ..u0@ } }
                    &&& !hit ==> m1 == m0
                    &&& hit && left.len() == 0 ==> m1 == m0.remove(k)
                    &&& hit && left.len() > 0 ==> m1.remove(k) == m0.remove(k) && m1.contains_key(k)
                        && m1[k]@ == (UnitView { parts: left, ..m0[k]@ })
                } else {
                    &&& m1 == m0
                    &&& u1 == if hit && u0.parts@.contains(c) {
                        spent(UnitView { parts: shortened(u0.parts@, damage as nat), ..u0@ })
                    } else {
                        UnitView { attack: None, ..u0@ }
                    }
                }
            },
            Attack::GroundTargetting { full, empty, .. } => {
                &&& m1 == m0
                &&& if g0.accepts(Some((full, empty)), c.0 as int, c.1 as int) {
                    &&& cells1 == g0.grid@.update(cell_index(g0.width as int, c.0 as int, c.1 as int), Cell::Floor)
                    &&& u1 == spent(u0@)
                } else {
                    &&& cells1 == g0.grid@
                    &&& u1 == (UnitView { attack: None, ..u0@ })
                }
            },
        },
    }
}

impl Unit {
    /// Resolves the attack being aimed at the cursor (see `resolved`), then
    /// stops aiming and redraws the overlays. Without an attack being aimed,
    /// nothing happens.
    pub fn fire(&mut self, game: &mut Game)
        requires
            old(self).wf(),
            old(game).wf(),
        ensures
            final(self).wf(),
            final(game).wf(),
            final(game).grid.grid@.len() == old(game).grid.grid@.len(),
            final(game).grid.width == old(game).grid.width,
            final(game).selected_idx == old(game).selected_idx,
            final(game).teams == old(game).teams,
            final(game).current_team == old(game).current_team,
            final(game).done == old(game).done,
            final(game).undo == old(game).undo,
            final(game).acting == old(game).acting,
            final(game).frame == old(game).frame,
            old(self).attack is None ==> *final(self) == *old(self) && final(game).grid@ == old(game).grid@
                && final(game).units == old(game).units,
            forall|k: usize| #[trigger] final(game).roster().contains_key(k) ==> old(game).roster().contains_key(k),
            old(self).attack matches Some(a) ==> {
                &&& resolved(*old(self), old(game).grid, old(game).roster(), final(self)@, final(game).grid.grid@, final(game).roster(), a)
                &&& final(game).grid.attack_loc is None
                &&& final(self).parts@.len() > 0 ==> final(game).shows(final(self), final(game).open_cells())
            },
    {
        let a = match self.attack {
            Some(a) => a,
            None => {
                return;
            },
        };
        match game.grid.attack_loc {
            Some(c) => {
                let atk = self.attacks[a as usize];
                match atk {
                    Attack::UnitTargetting { damage, min_len, .. } => {
                        let hit = self.parts.len() >= min_len;
                        match game.unit_at(c) {
                            Some(k) => {
                                proof {
                                    assert(occupied(old(game).roster(), c));
                                    let k2 = choose|k2: usize| first_at(old(game).roster(), c, k2);
                                    if k2 < k {
                                        assert(!old(game).roster()[k2].parts@.contains(c));
                                    } else if k < k2 {
                                        assert(!old(game).roster()[k].parts@.contains(c));
                                    }
                                }
                                if hit {
                                    let mut t = game.remove_unit(k).unwrap();
                                    proof {
                                        assert(k < MAX_KEYS);
                                    }
                                    t.damage(damage);
                                    if t.parts.len() > 0 {
                                        game.insert_unit(k, t);
                                        proof {
                                            assert(game.roster().remove(k) =~= old(game).roster().remove(k));
                                        }
                                    }
                                    self.moves = 0;
                                    self.has_attacked = true;
                                }
                            },
                            None => {
                                if hit && self.occupies(c.0, c.1) {
                                    self.damage(damage);
                                    self.moves = 0;
                                    self.has_attacked = true;
                                }
                            },
                        }
                    },
                    Attack::GroundTargetting { full, empty, .. } => {
                        if game.grid.is_in_bounds(c.0, c.1) {
                            let cell = game.grid.cell_at(c.0, c.1);
                            if (full || cell != Cell::Floor) && (empty || cell != Cell::Empty) {
                                game.grid.set_floor(c.0, c.1);
                                self.moves = 0;
                                self.has_attacked = true;
                            }
                        }
                    },
                }
            },
            None => {},
        }
        let ghost u1 = (UnitView { attack: None, ..self@ });
        let ghost g1 = *game;
        self.leave_attack(game);
        proof {
            assert(self@ == u1);
            assert(game.roster() == g1.roster());
        }
    }
}

/// A step keeps the chain free of repeats, on the board and within its cap.
pub proof fn lemma_step_keeps_wf(parts: Seq<(i16, i16)>, new: (i16, i16), cap: nat)
    requires
        parts.no_duplicates(),
        parts.len() <= cap,
        on_board(new),
        forall|i: int| 0 <= i < parts.len() ==> on_board(#[trigger] parts[i]),
    ensures
        step_chain(parts, new, cap).no_duplicates(),
        step_chain(parts, new, cap).len() <= cap,
        forall|i: int| 0 <= i < step_chain(parts, new, cap).len() ==> on_board(#[trigger] step_chain(parts, new, cap)[i]),
{
    lemma_step_lengths(parts, new, cap);
    let r = step_chain(parts, new, cap);
    if parts.contains(new) {
        let j = choose|j: int| 0 <= j < parts.len() && parts[j] == new;
        assert forall|a: int, b: int| 0 <= a < b < r.len() implies r[a] != r[b] by {
            let pa = if a == 0 { j } else if a - 1 < j { a - 1 } else { a };
            let pb = if b - 1 < j { b - 1 } else { b };
            assert(r[a] == parts[pa]);
            assert(r[b] == parts[pb]);
        }
        assert forall|i: int| 0 <= i < r.len() implies on_board(#[trigger] r[i]) by {
            if i > 0 {
                if i - 1 < j {
                    assert(r[i] == parts[i - 1]);
                } else {
                    assert(r[i] == parts[i]);
                }
            }
        }
    } else {
        assert forall|a: int, b: int| 0 <= a < b < r.len() implies r[a] != r[b] by {
            if a == 0 {
                assert(r[b] == parts[b - 1]);
            } else {
                assert(r[a] == parts[a - 1] && r[b] == parts[b - 1]);
            }
        }
        assert forall|i: int| 0 <= i < r.len() implies on_board(#[trigger] r[i]) by {
            if i > 0 {
                assert(r[i] == parts[i - 1]);
            }
        }
    }
}

} // verus!
