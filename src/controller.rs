//! Controllers: who issues the commands of each team.

use vstd::prelude::*;
use vstd::string::StringSliceAdditionalSpecFns;

use crate::game::{attacked, fired, relocated, selected_next, team_ended, undone, Game, Team};
use crate::unit::{Attack, Unit};
use crate::grid::{Grid, MAX_SIDE, abs_diff, cell_index, lemma_index_bounds, lemma_index_injective, lemma_index_past, lemma_index_rows};
use crate::roster::{MAX_KEYS, roster_get, roster_keys};

verus! {

/// Ticks the computer waits between two of its actions.
pub const AI_DELAY: u16 = 9;

/// A command from the input collaborator.
#[derive(Copy, Clone, Debug, PartialEq, Eq, Structural)]
pub enum Command {
    Up,
    Down,
    Left,
    Right,
    /// Select the team's next unit.
    CycleSelection,
    /// Give every unit its moves and its attack back.
    ResetMoves,
    /// Start or stop aiming the attack in this slot.
    Attack(u16),
    Fire,
    EndTurn,
    Undo,
    /// A click on cell `(x, y)`.
    Click(i16, i16),
}

/// What drives a team: the local player's input or the computer's clock.
/// Each handler gets the game while its team is the current one.
pub trait Controller {
    fn handle_command(&mut self, game: &mut Game, cmd: Command)
        requires
            old(game).wf(),
        ensures
            final(game).wf(),
    ;

    fn handle_pointer(&mut self, game: &mut Game, x: i16, y: i16)
        requires
            old(game).wf(),
        ensures
            final(game).wf(),
    ;

    fn handle_frame(&mut self, game: &mut Game)
        requires
            old(game).wf(),
        ensures
            final(game).wf(),
    ;

    fn is_local_controlled(&self) -> bool;
}

/// Stands in for a team's controller while that controller runs.
pub struct DummyController;

/// Commands from a local player.
pub struct LocalController;

/// The computer opponent.
pub struct AiController {
    pub delay: u16,
    /// Cells of the opposing units and the key of the unit they belong to.
    pub enemy_positions: Vec<(i16, i16, usize)>,
    /// Steps to the chosen destination, last step first.
    pub path: Option<Vec<(i16, i16)>>,
}

/// The controller bound to a team.
pub enum TeamController {
    Local(LocalController),
    Ai(AiController),
    Dummy(DummyController),
}

/// How far the nearest enemy cell is from `(x, y)`, less `range`, and at
/// least 0; 0 with no enemy cell.
pub open spec fn ai_score(enemies: Seq<(i16, i16, usize)>, range: int, x: int, y: int) -> int
    decreases enemies.len(),
{
    if enemies.len() == 0 {
        0
    } else {
        let e = enemies.last();
        let d = abs_diff(x, e.0 as int) + abs_diff(y, e.1 as int) - range;
        let here = if d > 0 { d } else { 0 };
        if enemies.len() == 1 {
            here
        } else {
            let rest = ai_score(enemies.drop_last(), range, x, y);
            if here < rest { here } else { rest }
        }
    }
}

/// Unit `k` of game `g` is on the current team and has its head at `(x, y)`.
pub open spec fn head_at(g: Game, k: usize, x: i16, y: i16) -> bool {
    &&& g.roster().contains_key(k)
    &&& g.roster()[k].parts@.len() > 0
    &&& g.roster()[k].parts@[0] == (x, y)
    &&& g.roster()[k].team == g.current_team
}

/// Game `n` is game `o` after a click on `(x, y)`: with no cursor, a click on
/// the head of a unit of the current team selects it (the greatest such
/// key); else the selected unit, if it aims, fires at an in-range cell, or,
/// if not, steps onto a cell next to its head; anything else changes nothing.
pub open spec fn clicked(o: Game, n: Game, x: i16, y: i16) -> bool {
    let m = o.roster();
    if o.grid.attack_loc is None && exists|k: usize| head_at(o, k, x, y) {
        forall|k: usize| #[trigger] head_at(o, k, x, y) && (forall|j: usize| #[trigger] head_at(o, j, x, y) ==> j <= k)
            ==> n.selected_idx == Some(k) && n.roster()[k].selected
    } else {
        match o.selected_idx {
            Some(i) => if m.contains_key(i) && m[i].parts@.len() > 0 {
                let h = m[i].parts@[0];
                if m[i].attack is Some {
                    if o.grid.in_bounds(x as int, y as int) && o.grid.value_at(o.grid.attack_hi@, x as int, y as int) > 0 {
                        fired(Game { grid: Grid { attack_loc: Some((x, y)), ..o.grid }, ..o }, n, i)
                    } else {
                        n == o
                    }
                } else if (x == h.0 + 1 && y == h.1) || (x == h.0 - 1 && y == h.1) || (x == h.0 && y == h.1 + 1)
                    || (x == h.0 && y == h.1 - 1) {
                    relocated(o, n, i, (x - h.0) as i16, (y - h.1) as i16)
                } else {
                    n == o
                }
            } else {
                n == o
            },
            None => n == o,
        }
    }
}

/// Game `n` is game `o` after the pointer moved over `(x, y)`: while the
/// selected unit aims, the cursor goes there if it is in range; nothing else
/// changes.
pub open spec fn pointed(o: Game, n: Game, x: i16, y: i16) -> bool {
    let aiming = match o.selected_idx {
        Some(k) => o.roster().contains_key(k) && o.roster()[k].attack is Some,
        None => false,
    };
    let hit = o.grid.in_bounds(x as int, y as int) && o.grid.value_at(o.grid.attack_hi@, x as int, y as int) > 0;
    if aiming && hit {
        n == (Game { grid: Grid { attack_loc: Some((x, y)), ..o.grid }, ..o })
    } else {
        n == o
    }
}

/// Game `n` is game `o` after the selected unit, if it is the current
/// team's and marked selected, steps by `(dx, dy)` as `Game::relocate` says.
pub open spec fn moved(o: Game, n: Game, dx: i16, dy: i16) -> bool {
    let m = o.roster();
    match o.selected_idx {
        Some(k) => if m.contains_key(k) && m[k].team == o.current_team && m[k].selected {
            relocated(o, n, k, dx, dy)
        } else {
            n == o
        },
        None => n == o,
    }
}

/// Game `n` is game `o` after the local player's command `cmd`, each as the
/// `Game` method it stands for says.
pub open spec fn commanded(o: Game, n: Game, cmd: Command) -> bool {
    let m = o.roster();
    match cmd {
        Command::Up => moved(o, n, 0, (-1) as i16),
        Command::Down => moved(o, n, 0, 1),
        Command::Left => moved(o, n, (-1) as i16, 0),
        Command::Right => moved(o, n, 1, 0),
        Command::CycleSelection => selected_next(o, n),
        Command::ResetMoves => {
            &&& n.teams == o.teams
            &&& n.roster().dom() == m.dom()
            &&& forall|k: usize| #[trigger] n.roster().contains_key(k) ==> {
                &&& n.roster()[k].moves == n.roster()[k].move_limit
                &&& !n.roster()[k].has_attacked
            }
        },
        Command::Attack(slot) => attacked(o, n, match o.selected_idx { Some(i) => i, None => 0 }, slot),
        Command::Fire => match o.selected_idx {
            Some(i) => fired(o, n, i),
            None => n == o,
        },
        Command::EndTurn => team_ended(o, n),
        Command::Undo => undone(o, n),
        Command::Click(x, y) => clicked(o, n, x, y),
    }
}

impl DummyController {
    pub fn is_local_controlled(&self) -> (r: bool)
        ensures
            !r,
    {
        false
    }
}

impl LocalController {
    pub fn is_local_controlled(&self) -> (r: bool)
        ensures
            r,
    {
        true
    }

    /// Carries out a command of the local player.
    pub fn handle_command(&mut self, game: &mut Game, cmd: Command)
        requires
            old(game).wf(),
        ensures
            final(game).wf(),
            commanded(*old(game), *final(game), cmd),
    {
        match cmd {
            Command::Up => {
                self.step(game, 0, -1);
            },
            Command::Down => {
                self.step(game, 0, 1);
            },
            Command::Left => {
                self.step(game, -1, 0);
            },
            Command::Right => {
                self.step(game, 1, 0);
            },
            Command::CycleSelection => {
                game.select_next();
            },
            Command::ResetMoves => {
                let keys = roster_keys(&game.units);
                let ghost dom0 = game.roster().dom();
                let mut i: usize = 0;
                while i < keys.len()
                    invariant
                        game.wf(),
                        game.teams == old(game).teams,
                        game.roster().dom() == dom0,
                        dom0 == old(game).roster().dom(),
                        i <= keys@.len(),
                        forall|a: int, b: int| 0 <= a < b < keys@.len() ==> keys@[a] < keys@[b],
                        forall|k: usize| dom0.contains(k) <==> keys@.contains(k),
                        forall|j: int| 0 <= j < i ==> {
                            &&& (#[trigger] game.roster()[keys@[j]]).moves == game.roster()[keys@[j]].move_limit
                            &&& !game.roster()[keys@[j]].has_attacked
                        },
                    decreases keys@.len() - i,
                {
                    let k = keys[i];
                    proof {
                        assert(keys@.contains(k));
                    }
                    let mut u = game.remove_unit(k).unwrap();
                    u.moves = u.move_limit;
                    u.has_attacked = false;
                    proof {
                        assert(k < MAX_KEYS);
                    }
                    game.insert_unit(k, u);
                    proof {
                        assert(game.roster().dom() =~= dom0);
                        assert forall|j: int| 0 <= j < i + 1 implies {
                            &&& (#[trigger] game.roster()[keys@[j]]).moves == game.roster()[keys@[j]].move_limit
                            &&& !game.roster()[keys@[j]].has_attacked
                        } by {
                            if j < i {
                                assert(keys@[j] < keys@[i as int]);
                            }
                        }
                    }
                    i += 1;
                }
                proof {
                    assert forall|k: usize| #[trigger] game.roster().contains_key(k) implies {
                        &&& game.roster()[k].moves == game.roster()[k].move_limit
                        &&& !game.roster()[k].has_attacked
                    } by {
                        assert(keys@.contains(k));
                        let j = choose|j: int| 0 <= j < keys@.len() && keys@[j] == k;
                        assert(game.roster()[keys@[j]].moves == game.roster()[keys@[j]].move_limit);
                    }
                }
                let idx = match game.selected_idx {
                    Some(i) => i,
                    None => 0,
                };
                let ghost before = game.roster();
                game.select(idx);
                proof {
                    assert forall|k: usize| #[trigger] game.roster().contains_key(k) implies {
                        &&& game.roster()[k].moves == game.roster()[k].move_limit
                        &&& !game.roster()[k].has_attacked
                    } by {
                        assert(before.contains_key(k));
                    }
                }
                assert(game.roster().dom() =~= old(game).roster().dom());
            },
            Command::Attack(slot) => {
                let idx = match game.selected_idx {
                    Some(i) => i,
                    None => 0,
                };
                game.attack(idx, slot);
            },
            Command::Fire => {
                match game.selected_idx {
                    Some(idx) => {
                        game.fire(idx);
                    },
                    None => {},
                }
            },
            Command::EndTurn => {
                game.next_team();
            },
            Command::Undo => {
                game.undo();
            },
            Command::Click(x, y) => {
                self.click(game, x, y);
            },
        }
    }

    /// A click on cell `(x, y)`: while nothing aims, a click on the head of a
    /// unit of the current team selects it (the one with the greatest key if
    /// several); otherwise the selected unit fires at an in-range cell while
    /// it aims, or steps onto a cell next to its head.
    /// The selected unit, if it is the current team's and marked selected,
    /// steps by `(dx, dy)`.
    fn step(&mut self, game: &mut Game, dx: i16, dy: i16)
        requires
            old(game).wf(),
        ensures
            final(game).wf(),
            moved(*old(game), *final(game), dx, dy),
    {
        match game.selected_idx {
            Some(k) => {
                let mine = match roster_get(&game.units, k) {
                    Some(u) => u.team == game.current_team && u.selected,
                    None => false,
                };
                if mine {
                    game.relocate(k, dx, dy);
                }
            },
            None => {},
        }
    }

    fn click(&mut self, game: &mut Game, x: i16, y: i16)
        requires
            old(game).wf(),
        ensures
            final(game).wf(),
            clicked(*old(game), *final(game), x, y),
    {
        if game.grid.attack_loc.is_none() {
            let keys = roster_keys(&game.units);
            let mut found: Option<usize> = None;
            let mut i: usize = 0;
            while i < keys.len()
                invariant
                    game == old(game),
                    i <= keys@.len(),
                    forall|a: int, b: int| 0 <= a < b < keys@.len() ==> keys@[a] < keys@[b],
                    forall|k: usize| game.roster().contains_key(k) <==> keys@.contains(k),
                    found matches Some(f) ==> head_at(*game, f, x, y) && (i < keys@.len() ==> f < keys@[i as int]),
                    forall|j: int| 0 <= j < i && #[trigger] head_at(*game, keys@[j], x, y)
                        ==> (found matches Some(f) && keys@[j] <= f),
            decreases keys@.len() - i,
            {
                proof {
                    if i + 1 < keys@.len() {
                        assert(keys@[i as int] < keys@[i + 1]);
                    }
                    assert(keys@.contains(keys@[i as int]));
                }
                match roster_get(&game.units, keys[i]) {
                    Some(u) => {
                        if u.parts.len() > 0 {
                            let h = u.parts[0];
                            if h.0 == x && h.1 == y && u.team == game.current_team {
                                found = Some(keys[i]);
                            }
                        }
                    },
                    None => {},
                }
                i += 1;
            }
            proof {
                assert forall|k: usize| head_at(*game, k, x, y) implies (found matches Some(f) && k <= f) by {
                    assert(keys@.contains(k));
                    let j = choose|j: int| 0 <= j < keys@.len() && keys@[j] == k;
                    assert(head_at(*game, keys@[j], x, y));
                }
            }
            match found {
                Some(k) => {
                    proof {
                        assert forall|k2: usize| #[trigger] head_at(*old(game), k2, x, y)
                            && (forall|j: usize| #[trigger] head_at(*old(game), j, x, y) ==> j <= k2) implies k2 == k by {
                            assert(k2 <= k);
                            assert(k <= k2);
                        }
                    }
                    game.select(k);
                    return;
                },
                None => {},
            }
        }
        let idx = match game.selected_idx {
            Some(i) => i,
            None => {
                return;
            },
        };
        let (aiming, head) = match roster_get(&game.units, idx) {
            Some(u) => {
                if u.parts.len() == 0 {
                    return;
                }
                (u.attack.is_some(), u.parts[0])
            },
            None => {
                return;
            },
        };
        if aiming {
            if game.in_attack_range(x, y) {
                game.grid.attack_loc = Some((x, y));
                game.fire(idx);
            }
        } else {
            let (hx, hy) = (head.0 as i32, head.1 as i32);
            let (cx, cy) = (x as i32, y as i32);
            let near = (cx == hx + 1 && cy == hy) || (cx == hx - 1 && cy == hy) || (cx == hx && cy == hy + 1)
                || (cx == hx && cy == hy - 1);
            if near {
                game.relocate(idx, (cx - hx) as i16, (cy - hy) as i16);
            }
        }
    }

    /// The pointer is over cell `(x, y)`: while the selected unit aims, the
    /// cursor follows it onto cells of the attack overlay.
    pub fn handle_pointer(&mut self, game: &mut Game, x: i16, y: i16)
        requires
            old(game).wf(),
        ensures
            final(game).wf(),
            pointed(*old(game), *final(game), x, y),
    {
        let aiming = match game.selected_idx {
            Some(k) => match roster_get(&game.units, k) {
                Some(u) => u.attack.is_some(),
                None => false,
            },
            None => false,
        };
        if aiming && game.in_attack_range(x, y) {
            game.grid.attack_loc = Some((x, y));
        }
    }
}

/// `e` is an enemy cell within `range` of `head`.
pub open spec fn in_reach(e: (i16, i16, usize), head: (i16, i16), range: int) -> bool {
    abs_diff(head.0 as int, e.0 as int) + abs_diff(head.1 as int, e.1 as int) <= range
}

/// The movement value of cell `c`.
pub open spec fn value_of(g: Grid, c: (int, int)) -> int {
    g.value_at(g.highlight@, c.0, c.1) as int
}

/// The neighbour of `c` by `d` is on the board, with a movement value one more.
pub open spec fn rises(g: Grid, c: (i16, i16), d: (i16, i16)) -> bool {
    let n = (c.0 + d.0, c.1 + d.1);
    g.in_bounds(n.0, n.1) && value_of(g, n) == value_of(g, (c.0 as int, c.1 as int)) + 1
}

/// The first step from `c`, down, up, right, then left, to a neighbour with a
/// movement value one more; none from a cell with the largest value.
pub open spec fn uphill(g: Grid, c: (i16, i16)) -> Option<(i16, i16)> {
    if value_of(g, (c.0 as int, c.1 as int)) >= u16::MAX {
        None
    } else if rises(g, c, (0, 1)) {
        Some((0i16, 1i16))
    } else if rises(g, c, (0, (-1) as i16)) {
        Some((0i16, (-1) as i16))
    } else if rises(g, c, (1, 0)) {
        Some((1i16, 0i16))
    } else if rises(g, c, ((-1) as i16, 0)) {
        Some(((-1) as i16, 0i16))
    } else {
        None
    }
}

/// The walk from `c` up the movement overlay towards `origin`, at most `fuel`
/// steps: the opposite of each step taken, first step first, and whether it
/// reached `origin`.
pub open spec fn walk_back(g: Grid, c: (i16, i16), origin: (i16, i16), fuel: nat) -> (Seq<(i16, i16)>, bool)
    decreases fuel,
{
    if c == origin {
        (Seq::empty(), true)
    } else if fuel == 0 {
        (Seq::empty(), false)
    } else {
        match uphill(g, c) {
            None => (Seq::empty(), false),
            Some(d) => {
                let rest = walk_back(g, ((c.0 + d.0) as i16, (c.1 + d.1) as i16), origin, (fuel - 1) as nat);
                (seq![((-d.0) as i16, (-d.1) as i16)] + rest.0, rest.1)
            },
        }
    }
}

/// `uphill` of the in-bounds cell `(x, y)`.
fn uphill_step(g: &Grid, x: i16, y: i16) -> (r: Option<(i16, i16)>)
    requires
        g.wf(),
        g.in_bounds(x as int, y as int),
    ensures
        r == uphill(*g, (x, y)),
        r matches Some(d) ==> g.in_bounds(x + d.0, y + d.1)
            && value_of(*g, (x + d.0, y + d.1)) == value_of(*g, (x as int, y as int)) + 1,
{
    let v = g.value_at_cell(x, y);
    if v == u16::MAX {
        return None;
    }
    if g.is_in_bounds(x, y + 1) && g.value_at_cell(x, y + 1) == v + 1 {
        return Some((0, 1));
    }
    if g.is_in_bounds(x, y - 1) && g.value_at_cell(x, y - 1) == v + 1 {
        return Some((0, -1));
    }
    if g.is_in_bounds(x + 1, y) && g.value_at_cell(x + 1, y) == v + 1 {
        return Some((1, 0));
    }
    if g.is_in_bounds(x - 1, y) && g.value_at_cell(x - 1, y) == v + 1 {
        return Some((-1, 0));
    }
    None
}

/// `es` lists the cells of the units off the current team of `g`, each with
/// its unit's key: every entry is such a cell, and every such cell is listed.
pub open spec fn enemy_cache(g: Game, es: Seq<(i16, i16, usize)>) -> bool {
    &&& forall|i: int| 0 <= i < es.len() ==> {
        let e = #[trigger] es[i];
        &&& g.roster().contains_key(e.2)
        &&& g.roster()[e.2].team != g.current_team
        &&& g.roster()[e.2].parts@.contains((e.0, e.1))
    }
    &&& forall|k: usize, c: (i16, i16)| #[trigger] g.roster().contains_key(k) && g.roster()[k].team != g.current_team
        && #[trigger] g.roster()[k].parts@.contains(c) ==> es.contains((c.0, c.1, k))
}

/// The longest range among `attacks`, 0 for none.
pub open spec fn max_range(attacks: Seq<Attack>) -> u16
    decreases attacks.len(),
{
    if attacks.len() == 0 {
        0
    } else {
        let r = max_range(attacks.drop_last());
        let l = attacks.last().range_spec();
        if l > r { l } else { r }
    }
}

/// The path as plain steps.
pub open spec fn path_view(p: Option<Vec<(i16, i16)>>) -> Option<Seq<(i16, i16)>> {
    match p {
        Some(v) => Some(v@),
        None => None,
    }
}

/// Every unit of the current team has attacked.
pub open spec fn all_attacked(g: Game) -> bool {
    forall|j: usize| #[trigger] g.roster().contains_key(j) && g.roster()[j].team == g.current_team
        ==> g.roster()[j].has_attacked
}

/// What the computer does, at the end of its delay, with enemy cells `es` and
/// path `p0`, from game `o` to game `n`, leaving cache and path in `a1`.
pub open spec fn ai_acted(p0: Option<Vec<(i16, i16)>>, es: Seq<(i16, i16, usize)>, o: Game, a1: AiController, n: Game) -> bool {
    let m = o.roster();
    match o.selected_idx {
        None => n == o && path_view(a1.path) == path_view(p0) && a1.enemy_positions@ == es,
        Some(k) => if o.grid.attack_loc is Some {
            &&& fired(o, n, k)
            &&& enemy_cache(n, a1.enemy_positions@)
            &&& path_view(a1.path) == path_view(p0)
        } else if !(m.contains_key(k) && m[k].parts@.len() > 0) {
            n == o && path_view(a1.path) == path_view(p0) && a1.enemy_positions@ == es
        } else if m[k].has_attacked {
            &&& path_view(a1.path) == path_view(p0)
            &&& all_attacked(o) ==> team_ended(o, n) && a1.enemy_positions@.len() == 0
            &&& !all_attacked(o) ==> selected_next(o, n) && a1.enemy_positions@ == es
        } else {
            let head = m[k].parts@[0];
            let range = max_range(m[k].attacks@);
            &&& a1.enemy_positions@ == es
            &&& match p0 {
                None => n == o && exists|c: Option<(i16, i16)>| #[trigger] is_destination(o.grid, es, range, c)
                    && path_view(a1.path) == Some(match c {
                        Some(t) => walk_back(o.grid, t, head, u16::MAX as nat).0,
                        None => Seq::empty(),
                    }),
                Some(p) => if p@.len() > 0 {
                    relocated(o, n, k, p@.last().0, p@.last().1) && path_view(a1.path) == Some(p@.drop_last())
                } else {
                    &&& a1.path is None
                    &&& exists|t: Option<(i16, i16)>| #[trigger] is_target(es, m, head, range, t) && match t {
                        Some(c) => exists|n1: Game| #[trigger] attacked(o, n1, k, 0)
                            && n == (Game { grid: Grid { attack_loc: Some(c), ..n1.grid }, ..n1 }),
                        None => {
                            &&& n.roster() == m.insert(k, Unit { has_attacked: true, moves: 0, ..m[k] })
                            &&& n.grid == o.grid
                            &&& n.selected_idx == o.selected_idx
                            &&& n.undo == o.undo
                            &&& n.done == o.done
                            &&& n.current_team == o.current_team
                            &&& n.teams == o.teams
                        },
                    }
                },
            }
        },
    }
}

/// One tick of the computer's controller `a0` on game `o`, giving `a1` and `n`.
pub open spec fn ai_ticked(a0: AiController, o: Game, a1: AiController, n: Game) -> bool {
    if a0.delay > 0 {
        a1.delay == a0.delay - 1 && n == o && path_view(a1.path) == path_view(a0.path)
    } else {
        &&& a1.delay == AI_DELAY
        &&& a0.enemy_positions@.len() > 0 ==> ai_acted(a0.path, a0.enemy_positions@, o, a1, n)
        &&& a0.enemy_positions@.len() == 0 ==> exists|es: Seq<(i16, i16, usize)>| #[trigger] enemy_cache(o, es)
            && ai_acted(a0.path, es, o, a1, n)
    }
}

/// `r` is the destination the computer picks on board `g0` against enemy
/// cells `es`: the first cell in row-major order, among those of nonzero
/// movement overlay, with the least `ai_score`; `None` when the overlay is all
/// zero.
pub open spec fn is_destination(g0: Grid, es: Seq<(i16, i16, usize)>, range: u16, r: Option<(i16, i16)>) -> bool {
    let g = g0;
    let score = |x: int, y: int| ai_score(es, range as int, x, y);
    &&& r is None ==> forall|x: int, y: int| #[trigger] g.in_bounds(x, y) ==> g.value_at(g.highlight@, x, y) == 0
    &&& r matches Some(c) ==> g.in_bounds(c.0 as int, c.1 as int) && g.value_at(g.highlight@, c.0 as int, c.1 as int) > 0
        && forall|x: int, y: int| #[trigger] g.in_bounds(x, y) && g.value_at(g.highlight@, x, y) > 0 ==> {
            ||| score(c.0 as int, c.1 as int) < score(x, y)
            ||| score(c.0 as int, c.1 as int) == score(x, y)
                && cell_index(g.width as int, c.0 as int, c.1 as int) <= cell_index(g.width as int, x, y)
        }
}

/// `r` is the cell the computer aims at from `head`: among the enemy cells
/// `es0` within `range` whose unit is in `m0`, one of a longest unit, the
/// first such in `es0`.
pub open spec fn is_target(es0: Seq<(i16, i16, usize)>, m0: Map<usize, Unit>, head: (i16, i16), range: u16, r: Option<(i16, i16)>) -> bool {
    let es = es0;
    let m = m0;
    &&& r is None ==> forall|i: int| 0 <= i < es.len() ==> !target_ok(m, #[trigger] es[i], head, range)
    &&& r matches Some(c) ==> exists|i: int| 0 <= i < es.len() && #[trigger] target_ok(m, es[i], head, range)
        && c == (es[i].0, es[i].1)
        && forall|j: int| 0 <= j < es.len() && #[trigger] target_ok(m, es[j], head, range)
            ==> m[es[j].2].parts@.len() <= m[es[i].2].parts@.len()
}

impl AiController {
    pub fn new() -> (r: AiController)
        ensures
            r.delay == AI_DELAY,
            r.enemy_positions@.len() == 0,
            r.path is None,
    {
        AiController { delay: AI_DELAY, enemy_positions: Vec::new(), path: None }
    }

    pub fn is_local_controlled(&self) -> (r: bool)
        ensures
            !r,
    {
        false
    }

    /// Collects every cell of every unit that is not on the current team, with
    /// the unit's key, by ascending key.
    pub fn update_enemy_positions(&mut self, game: &Game)
        requires
            game.wf(),
        ensures
            final(self).delay == old(self).delay,
            final(self).path == old(self).path,
            enemy_cache(*game, final(self).enemy_positions@),
    {
        let mut out: Vec<(i16, i16, usize)> = Vec::new();
        let keys = roster_keys(&game.units);
        let mut i: usize = 0;
        while i < keys.len()
            invariant
                game.wf(),
                i <= keys@.len(),
                forall|k: usize| game.roster().contains_key(k) <==> keys@.contains(k),
                forall|j: int| 0 <= j < out@.len() ==> {
                    let e = #[trigger] out@[j];
                    &&& game.roster().contains_key(e.2)
                    &&& game.roster()[e.2].team != game.current_team
                    &&& game.roster()[e.2].parts@.contains((e.0, e.1))
                },
                forall|j: int, c: (i16, i16)| 0 <= j < i && game.roster().contains_key(keys@[j])
                    && game.roster()[keys@[j]].team != game.current_team
                    && #[trigger] game.roster()[keys@[j]].parts@.contains(c) ==> out@.contains((c.0, c.1, keys@[j])),
            decreases keys@.len() - i,
        {
            let k = keys[i];
            proof {
                assert(keys@.contains(k));
            }
            let u = roster_get(&game.units, k).unwrap();
            if u.team != game.current_team {
                let ghost start = out@;
                let mut p: usize = 0;
                while p < u.parts.len()
                    invariant
                        game.wf(),
                        *u == game.roster()[k],
                        game.roster().contains_key(k),
                        u.team != game.current_team,
                        p <= u.parts@.len(),
                        out@.len() == start.len() + p,
                        forall|j: int| 0 <= j < start.len() ==> out@[j] == start[j],
                        forall|j: int| 0 <= j < out@.len() ==> {
                            let e = #[trigger] out@[j];
                            &&& game.roster().contains_key(e.2)
                            &&& game.roster()[e.2].team != game.current_team
                            &&& game.roster()[e.2].parts@.contains((e.0, e.1))
                        },
                        forall|q: int| 0 <= q < p ==> out@[start.len() + q] == (u.parts@[q].0, u.parts@[q].1, k),
                    decreases u.parts@.len() - p,
                {
                    let c = u.parts[p];
                    out.push((c.0, c.1, k));
                    proof {
                        assert(u.parts@[p as int] == c);
                        assert(u.parts@.contains(c));
                    }
                    p += 1;
                }
                proof {
                    assert forall|j: int, c: (i16, i16)| 0 <= j < i + 1 && game.roster().contains_key(keys@[j])
                        && game.roster()[keys@[j]].team != game.current_team
                        && #[trigger] game.roster()[keys@[j]].parts@.contains(c) implies out@.contains((c.0, c.1, keys@[j])) by {
                        if j < i {
                            assert(start.contains((c.0, c.1, keys@[j])));
                            let q = choose|q: int| 0 <= q < start.len() && start[q] == (c.0, c.1, keys@[j]);
                            assert(out@[q] == (c.0, c.1, keys@[j]));
                        } else {
                            let q = choose|q: int| 0 <= q < u.parts@.len() && u.parts@[q] == c;
                            assert(out@[start.len() + q] == (c.0, c.1, k));
                        }
                    }
                }
            }
            i += 1;
        }
        proof {
            assert forall|k: usize, c: (i16, i16)| #[trigger] game.roster().contains_key(k) && game.roster()[k].team != game.current_team
                && #[trigger] game.roster()[k].parts@.contains(c) implies out@.contains((c.0, c.1, k)) by {
                assert(keys@.contains(k));
                let j = choose|j: int| 0 <= j < keys@.len() && keys@[j] == k;
                assert(game.roster()[keys@[j]].parts@.contains(c));
            }
        }
        self.enemy_positions = out;
    }

    /// `ai_score` of `(x, y)` for the cached enemy cells.
    fn score(&self, range: i64, x: i64, y: i64) -> (r: i64)
        requires
            0 <= range <= u16::MAX,
            0 <= x < 65536,
            0 <= y < 65536,
        ensures
            r == ai_score(self.enemy_positions@, range as int, x as int, y as int),
    {
        let n = self.enemy_positions.len();
        let mut best: i64 = 0;
        let mut i: usize = 0;
        while i < n
            invariant
                n == self.enemy_positions@.len(),
                0 <= range <= u16::MAX,
                0 <= x < 65536,
                0 <= y < 65536,
                i <= n,
                0 <= best < 300000,
                best == ai_score(self.enemy_positions@.subrange(0, i as int), range as int, x as int, y as int),
            decreases n - i,
        {
            let e = self.enemy_positions[i];
            let ex = e.0 as i64;
            let ey = e.1 as i64;
            let dx = if x >= ex { x - ex } else { ex - x };
            let dy = if y >= ey { y - ey } else { ey - y };
            let d = dx + dy - range;
            let here = if d > 0 { d } else { 0 };
            proof {
                let pre = self.enemy_positions@.subrange(0, i as int + 1);
                assert(pre.drop_last() =~= self.enemy_positions@.subrange(0, i as int));
                assert(pre.last() == e);
            }
            if i == 0 || here < best {
                best = here;
            }
            i += 1;
        }
        assert(self.enemy_positions@.subrange(0, n as int) =~= self.enemy_positions@);
        best
    }

    /// The first cell in row-major order, among those of nonzero movement
    /// overlay, with the least `ai_score`; `None` when the overlay is all zero.
    pub fn choose_destination(&self, game: &Game, range: u16) -> (r: Option<(i16, i16)>)
        requires
            game.wf(),
        ensures
            is_destination(game.grid, self.enemy_positions@, range, r),
    {
        let ghost g = game.grid;
        let w = game.grid.width;
        let h = game.grid.height();
        let n = game.grid.grid.len();
        assert(n == w * h) by (nonlinear_arith)
            requires n == w * h;
        let mut best: Option<(i16, i16)> = None;
        let mut best_s: i64 = 0;
        let mut i: usize = 0;
        let mut x: usize = 0;
        let mut y: usize = 0;
        while i < n
            invariant
                g == game.grid,
                g.wf(),
                n == g.grid@.len(),
                n == w * h,
                w == g.width,
                h == g.rows(),
                i <= n,
                i == cell_index(w as int, x as int, y as int),
                x < w || i == n,
                best matches Some(c) ==> g.in_bounds(c.0 as int, c.1 as int) && g.value_at(g.highlight@, c.0 as int, c.1 as int) > 0
                    && best_s == ai_score(self.enemy_positions@, range as int, c.0 as int, c.1 as int)
                    && cell_index(w as int, c.0 as int, c.1 as int) < i,
                forall|x2: int, y2: int| #[trigger] g.in_bounds(x2, y2) && cell_index(w as int, x2, y2) < i
                    && g.value_at(g.highlight@, x2, y2) > 0 ==> (best matches Some(c) && {
                        ||| best_s < ai_score(self.enemy_positions@, range as int, x2, y2)
                        ||| best_s == ai_score(self.enemy_positions@, range as int, x2, y2)
                            && cell_index(w as int, c.0 as int, c.1 as int) <= cell_index(w as int, x2, y2)
                    }),
            decreases n - i,
        {
            proof {
                if y >= h {
                    lemma_index_past(w as int, h as int, x as int, y as int);
                }
            }
            if game.grid.highlight[i] != 0 {
                let sc = self.score(range as i64, x as i64, y as i64);
                if best.is_none() || sc < best_s {
                    best = Some((x as i16, y as i16));
                    best_s = sc;
                }
            }
            proof {
                assert forall|x2: int, y2: int| #[trigger] g.in_bounds(x2, y2) && cell_index(w as int, x2, y2) < i + 1
                    && g.value_at(g.highlight@, x2, y2) > 0 implies (best matches Some(c) && {
                        ||| best_s < ai_score(self.enemy_positions@, range as int, x2, y2)
                        ||| best_s == ai_score(self.enemy_positions@, range as int, x2, y2)
                            && cell_index(w as int, c.0 as int, c.1 as int) <= cell_index(w as int, x2, y2)
                    }) by {
                    if cell_index(w as int, x2, y2) == i {
                        lemma_index_injective(w as int, x2, y2, x as int, y as int);
                    }
                }
            }
            i += 1;
            if x + 1 < w {
                x += 1;
            } else {
                proof { lemma_index_rows(w as int, 0, y as int); }
                x = 0;
                y += 1;
            }
        }
        proof {
            assert forall|x2: int, y2: int| #[trigger] g.in_bounds(x2, y2) && g.value_at(g.highlight@, x2, y2) > 0
                implies (best matches Some(c) && {
                    ||| best_s < ai_score(self.enemy_positions@, range as int, x2, y2)
                    ||| best_s == ai_score(self.enemy_positions@, range as int, x2, y2)
                        && cell_index(w as int, c.0 as int, c.1 as int) <= cell_index(w as int, x2, y2)
                }) by {
                lemma_index_bounds(w as int, h as int, x2, y2);
            }
        }
        best
    }
}

impl AiController {
    /// The gradient walk `walk_back` from `target` to `origin`: at each cell,
    /// to the first neighbour, in the order down, up, right, left, whose
    /// movement value is one more, recording the opposite of each step; and
    /// whether it reached `origin`. Taken from the end of the list, from
    /// `origin`, the steps lead to `target`.
    pub fn plan_path(game: &Game, target: (i16, i16), origin: (i16, i16)) -> (r: (Vec<(i16, i16)>, bool))
        requires
            game.wf(),
            game.grid.in_bounds(target.0 as int, target.1 as int),
        ensures
            r.0@ == walk_back(game.grid, target, origin, u16::MAX as nat).0,
            r.1 == walk_back(game.grid, target, origin, u16::MAX as nat).1,
    {
        let g = &game.grid;
        let mut path: Vec<(i16, i16)> = Vec::new();
        let mut x: i16 = target.0;
        let mut y: i16 = target.1;
        let ghost mut f: nat = u16::MAX as nat;
        loop
            invariant
                *g == game.grid,
                g.wf(),
                g.in_bounds(x as int, y as int),
                f >= u16::MAX - g.value_at(g.highlight@, x as int, y as int),
                walk_back(*g, target, origin, u16::MAX as nat).0 == path@ + walk_back(*g, (x, y), origin, f).0,
                walk_back(*g, target, origin, u16::MAX as nat).1 == walk_back(*g, (x, y), origin, f).1,
            decreases f,
        {
            if x == origin.0 && y == origin.1 {
                assert(path@ + walk_back(*g, (x, y), origin, f).0 =~= path@);
                return (path, true);
            }
            match uphill_step(g, x, y) {
                None => {
                    assert(path@ + walk_back(*g, (x, y), origin, f).0 =~= path@);
                    return (path, false);
                },
                Some(d) => {
                    let ghost c = (x, y);
                    let ghost before = path@;
                    path.push((-d.0, -d.1));
                    x = x + d.0;
                    y = y + d.1;
                    proof {
                        let rest = walk_back(*g, (x, y), origin, (f - 1) as nat);
                        assert(walk_back(*g, c, origin, f).0 == seq![((-d.0) as i16, (-d.1) as i16)] + rest.0);
                        assert(before + walk_back(*g, c, origin, f).0 =~= path@ + rest.0);
                        f = (f - 1) as nat;
                    }
                },
            }
        }
    }
}

/// `e` is within `range` of `head`, and its unit is in `m`.
pub open spec fn target_ok(m: Map<usize, crate::unit::Unit>, e: (i16, i16, usize), head: (i16, i16), range: u16) -> bool {
    in_reach(e, head, range as int) && m.contains_key(e.2)
}

impl AiController {
    /// Among the cached enemy cells within `range` of `head` whose unit is
    /// still in the map, one of the longest unit, the first such in the cache.
    pub fn pick_target(&self, game: &Game, head: (i16, i16), range: u16) -> (r: Option<(i16, i16)>)
        requires
            game.wf(),
        ensures
            is_target(self.enemy_positions@, game.roster(), head, range, r),
    {
        let ghost es = self.enemy_positions@;
        let ghost m = game.roster();
        let n = self.enemy_positions.len();
        let mut best: Option<usize> = None;
        let mut best_len: usize = 0;
        let mut i: usize = 0;
        while i < n
            invariant
                n == es.len(),
                es == self.enemy_positions@,
                m == game.roster(),
                game.wf(),
                i <= n,
                best matches Some(b) ==> b < i && target_ok(m, es[b as int], head, range)
                    && best_len == m[es[b as int].2].parts@.len(),
                forall|j: int| 0 <= j < i && #[trigger] target_ok(m, es[j], head, range)
                    ==> (best matches Some(b) && m[es[j].2].parts@.len() <= best_len),
            decreases n - i,
        {
            let e = self.enemy_positions[i];
            let dx: i32 = if (head.0 as i32) >= (e.0 as i32) { head.0 as i32 - e.0 as i32 } else { e.0 as i32 - head.0 as i32 };
            let dy: i32 = if (head.1 as i32) >= (e.1 as i32) { head.1 as i32 - e.1 as i32 } else { e.1 as i32 - head.1 as i32 };
            if dx + dy <= range as i32 {
                match roster_get(&game.units, e.2) {
                    Some(u) => {
                        let len = u.parts.len();
                        if best.is_none() || len > best_len {
                            best = Some(i);
                            best_len = len;
                        }
                    },
                    None => {},
                }
            }
            i += 1;
        }
        match best {
            Some(b) => {
                let e = self.enemy_positions[b];
                proof {
                    assert(es[b as int] == e);
                    assert(target_ok(m, es[b as int], head, range));
                }
                Some((e.0, e.1))
            },
            None => None,
        }
    }

    /// One tick of the computer's turn. Every `AI_DELAY + 1` ticks it acts
    /// once for the selected unit: it fires an aimed attack; or, when the unit
    /// has attacked, ends the turn if the whole team has, else selects the
    /// next unit; or plans a path to the best destination; or takes the next
    /// step of the path; or, at the end of the path, aims at the longest enemy
    /// in reach, or passes.
    pub fn handle_frame(&mut self, game: &mut Game)
        requires
            old(game).wf(),
        ensures
            final(game).wf(),
            ai_ticked(*old(self), *old(game), *final(self), *final(game)),
    {
        if self.enemy_positions.len() == 0 {
            self.update_enemy_positions(game);
        }
        let ghost es = self.enemy_positions@;
        if self.delay > 0 {
            self.delay = self.delay - 1;
            return;
        }
        self.delay = AI_DELAY;
        let curr = match game.selected_idx {
            Some(c) => c,
            None => {
                return;
            },
        };
        if game.grid.attack_loc.is_some() {
            game.fire(curr);
            self.update_enemy_positions(game);
            return;
        }
        let ghost m = game.roster();
        let (has_attacked, head, range) = match roster_get(&game.units, curr) {
            Some(u) => {
                if u.parts.len() == 0 {
                    return;
                }
                let mut range: u16 = 0;
                let mut i: usize = 0;
                while i < u.attacks.len()
                    invariant
                        i <= u.attacks@.len(),
                        range == max_range(u.attacks@.subrange(0, i as int)),
                    decreases u.attacks@.len() - i,
                {
                    proof {
                        assert(u.attacks@.subrange(0, i + 1).drop_last() =~= u.attacks@.subrange(0, i as int));
                    }
                    let r = u.attacks[i].range();
                    if r > range {
                        range = r;
                    }
                    i += 1;
                }
                proof {
                    assert(u.attacks@.subrange(0, i as int) =~= u.attacks@);
                }
                (u.has_attacked, u.parts[0], range)
            },
            None => {
                return;
            },
        };
        if has_attacked {
            let keys = roster_keys(&game.units);
            let mut all = true;
            let mut i: usize = 0;
            while i < keys.len()
                invariant
                    game == old(game),
                    m == game.roster(),
                    i <= keys@.len(),
                    forall|k: usize| m.contains_key(k) <==> keys@.contains(k),
                    all == forall|j: int| 0 <= j < i && #[trigger] m.contains_key(keys@[j])
                        && m[keys@[j]].team == game.current_team ==> m[keys@[j]].has_attacked,
                decreases keys@.len() - i,
            {
                match roster_get(&game.units, keys[i]) {
                    Some(u) => {
                        if u.team == game.current_team && !u.has_attacked {
                            all = false;
                        }
                    },
                    None => {},
                }
                i += 1;
            }
            proof {
                if all {
                    assert forall|j: usize| #[trigger] m.contains_key(j) && m[j].team == game.current_team
                        implies m[j].has_attacked by {
                        assert(keys@.contains(j));
                        let jj = choose|jj: int| 0 <= jj < keys@.len() && keys@[jj] == j;
                        assert(m.contains_key(keys@[jj]));
                    }
                }
                assert(all == all_attacked(*game));
            }
            if all {
                self.enemy_positions = Vec::new();
                game.next_team();
            } else {
                game.select_next();
            }
            return;
        }
        let mut empty = false;
        match self.path.take() {
            Some(path) => {
                let mut path = path;
                let ghost p0 = path@;
                match path.pop() {
                    Some(step) => {
                        game.relocate(curr, step.0, step.1);
                        self.path = Some(path);
                    },
                    None => {
                        empty = true;
                        match self.pick_target(game, head, range) {
                            Some(c) => {
                                game.attack(curr, 0);
                                let ghost n1 = *game;
                                game.grid.attack_loc = Some(c);
                                proof {
                                    assert(attacked(*old(game), n1, curr, 0));
                                }
                            },
                            None => {
                                let mut u = game.remove_unit(curr).unwrap();
                                u.has_attacked = true;
                                u.moves = 0;
                                proof {
                                    assert(curr < MAX_KEYS);
                                }
                                game.insert_unit(curr, u);
                                proof {
                                    assert(game.roster() =~= m.insert(curr, Unit { has_attacked: true, moves: 0, ..m[curr] }));
                                }
                            },
                        }
                    },
                }
            },
            None => {
                match self.choose_destination(game, range) {
                    Some(target) => {
                        let (path, _) = AiController::plan_path(game, target, head);
                        self.path = Some(path);
                    },
                    None => {
                        self.path = Some(Vec::new());
                        assert(path_view(self.path) == Some(Seq::<(i16, i16)>::empty()));
                    },
                }
            },
        }
        if empty {
            self.path = None;
        }
    }
}

impl TeamController {
    pub fn is_local_controlled(&self) -> (r: bool)
        ensures
            r == (self is Local),
    {
        match self {
            TeamController::Local(c) => c.is_local_controlled(),
            TeamController::Ai(c) => c.is_local_controlled(),
            TeamController::Dummy(c) => c.is_local_controlled(),
        }
    }
}

impl Game {
    /// Passes a command to the current team's controller; only a local
    /// controller acts on it.
    pub fn handle_command(&mut self, cmd: Command)
        requires
            old(self).wf(),
        ensures
            final(self).wf(),
            old(self).teams@[old(self).current_team as int].controller is Local
                ==> commanded(*old(self), *final(self), cmd),
            !(old(self).teams@[old(self).current_team as int].controller is Local) ==> *final(self) == *old(self),
    {
        let local = match &self.teams[self.current_team as usize].controller {
            TeamController::Local(_) => true,
            _ => false,
        };
        if local {
            let mut c = LocalController;
            c.handle_command(self, cmd);
        }
    }
}

impl Game {
    /// Passes the pointer's cell to the current team's controller; only a
    /// local controller acts on it.
    pub fn handle_pointer(&mut self, x: i16, y: i16)
        requires
            old(self).wf(),
        ensures
            final(self).wf(),
            old(self).teams@[old(self).current_team as int].controller is Local
                ==> pointed(*old(self), *final(self), x, y),
            !(old(self).teams@[old(self).current_team as int].controller is Local) ==> *final(self) == *old(self),
    {
        let local = match &self.teams[self.current_team as usize].controller {
            TeamController::Local(_) => true,
            _ => false,
        };
        if local {
            let mut c = LocalController;
            c.handle_pointer(self, x, y);
        }
    }

    /// Counts a frame and gives the current team's controller its tick; only
    /// the computer's controller acts on it.
    pub fn handle_frame(&mut self)
        requires
            old(self).wf(),
        ensures
            final(self).wf(),
            final(self).teams@.len() == old(self).teams@.len(),
            old(self).frame < u64::MAX ==> final(self).frame == old(self).frame + 1,
            !(old(self).teams@[old(self).current_team as int].controller is Ai) ==> {
                &&& final(self).units == old(self).units
                &&& final(self).grid == old(self).grid
                &&& final(self).selected_idx == old(self).selected_idx
                &&& final(self).current_team == old(self).current_team
                &&& final(self).undo == old(self).undo
            },
            old(self).teams@[old(self).current_team as int].controller matches TeamController::Ai(a0) ==> exists|
                g0: Game,
                a1: AiController,
                g1: Game,
            | {
                &&& #[trigger] ai_ticked(a0, g0, a1, g1)
                &&& g0 == (Game { teams: g0.teams, ..*old(self) })
                &&& *final(self) == (Game { teams: final(self).teams, frame: final(self).frame, ..g1 })
                &&& final(self).teams@[old(self).current_team as int].controller == TeamController::Ai(a1)
            },
    {
        let frame = self.frame;
        let cur = self.current_team as usize;
        let mut team = self.teams.remove(cur);
        match &mut team.controller {
            TeamController::Ai(c) => {
                self.teams.insert(cur, Team { name: String::new(), controller: TeamController::Dummy(DummyController) });
                let ghost g0 = *self;
                let ghost a0 = *c;
                c.handle_frame(self);
                let ghost g1 = *self;
                proof {
                    assert(ai_ticked(a0, g0, *c, g1));
                }
                self.teams.remove(cur);
            },
            _ => {},
        }
        self.teams.insert(cur, team);
        self.frame = frame.wrapping_add(1);
    }
}

impl Game {
    /// A game on the level `level`: the player's team, local, and the enemy's,
    /// run by the computer; nothing selected yet.
    pub fn sample(level: &str) -> (r: Result<Game, crate::level::LoadError>)
        ensures
            r is Ok <==> crate::level::level_ok(crate::level::level_lines(level.spec_bytes())),
            r matches Ok(g) ==> g.wf() && g.teams@.len() == 2 && g.teams@[0].controller is Local
                && g.teams@[1].controller is Ai && g.current_team == 0 && g.undo@.len() == 0
                && g.selected_idx is None,
    {
        match Grid::from_string(level) {
            Ok((grid, units)) => {
                let mut teams: Vec<Team> = Vec::new();
                teams.push(Team { name: "Player".to_owned(), controller: TeamController::Local(LocalController) });
                teams.push(Team { name: "Enemy".to_owned(), controller: TeamController::Ai(AiController::new()) });
                proof {
                    assert(grid.grid@.len() <= MAX_KEYS) by (nonlinear_arith)
                        requires
                            grid.grid@.len() == grid.width * grid.rows(),
                            grid.width <= MAX_SIDE,
                            grid.rows() <= MAX_SIDE,
                            MAX_KEYS == MAX_SIDE * MAX_SIDE;
                    assert forall|i: int| 0 <= i < units@.len() implies (#[trigger] units@[i]).wf() by {
                        assert(crate::level::spawned(crate::level::level_lines(level.spec_bytes()), grid.width as int, units@, grid.grid@.len() as int));
                    }
                }
                Ok(Game::new(grid, units, teams))
            },
            Err(e) => Err(e),
        }
    }
}

impl Controller for DummyController {
    fn handle_command(&mut self, game: &mut Game, cmd: Command) {
    }

    fn handle_pointer(&mut self, game: &mut Game, x: i16, y: i16) {
    }

    fn handle_frame(&mut self, game: &mut Game) {
    }

    fn is_local_controlled(&self) -> bool {
        DummyController::is_local_controlled(self)
    }
}

impl Controller for LocalController {
    fn handle_command(&mut self, game: &mut Game, cmd: Command) {
        LocalController::handle_command(self, game, cmd);
    }

    fn handle_pointer(&mut self, game: &mut Game, x: i16, y: i16) {
        LocalController::handle_pointer(self, game, x, y);
    }

    fn handle_frame(&mut self, game: &mut Game) {
    }

    fn is_local_controlled(&self) -> bool {
        LocalController::is_local_controlled(self)
    }
}

impl Controller for AiController {
    fn handle_command(&mut self, game: &mut Game, cmd: Command) {
    }

    fn handle_pointer(&mut self, game: &mut Game, x: i16, y: i16) {
    }

    fn handle_frame(&mut self, game: &mut Game) {
        AiController::handle_frame(self, game);
    }

    fn is_local_controlled(&self) -> bool {
        AiController::is_local_controlled(self)
    }
}

} // verus!
