use vstd::prelude::*;
use crate::hex::{board, hex_distance, lemma_board_members, neighbor, on_board, Dir, Distance, HexMap, PosHex, MAX_MAP_RADIUS};
use crate::state::{
    closest_enemy_distance, closest_enemy_distance_to, enemy_agent_ids, ids_by_owner, lemma_closest_enemy_distance,
    lemma_ids_by_owner_members, players_agent_ids, Agent, AgentKind, MovePoints, ObjId, PlayerId, State,
};
use crate::utils::{random_below, shuffle_vec};

verus! {

/// A path over the map, from the walker's tile to its destination.
#[derive(Clone, Debug, PartialEq, Eq)]
pub struct Path {
    pub tiles: Vec<PosHex>,
}

/// Abilities that the AI uses.
#[derive(Clone, Copy, Debug, PartialEq, Eq, Structural)]
pub enum Ability {
    /// Throw a bomb that explodes around its tile, within the given distance.
    Bomb(Distance),
    /// Summon the given number of imps.
    Summon(u32),
}

/// What the AI asks the battle to do.
#[derive(Clone, Debug, PartialEq, Eq)]
pub enum Command {
    UseAbility { id: ObjId, pos: PosHex, ability: Ability },
    Attack { attacker_id: ObjId, target_id: ObjId },
    MoveTo { id: ObjId, path: Path },
    EndTurn,
}

/// The largest cost of a path; no path that costs it is ever chosen.
pub open spec fn max_cost() -> int {
    i32::MAX as int
}

/// The parts of the battle engine that the AI consults: the rules, which say
/// whether a command may be carried out now; the pathfinder, which finds a
/// path for an agent to a tile; the cost of a path for an agent; the part of
/// a path that an agent can walk this turn; and a source of random indices.
pub struct Engine<C, P, K, T, R> {
    pub check: C,
    pub path_to: P,
    pub cost: K,
    pub truncate: T,
    pub rand: R,
}

impl<C, P, K, T, R> Engine<C, P, K, T, R> where
    C: Fn(&Command) -> bool,
    P: Fn(ObjId, PosHex) -> Option<Path>,
    K: Fn(&Path, ObjId) -> MovePoints,
    T: Fn(&Path, ObjId) -> Option<Path>,
    R: Fn(usize) -> usize,
 {
    /// Every part may be consulted on any arguments; all but the random source
    /// answer as functions of their arguments; random indices lie below their
    /// bound.
    pub open spec fn ready(&self) -> bool {
        &&& forall|c: Command| call_requires(self.check, (&c,))
        &&& forall|u: ObjId, pos: PosHex| call_requires(self.path_to, (u, pos))
        &&& forall|p: Path, u: ObjId| call_requires(self.cost, (&p, u))
        &&& forall|p: Path, u: ObjId| call_requires(self.truncate, (&p, u))
        &&& forall|c: Command, a: bool, b: bool|
            #[trigger] call_ensures(self.check, (&c,), a) && #[trigger] call_ensures(self.check, (&c,), b) ==> a == b
        &&& forall|u: ObjId, pos: PosHex, a: Option<Path>, b: Option<Path>|
            #[trigger] call_ensures(self.path_to, (u, pos), a) && #[trigger] call_ensures(self.path_to, (u, pos), b) ==> a == b
        &&& forall|p: Path, u: ObjId, a: MovePoints, b: MovePoints|
            #[trigger] call_ensures(self.cost, (&p, u), a) && #[trigger] call_ensures(self.cost, (&p, u), b) ==> a == b
        &&& forall|p: Path, u: ObjId, a: Option<Path>, b: Option<Path>|
            #[trigger] call_ensures(self.truncate, (&p, u), a) && #[trigger] call_ensures(self.truncate, (&p, u), b) ==> a == b
        &&& random_below(self.rand)
    }

    /// The rules answer `ok` to command `c`.
    pub open spec fn accepts(&self, c: Command, ok: bool) -> bool {
        call_ensures(self.check, (&c,), ok)
    }

    /// The pathfinder answers `r` for agent `u` and tile `pos`.
    pub open spec fn finds(&self, u: ObjId, pos: PosHex, r: Option<Path>) -> bool {
        call_ensures(self.path_to, (u, pos), r)
    }

    /// Path `p` costs agent `u` the move points `c`.
    pub open spec fn costs(&self, p: Path, u: ObjId, c: MovePoints) -> bool {
        call_ensures(self.cost, (&p, u), c)
    }

    /// The part of `p` that agent `u` can walk this turn is `r`.
    pub open spec fn truncates(&self, p: Path, u: ObjId, r: Option<Path>) -> bool {
        call_ensures(self.truncate, (&p, u), r)
    }

    /// The pathfinder gives `u` path `p` to `pos`, at cost `c`.
    pub open spec fn reaches(&self, u: ObjId, pos: PosHex, p: Path, c: MovePoints) -> bool {
        self.finds(u, pos, Some(p)) && self.costs(p, u, c)
    }

    /// Every path that `u` has to a tile for which `good` holds costs at least `bound`.
    pub open spec fn all_cost_at_least(&self, u: ObjId, good: spec_fn(PosHex) -> bool, bound: int) -> bool {
        forall|pos: PosHex, p: Path, c: MovePoints|
            good(pos) && #[trigger] self.reaches(u, pos, p, c) ==> c.0 >= bound
    }

    /// `p` is a cheapest of the paths that `u` has to tiles for which `good`
    /// holds, and it costs less than the largest cost.
    pub open spec fn is_cheapest(&self, u: ObjId, good: spec_fn(PosHex) -> bool, p: Path) -> bool {
        exists|pos: PosHex, c: MovePoints|
            good(pos) && #[trigger] self.reaches(u, pos, p, c) && c.0 < max_cost()
                && self.all_cost_at_least(u, good, c.0 as int)
    }

    /// `p` is the path to the first of `tiles`, in their order, among those
    /// for which `good` holds and whose path is cheapest; it costs less than
    /// the largest cost.
    pub open spec fn is_first_cheapest(&self, u: ObjId, tiles: Seq<PosHex>, good: spec_fn(PosHex) -> bool, p: Path) -> bool {
        exists|i: int, c: MovePoints|
            0 <= i < tiles.len() && good(tiles[i]) && #[trigger] self.reaches(u, tiles[i], p, c) && c.0 < max_cost()
                && self.all_cost_at_least(u, good, c.0 as int)
                && forall|j: int, p2: Path, c2: MovePoints|
                    0 <= j < i && good(tiles[j]) && #[trigger] self.reaches(u, tiles[j], p2, c2) ==> c2.0 > c.0
    }
}

/// `p` is the path to the last of `tiles`, in their order, among the
/// reachable tiles closest to an enemy of `player`; that tile is at most
/// eleven steps from its closest enemy.
pub open spec fn is_last_closest<C, P, K, T, R>(
    state: &State,
    engine: &Engine<C, P, K, T, R>,
    player: PlayerId,
    u: ObjId,
    tiles: Seq<PosHex>,
    p: Path,
) -> bool where
    C: Fn(&Command) -> bool,
    P: Fn(ObjId, PosHex) -> Option<Path>,
    K: Fn(&Path, ObjId) -> MovePoints,
    T: Fn(&Path, ObjId) -> Option<Path>,
    R: Fn(usize) -> usize,
 {
    let md = |pos: PosHex| closest_enemy_distance(state.agents@, player, pos, i32::MAX as int);
    exists|i: int|
        0 <= i < tiles.len() && #[trigger] engine.finds(u, tiles[i], Some(p)) && md(tiles[i]) <= 11
            && (forall|j: int, p2: Path|
                0 <= j < tiles.len() && #[trigger] engine.finds(u, tiles[j], Some(p2)) ==> md(tiles[j]) >= md(tiles[i]))
            && (forall|j: int, p2: Path|
                i < j < tiles.len() && #[trigger] engine.finds(u, tiles[j], Some(p2)) ==> md(tiles[j]) > md(tiles[i]))
}

/// Tile `pos` is on the map and next to an enemy of `player`.
pub open spec fn next_to_enemy(state: &State, player: PlayerId, pos: PosHex) -> bool {
    &&& on_board(state.radius(), pos)
    &&& exists|t: ObjId, d: Dir| state.is_enemy(player, t) && pos == #[trigger] neighbor(state.agent_of(t).pos, d)
}

/// Every direction is among the six that `dirs` lists.
proof fn lemma_all_dirs(d: Dir)
    ensures
        exists|m: int| 0 <= m < 6 && crate::hex::all_dirs()[m] == d,
{
    let ds = crate::hex::all_dirs();
    match d {
        Dir::SouthEast => assert(ds[0] == d),
        Dir::East => assert(ds[1] == d),
        Dir::NorthEast => assert(ds[2] == d),
        Dir::NorthWest => assert(ds[3] == d),
        Dir::West => assert(ds[4] == d),
        Dir::SouthWest => assert(ds[5] == d),
    }
}

/// Some enemy of `player` stands within `dist` steps of `pos`.
pub open spec fn enemy_within(state: &State, player: PlayerId, pos: PosHex, dist: int) -> bool {
    exists|t: ObjId| state.is_enemy(player, t) && #[trigger] hex_distance(pos, state.agent_of(t).pos) <= dist
}

/// Tile `pos` keeps a good distance from the enemies of `player`: some enemy
/// stands within four steps, and none within two.
pub open spec fn keeps_distance(state: &State, player: PlayerId, pos: PosHex) -> bool {
    enemy_within(state, player, pos, 4) && !enemy_within(state, player, pos, 2)
}

/// Agent `u` throws a bomb, of radius three, at tile `pos`.
pub open spec fn bomb_command(u: ObjId, pos: PosHex) -> Command {
    Command::UseAbility { id: u, pos, ability: Ability::Bomb(Distance(3)) }
}

/// Agent `u` summons three imps around tile `pos`.
pub open spec fn summon_command(u: ObjId, pos: PosHex) -> Command {
    Command::UseAbility { id: u, pos, ability: Ability::Summon(3) }
}

/// Agent `u` attacks agent `t`.
pub open spec fn attack_command(u: ObjId, t: ObjId) -> Command {
    Command::Attack { attacker_id: u, target_id: t }
}

/// Agent `u` walks path `p`.
pub open spec fn move_command(u: ObjId, p: Path) -> Command {
    Command::MoveTo { id: u, path: p }
}

/// Tile `pos` is on the map and nothing blocks it.
pub open spec fn is_free_tile(state: &State, pos: PosHex) -> bool {
    on_board(state.radius(), pos) && !state.is_blocked(pos)
}

/// What the AI decided about moving an agent towards, or away from, enemies.
#[derive(Clone, Debug, PartialEq, Eq)]
pub enum PathPlan {
    /// Walk this path.
    Path(Path),
    /// No acceptable path was found.
    CantFindPath,
    /// The agent already stands where it wants to be.
    DontNeedToMove,
}

/// The outcome of trying to walk the part of path `p` that agent `u` can walk
/// this turn: a move along that part, where it is affordable and the rules
/// accept it; otherwise nothing.
pub open spec fn move_outcome<C, P, K, T, R>(
    state: &State,
    engine: &Engine<C, P, K, T, R>,
    u: ObjId,
    p: Path,
    r: Option<Command>,
) -> bool where
    C: Fn(&Command) -> bool,
    P: Fn(ObjId, PosHex) -> Option<Path>,
    K: Fn(&Path, ObjId) -> MovePoints,
    T: Fn(&Path, ObjId) -> Option<Path>,
    R: Fn(usize) -> usize,
 {
    match r {
        Some(c) => exists|q: Path, cost: MovePoints|
            #[trigger] engine.truncates(p, u, Some(q)) && #[trigger] engine.costs(q, u, cost)
                && cost.0 <= state.agent_of(u).move_points.0
                && c == move_command(u, q) && engine.accepts(c, true),
        None => forall|q: Path, cost: MovePoints|
            #[trigger] engine.truncates(p, u, Some(q)) && #[trigger] engine.costs(q, u, cost)
                && cost.0 <= state.agent_of(u).move_points.0
                ==> engine.accepts(move_command(u, q), false),
    }
}

/// The plan made from path `p` found for agent `u`: no move where the path
/// ends on the agent's own tile, else the outcome of walking it.
pub open spec fn plan_outcome<C, P, K, T, R>(
    state: &State,
    engine: &Engine<C, P, K, T, R>,
    u: ObjId,
    p: Path,
    plan: PathPlan,
) -> bool where
    C: Fn(&Command) -> bool,
    P: Fn(ObjId, PosHex) -> Option<Path>,
    K: Fn(&Path, ObjId) -> MovePoints,
    T: Fn(&Path, ObjId) -> Option<Path>,
    R: Fn(usize) -> usize,
 {
    if p.tiles@.len() == 1 {
        plan is DontNeedToMove
    } else {
        match plan {
            PathPlan::Path(q) => move_outcome(state, engine, u, p, Some(move_command(u, q))),
            PathPlan::CantFindPath => move_outcome(state, engine, u, p, None),
            PathPlan::DontNeedToMove => false,
        }
    }
}

/// The outcome of `try_to_move_closer` for agent `u` of `player`.
pub open spec fn closer_outcome<C, P, K, T, R>(
    state: &State,
    engine: &Engine<C, P, K, T, R>,
    player: PlayerId,
    u: ObjId,
    plan: PathPlan,
) -> bool where
    C: Fn(&Command) -> bool,
    P: Fn(ObjId, PosHex) -> Option<Path>,
    K: Fn(&Path, ObjId) -> MovePoints,
    T: Fn(&Path, ObjId) -> Option<Path>,
    R: Fn(usize) -> usize,
 {
    let good = |pos: PosHex| next_to_enemy(state, player, pos);
    ||| engine.all_cost_at_least(u, good, max_cost()) && plan is CantFindPath
    ||| exists|p: Path| #[trigger] engine.is_cheapest(u, good, p) && plan_outcome(state, engine, u, p, plan)
}

/// The outcome of `try_to_keep_distance` for agent `u` of `player`.
pub open spec fn keep_distance_outcome<C, P, K, T, R>(
    state: &State,
    engine: &Engine<C, P, K, T, R>,
    player: PlayerId,
    u: ObjId,
    plan: PathPlan,
) -> bool where
    C: Fn(&Command) -> bool,
    P: Fn(ObjId, PosHex) -> Option<Path>,
    K: Fn(&Path, ObjId) -> MovePoints,
    T: Fn(&Path, ObjId) -> Option<Path>,
    R: Fn(usize) -> usize,
 {
    let good = |pos: PosHex| on_board(state.radius(), pos) && keeps_distance(state, player, pos);
    ||| engine.all_cost_at_least(u, good, max_cost()) && plan is CantFindPath
    ||| exists|p: Path| #[trigger] engine.is_first_cheapest(u, board(state.radius()), good, p)
            && plan_outcome(state, engine, u, p, plan)
}

/// The outcome of `try_to_find_bad_path` for agent `u` of `player`.
pub open spec fn bad_path_outcome<C, P, K, T, R>(
    state: &State,
    engine: &Engine<C, P, K, T, R>,
    player: PlayerId,
    u: ObjId,
    r: Option<Command>,
) -> bool where
    C: Fn(&Command) -> bool,
    P: Fn(ObjId, PosHex) -> Option<Path>,
    K: Fn(&Path, ObjId) -> MovePoints,
    T: Fn(&Path, ObjId) -> Option<Path>,
    R: Fn(usize) -> usize,
 {
    let tiles = board(state.radius());
    ||| r is None && forall|j: int, p2: Path|
            0 <= j < tiles.len() && #[trigger] engine.finds(u, tiles[j], Some(p2))
            ==> closest_enemy_distance(state.agents@, player, tiles[j], i32::MAX as int) > 11
    ||| exists|p: Path| #[trigger] is_last_closest(state, engine, player, u, tiles, p) && move_outcome(state, engine, u, p, r)
}

/// The outcome of `try_to_move` for agent `u` of `player`: a plan made by
/// the agent's kind, then a move along the planned path where the rules
/// accept it, or a move along some other path where no plan was found.
pub open spec fn move_decision<C, P, K, T, R>(
    state: &State,
    engine: &Engine<C, P, K, T, R>,
    player: PlayerId,
    u: ObjId,
    r: Option<Command>,
) -> bool where
    C: Fn(&Command) -> bool,
    P: Fn(ObjId, PosHex) -> Option<Path>,
    K: Fn(&Path, ObjId) -> MovePoints,
    T: Fn(&Path, ObjId) -> Option<Path>,
    R: Fn(usize) -> usize,
 {
    exists|plan: PathPlan| {
        &&& #[trigger] plan_for_kind(state, engine, player, u, plan)
        &&& match plan {
            PathPlan::Path(q) => {
                ||| r == Some(move_command(u, q)) && engine.accepts(move_command(u, q), true)
                ||| r is None && engine.accepts(move_command(u, q), false)
            },
            PathPlan::CantFindPath => bad_path_outcome(state, engine, player, u, r),
            PathPlan::DontNeedToMove => r is None,
        }
    }
}

/// The plan made for agent `u` by its kind: imps close in on enemies,
/// bombers and summoners keep their distance.
pub open spec fn plan_for_kind<C, P, K, T, R>(
    state: &State,
    engine: &Engine<C, P, K, T, R>,
    player: PlayerId,
    u: ObjId,
    plan: PathPlan,
) -> bool where
    C: Fn(&Command) -> bool,
    P: Fn(ObjId, PosHex) -> Option<Path>,
    K: Fn(&Path, ObjId) -> MovePoints,
    T: Fn(&Path, ObjId) -> Option<Path>,
    R: Fn(usize) -> usize,
 {
    match state.agent_of(u).kind {
        AgentKind::Imp | AgentKind::ImpToxic => closer_outcome(state, engine, player, u, plan),
        _ => keep_distance_outcome(state, engine, player, u, plan),
    }
}

/// How far agent `id` stands from the closest of its enemies, counting at
/// most the map's diameter.
pub open spec fn closest_enemy_key(state: &State, id: ObjId) -> int {
    closest_enemy_distance(
        state.agents@,
        state.agent_of(id).owner,
        state.agent_of(id).pos,
        2 * state.radius() + 1,
    )
}

/// `ids` are in order of how far each stands from its closest enemy.
pub open spec fn sorted_by_closest_enemy(state: &State, ids: Seq<ObjId>) -> bool {
    forall|i: int, j: int| 0 <= i < j < ids.len()
        ==> closest_enemy_key(state, #[trigger] ids[i]) <= closest_enemy_key(state, #[trigger] ids[j])
}

/// Orders the agents `ids` by how far each stands from its closest enemy,
/// nearest first.
pub fn sort_agents_by_distance_to_closest_enemy(state: &State, ids: &mut Vec<ObjId>)
    requires
        state.wf(),
        old(ids)@.len() >= 2 ==> forall|i: int| 0 <= i < old(ids)@.len() ==> state.has_agent(#[trigger] old(ids)@[i]),
    ensures
        final(ids)@.to_multiset() == old(ids)@.to_multiset(),
        sorted_by_closest_enemy(state, final(ids)@),
        old(ids)@.len() <= 1 ==> final(ids)@ == old(ids)@,
{
    broadcast use vstd::seq_lib::group_to_multiset_ensures;
    if ids.len() <= 1 {
        return;
    }
    let ghost input = ids@;
    let mut sorted: Vec<ObjId> = Vec::new();
    let mut keys: Vec<i32> = Vec::new();
    let mut i: usize = 0;
    while i < ids.len()
        invariant
            state.wf(),
            ids@ == input,
            forall|m: int| 0 <= m < input.len() ==> state.has_agent(#[trigger] input[m]),
            i <= input.len(),
            keys@.len() == sorted@.len(),
            forall|m: int| 0 <= m < sorted@.len() ==> keys@[m] == closest_enemy_key(state, #[trigger] sorted@[m]),
            forall|m: int, n: int| 0 <= m < n < keys@.len() ==> #[trigger] keys@[m] <= #[trigger] keys@[n],
            sorted@.to_multiset() == input.take(i as int).to_multiset(),
        decreases input.len() - i,
    {
        let id = ids[i];
        let agent = state.agent(id);
        proof { crate::hex::lemma_on_board_in_square(state.radius(), agent.pos); }
        let key = closest_enemy_distance_to(state, agent.owner, agent.pos, state.diameter().0);
        let mut p: usize = 0;
        while p < keys.len() && keys[p] <= key
            invariant
                p <= keys@.len(),
                forall|m: int| 0 <= m < p ==> keys@[m] <= key,
            decreases keys.len() - p,
        {
            p += 1;
        }
        proof {
            assert forall|m: int| p <= m < keys@.len() implies keys@[m] > key by {
                assert(keys@[p as int] <= keys@[m]);
            }
            assert(input.take(i + 1) =~= input.take(i as int).push(id));
            vstd::seq_lib::to_multiset_insert(sorted@, p as int, id);
            vstd::seq_lib::to_multiset_build(input.take(i as int), id);
        }
        let ghost before = sorted@;
        sorted.insert(p, id);
        keys.insert(p, key);
        assert(sorted@ == before.insert(p as int, id));
        i += 1;
    }
    proof {
        assert(input.take(input.len() as int) =~= input);
        assert forall|a: int, b: int| 0 <= a < b < sorted@.len() implies
            closest_enemy_key(state, #[trigger] sorted@[a]) <= closest_enemy_key(state, #[trigger] sorted@[b]) by {
            assert(keys@[a] <= keys@[b]);
        }
    }
    *ids = sorted;
}

/// What `try_summon_imp` gives for agent `u`.
pub open spec fn summon_outcome<C, P, K, T, R>(
    state: &State,
    engine: &Engine<C, P, K, T, R>,
    u: ObjId,
    r: Option<Command>,
) -> bool where
    C: Fn(&Command) -> bool,
    P: Fn(ObjId, PosHex) -> Option<Path>,
    K: Fn(&Path, ObjId) -> MovePoints,
    T: Fn(&Path, ObjId) -> Option<Path>,
    R: Fn(usize) -> usize,
 {
    match r {
        Some(c) => c == summon_command(u, state.agent_of(u).pos) && engine.accepts(c, true),
        None => engine.accepts(summon_command(u, state.agent_of(u).pos), false),
    }
}

/// What `try_throw_bomb` may give for agent `u` of `player`.
pub open spec fn bomb_outcome<C, P, K, T, R>(
    state: &State,
    engine: &Engine<C, P, K, T, R>,
    player: PlayerId,
    u: ObjId,
    r: Option<Command>,
) -> bool where
    C: Fn(&Command) -> bool,
    P: Fn(ObjId, PosHex) -> Option<Path>,
    K: Fn(&Path, ObjId) -> MovePoints,
    T: Fn(&Path, ObjId) -> Option<Path>,
    R: Fn(usize) -> usize,
 {
    match r {
        Some(c) => exists|t: ObjId, d: Dir|
            state.is_enemy(player, t)
            && is_free_tile(state, #[trigger] neighbor(state.agent_of(t).pos, d))
            && c == bomb_command(u, neighbor(state.agent_of(t).pos, d))
            && engine.accepts(c, true),
        None => forall|t: ObjId, d: Dir|
            state.is_enemy(player, t) && is_free_tile(state, #[trigger] neighbor(state.agent_of(t).pos, d))
            ==> engine.accepts(bomb_command(u, neighbor(state.agent_of(t).pos, d)), false),
    }
}

/// What `try_to_attack` may give for agent `u` of `player`.
pub open spec fn attack_outcome<C, P, K, T, R>(
    state: &State,
    engine: &Engine<C, P, K, T, R>,
    player: PlayerId,
    u: ObjId,
    r: Option<Command>,
) -> bool where
    C: Fn(&Command) -> bool,
    P: Fn(ObjId, PosHex) -> Option<Path>,
    K: Fn(&Path, ObjId) -> MovePoints,
    T: Fn(&Path, ObjId) -> Option<Path>,
    R: Fn(usize) -> usize,
 {
    match r {
        Some(c) => exists|t: ObjId| state.is_enemy(player, t)
            && c == #[trigger] attack_command(u, t) && engine.accepts(c, true),
        None => forall|t: ObjId| state.is_enemy(player, t)
            ==> engine.accepts(#[trigger] attack_command(u, t), false),
    }
}

/// What the AI may do with agent `u` of `player`: summon, else throw a bomb,
/// else attack, else move; `None` where none of these works.
pub open spec fn unit_action<C, P, K, T, R>(
    state: &State,
    engine: &Engine<C, P, K, T, R>,
    player: PlayerId,
    u: ObjId,
    r: Option<Command>,
) -> bool where
    C: Fn(&Command) -> bool,
    P: Fn(ObjId, PosHex) -> Option<Path>,
    K: Fn(&Path, ObjId) -> MovePoints,
    T: Fn(&Path, ObjId) -> Option<Path>,
    R: Fn(usize) -> usize,
 {
    ||| r is Some && summon_outcome(state, engine, u, r)
    ||| summon_outcome(state, engine, u, None) && r is Some && bomb_outcome(state, engine, player, u, r)
    ||| summon_outcome(state, engine, u, None) && bomb_outcome(state, engine, player, u, None)
        && r is Some && attack_outcome(state, engine, player, u, r)
    ||| summon_outcome(state, engine, u, None) && bomb_outcome(state, engine, player, u, None)
        && attack_outcome(state, engine, player, u, None) && move_decision(state, engine, player, u, r)
}

/// The command the AI may give: the action of the first agent of `player`,
/// in `order`, that has one, or the end of the turn where none has.
pub open spec fn turn_outcome<C, P, K, T, R>(
    state: &State,
    engine: &Engine<C, P, K, T, R>,
    player: PlayerId,
    order: Seq<ObjId>,
    c: Command,
) -> bool where
    C: Fn(&Command) -> bool,
    P: Fn(ObjId, PosHex) -> Option<Path>,
    K: Fn(&Path, ObjId) -> MovePoints,
    T: Fn(&Path, ObjId) -> Option<Path>,
    R: Fn(usize) -> usize,
 {
    ||| c is EndTurn && forall|j: int| 0 <= j < order.len() ==> unit_action(state, engine, player, #[trigger] order[j], None)
    ||| exists|k: int| 0 <= k < order.len()
        && (forall|j: int| 0 <= j < k ==> unit_action(state, engine, player, #[trigger] order[j], None))
        && unit_action(state, engine, player, #[trigger] order[k], Some(c))
}

/// The agent that command `c` sets to work, if any.
pub open spec fn command_actor(c: Command) -> Option<ObjId> {
    match c {
        Command::UseAbility { id, .. } => Some(id),
        Command::Attack { attacker_id, .. } => Some(attacker_id),
        Command::MoveTo { id, .. } => Some(id),
        Command::EndTurn => None,
    }
}

/// An action found for an agent is accepted by the rules and sets that agent
/// to work.
proof fn lemma_unit_action_some<C, P, K, T, R>(
    state: &State,
    engine: &Engine<C, P, K, T, R>,
    player: PlayerId,
    u: ObjId,
    c: Command,
)
    where
        C: Fn(&Command) -> bool,
        P: Fn(ObjId, PosHex) -> Option<Path>,
        K: Fn(&Path, ObjId) -> MovePoints,
        T: Fn(&Path, ObjId) -> Option<Path>,
        R: Fn(usize) -> usize,
    requires
        unit_action(state, engine, player, u, Some(c)),
    ensures
        engine.accepts(c, true),
        command_actor(c) == Some(u),
{
    if summon_outcome(state, engine, u, None) && bomb_outcome(state, engine, player, u, None)
        && attack_outcome(state, engine, player, u, None) && move_decision(state, engine, player, u, Some(c)) {
        let plan = choose|plan: PathPlan| {
            &&& #[trigger] plan_for_kind(state, engine, player, u, plan)
            &&& match plan {
                PathPlan::Path(q) => {
                    ||| Some(c) == Some(move_command(u, q)) && engine.accepts(move_command(u, q), true)
                    ||| Some(c) is None && engine.accepts(move_command(u, q), false)
                },
                PathPlan::CantFindPath => bad_path_outcome(state, engine, player, u, Some(c)),
                PathPlan::DontNeedToMove => Some(c) is None,
            }
        };
        if plan is CantFindPath {
            let tiles = board(state.radius());
            let p = choose|p: Path| #[trigger] is_last_closest(state, engine, player, u, tiles, p)
                && move_outcome(state, engine, u, p, Some(c));
        }
    }
}

/// The AI never gives a command that the rules reject: whatever `command`
/// returns, other than the end of the turn, the rules accept, and it sets to
/// work an agent of the AI's own player.
pub proof fn law_commands_are_accepted<C, P, K, T, R>(
    state: &State,
    engine: &Engine<C, P, K, T, R>,
    player: PlayerId,
    order: Seq<ObjId>,
    c: Command,
)
    where
        C: Fn(&Command) -> bool,
        P: Fn(ObjId, PosHex) -> Option<Path>,
        K: Fn(&Path, ObjId) -> MovePoints,
        T: Fn(&Path, ObjId) -> Option<Path>,
        R: Fn(usize) -> usize,
    requires
        state.wf(),
        order.to_multiset() == ids_by_owner(state.agents@, player, true).to_multiset(),
        turn_outcome(state, engine, player, order, c),
        !(c is EndTurn),
    ensures
        engine.accepts(c, true),
        command_actor(c) is Some && state.is_own(player, command_actor(c)->0),
{
    broadcast use vstd::seq_lib::group_to_multiset_ensures;
    let k = choose|k: int| 0 <= k < order.len()
        && (forall|j: int| 0 <= j < k ==> unit_action(state, engine, player, #[trigger] order[j], None))
        && unit_action(state, engine, player, #[trigger] order[k], Some(c));
    lemma_unit_action_some(state, engine, player, order[k], c);
    lemma_ids_by_owner_members(state, player, true);
    let u = order[k];
    assert(order.contains(u));
    assert(order.to_multiset().count(u) > 0);
    assert(ids_by_owner(state.agents@, player, true).contains(u));
}

/// The AI ends the turn only when none of its agents can summon, throw a
/// bomb at a free tile next to an enemy, or attack an enemy.
pub proof fn law_end_turn_only_when_idle<C, P, K, T, R>(
    state: &State,
    engine: &Engine<C, P, K, T, R>,
    player: PlayerId,
    order: Seq<ObjId>,
    u: ObjId,
    t: ObjId,
    d: Dir,
)
    where
        C: Fn(&Command) -> bool,
        P: Fn(ObjId, PosHex) -> Option<Path>,
        K: Fn(&Path, ObjId) -> MovePoints,
        T: Fn(&Path, ObjId) -> Option<Path>,
        R: Fn(usize) -> usize,
    requires
        state.wf(),
        order.to_multiset() == ids_by_owner(state.agents@, player, true).to_multiset(),
        turn_outcome(state, engine, player, order, Command::EndTurn),
        state.is_own(player, u),
    ensures
        engine.accepts(summon_command(u, state.agent_of(u).pos), false),
        state.is_enemy(player, t) ==> engine.accepts(attack_command(u, t), false),
        state.is_enemy(player, t) && is_free_tile(state, neighbor(state.agent_of(t).pos, d))
            ==> engine.accepts(bomb_command(u, neighbor(state.agent_of(t).pos, d)), false),
{
    broadcast use vstd::seq_lib::group_to_multiset_ensures;
    lemma_ids_by_owner_members(state, player, true);
    assert(ids_by_owner(state.agents@, player, true).contains(u));
    assert(ids_by_owner(state.agents@, player, true).to_multiset().count(u) > 0);
    assert(order.contains(u));
    let j = choose|j: int| 0 <= j < order.len() && order[j] == u;
    if exists|k: int| 0 <= k < order.len()
        && (forall|j: int| 0 <= j < k ==> unit_action(state, engine, player, #[trigger] order[j], None))
        && unit_action(state, engine, player, #[trigger] order[k], Some(Command::EndTurn)) {
        let k = choose|k: int| 0 <= k < order.len()
            && (forall|j: int| 0 <= j < k ==> unit_action(state, engine, player, #[trigger] order[j], None))
            && unit_action(state, engine, player, #[trigger] order[k], Some(Command::EndTurn));
        lemma_unit_action_some(state, engine, player, order[k], Command::EndTurn);
    }
    assert(unit_action(state, engine, player, order[j], None));
}

/// Agent `order[k]` gets as far as the move step: no agent before it in
/// `order` has an action, and it can neither summon, nor throw a bomb, nor
/// attack.
pub open spec fn reaches_move_step<C, P, K, T, R>(
    state: &State,
    engine: &Engine<C, P, K, T, R>,
    player: PlayerId,
    order: Seq<ObjId>,
    k: int,
) -> bool where
    C: Fn(&Command) -> bool,
    P: Fn(ObjId, PosHex) -> Option<Path>,
    K: Fn(&Path, ObjId) -> MovePoints,
    T: Fn(&Path, ObjId) -> Option<Path>,
    R: Fn(usize) -> usize,
 {
    &&& 0 <= k < order.len()
    &&& forall|j: int| 0 <= j < k ==> unit_action(state, engine, player, #[trigger] order[j], None)
    &&& summon_outcome(state, engine, order[k], None)
    &&& bomb_outcome(state, engine, player, order[k], None)
    &&& attack_outcome(state, engine, player, order[k], None)
}

/// The AI knows how to move every agent of `player` that gets as far as the
/// move step, whichever order of the agents by distance to their closest
/// enemy it takes them in.
pub open spec fn knows_kinds_it_moves<C, P, K, T, R>(
    state: &State,
    engine: &Engine<C, P, K, T, R>,
    player: PlayerId,
) -> bool where
    C: Fn(&Command) -> bool,
    P: Fn(ObjId, PosHex) -> Option<Path>,
    K: Fn(&Path, ObjId) -> MovePoints,
    T: Fn(&Path, ObjId) -> Option<Path>,
    R: Fn(usize) -> usize,
 {
    forall|order: Seq<ObjId>, k: int|
        order.to_multiset() == ids_by_owner(state.agents@, player, true).to_multiset()
        && sorted_by_closest_enemy(state, order)
        && #[trigger] reaches_move_step(state, engine, player, order, k)
        ==> state.agent_of(order[k]).kind != AgentKind::Other
}

/// What `find_path_to_nearest_enemy` may give for agent `u` of `player`.
pub open spec fn nearest_enemy_result<C, P, K, T, R>(
    state: &State,
    engine: &Engine<C, P, K, T, R>,
    player: PlayerId,
    u: ObjId,
    r: Option<Path>,
) -> bool where
    C: Fn(&Command) -> bool,
    P: Fn(ObjId, PosHex) -> Option<Path>,
    K: Fn(&Path, ObjId) -> MovePoints,
    T: Fn(&Path, ObjId) -> Option<Path>,
    R: Fn(usize) -> usize,
 {
    match r {
        Some(p) => engine.is_cheapest(u, |pos: PosHex| next_to_enemy(state, player, pos), p),
        None => engine.all_cost_at_least(u, |pos: PosHex| next_to_enemy(state, player, pos), max_cost()),
    }
}

/// What `find_path_to_preserve_distance` gives for agent `u` of `player`.
pub open spec fn preserve_distance_result<C, P, K, T, R>(
    state: &State,
    engine: &Engine<C, P, K, T, R>,
    player: PlayerId,
    u: ObjId,
    r: Option<Path>,
) -> bool where
    C: Fn(&Command) -> bool,
    P: Fn(ObjId, PosHex) -> Option<Path>,
    K: Fn(&Path, ObjId) -> MovePoints,
    T: Fn(&Path, ObjId) -> Option<Path>,
    R: Fn(usize) -> usize,
 {
    let good = |pos: PosHex| on_board(state.radius(), pos) && keeps_distance(state, player, pos);
    match r {
        Some(p) => engine.is_first_cheapest(u, board(state.radius()), good, p),
        None => engine.all_cost_at_least(u, good, max_cost()),
    }
}

/// What `find_any_path` gives for agent `u` of `player`.
pub open spec fn any_path_result<C, P, K, T, R>(
    state: &State,
    engine: &Engine<C, P, K, T, R>,
    player: PlayerId,
    u: ObjId,
    r: Option<Path>,
) -> bool where
    C: Fn(&Command) -> bool,
    P: Fn(ObjId, PosHex) -> Option<Path>,
    K: Fn(&Path, ObjId) -> MovePoints,
    T: Fn(&Path, ObjId) -> Option<Path>,
    R: Fn(usize) -> usize,
 {
    let tiles = board(state.radius());
    match r {
        Some(p) => is_last_closest(state, engine, player, u, tiles, p),
        None => forall|j: int, p2: Path|
            0 <= j < tiles.len() && #[trigger] engine.finds(u, tiles[j], Some(p2))
            ==> closest_enemy_distance(state.agents@, player, tiles[j], i32::MAX as int) > 11,
    }
}

/// What `command` may give for the AI of `player`: always a command, the
/// action of the first agent that has one, in some order of the agents by
/// distance to their closest enemy, or the end of the turn.
pub open spec fn command_result<C, P, K, T, R>(
    state: &State,
    engine: &Engine<C, P, K, T, R>,
    player: PlayerId,
    r: Option<Command>,
) -> bool where
    C: Fn(&Command) -> bool,
    P: Fn(ObjId, PosHex) -> Option<Path>,
    K: Fn(&Path, ObjId) -> MovePoints,
    T: Fn(&Path, ObjId) -> Option<Path>,
    R: Fn(usize) -> usize,
 {
    &&& r is Some
    &&& exists|order: Seq<ObjId>| {
        &&& #[trigger] order.to_multiset() == ids_by_owner(state.agents@, player, true).to_multiset()
        &&& sorted_by_closest_enemy(state, order)
        &&& turn_outcome(state, engine, player, order, r->0)
    }
}

/// A player's AI.
#[derive(Clone, Debug)]
pub struct Ai {
    id: PlayerId,
    distance_map: HexMap<bool>,
}

impl Ai {
    pub closed spec fn wf(&self) -> bool {
        self.distance_map.wf()
    }

    /// The player whose agents this AI commands.
    pub closed spec fn player(&self) -> PlayerId {
        self.id
    }

    /// The radius of the map that the AI plans on.
    pub closed spec fn radius(&self) -> int {
        self.distance_map.spec_radius()
    }

    /// The tiles that the AI last marked as keeping a good distance from enemies.
    pub closed spec fn marks(&self) -> Map<PosHex, bool> {
        self.distance_map@
    }

    /// An AI for player `id` on a map of radius `map_radius`.
    pub fn new(id: PlayerId, map_radius: Distance) -> (ai: Self)
        requires
            0 <= map_radius.0 <= MAX_MAP_RADIUS,
        ensures
            ai.wf(),
            ai.player() == id,
            ai.radius() == map_radius.0,
            forall|pos: PosHex| #[trigger] ai.marks().contains_key(pos) <==> on_board(map_radius.0 as int, pos),
            forall|pos: PosHex| on_board(map_radius.0 as int, pos) ==> #[trigger] ai.marks()[pos] == false,
    {
        Ai { id, distance_map: HexMap::new(map_radius, false) }
    }

    /// A cheapest path for `unit_id` to a tile next to an enemy; enemies are
    /// tried in random order, and among paths of equal cost the first found
    /// is kept.
    pub fn find_path_to_nearest_enemy<C, P, K, T, R>(
        &self,
        state: &State,
        unit_id: ObjId,
        engine: &Engine<C, P, K, T, R>,
    ) -> (r: Option<Path>) where
        C: Fn(&Command) -> bool,
        P: Fn(ObjId, PosHex) -> Option<Path>,
        K: Fn(&Path, ObjId) -> MovePoints,
        T: Fn(&Path, ObjId) -> Option<Path>,
        R: Fn(usize) -> usize,

        requires
            state.wf(),
            engine.ready(),
        ensures
            nearest_enemy_result(state, engine, self.player(), unit_id, r),
    {
        let ghost good = |pos: PosHex| next_to_enemy(state, self.id, pos);
        let targets = shuffle_vec(enemy_agent_ids(state, self.id), &engine.rand);
        let all_dirs = crate::hex::dirs();
        let mut best_path: Option<Path> = None;
        let mut best_cost: i32 = i32::MAX;
        let mut i: usize = 0;
        while i < targets.len()
            invariant
                state.wf(),
                engine.ready(),
                good == |pos: PosHex| next_to_enemy(state, self.id, pos),
                all_dirs@ == crate::hex::all_dirs(),
                forall|t: ObjId| targets@.contains(t) <==> state.is_enemy(self.id, t),
                i <= targets@.len(),
                match best_path {
                    Some(p) => exists|pos: PosHex, c: MovePoints|
                        good(pos) && #[trigger] engine.reaches(unit_id, pos, p, c) && c.0 == best_cost && c.0 < max_cost(),
                    None => best_cost == i32::MAX,
                },
                forall|pos: PosHex, p: Path, c: MovePoints, j: int, d: Dir|
                    0 <= j < i && on_board(state.radius(), pos)
                    && pos == #[trigger] neighbor(state.agent_of(targets@[j]).pos, d)
                    && #[trigger] engine.reaches(unit_id, pos, p, c) ==> c.0 >= best_cost,
            decreases targets.len() - i,
        {
            let target_id = targets[i];
            assert(targets@.contains(target_id));
            let target_pos = state.agent(target_id).pos;
            let mut k: usize = 0;
            while k < all_dirs.len()
                invariant
                    state.wf(),
                    engine.ready(),
                    good == |pos: PosHex| next_to_enemy(state, self.id, pos),
                    all_dirs@ == crate::hex::all_dirs(),
                    forall|t: ObjId| targets@.contains(t) <==> state.is_enemy(self.id, t),
                    i < targets@.len(),
                    target_id == targets@[i as int],
                    state.is_enemy(self.id, target_id),
                    target_pos == state.agent_of(target_id).pos,
                    on_board(state.radius(), target_pos),
                    k <= all_dirs@.len(),
                    match best_path {
                        Some(p) => exists|pos: PosHex, c: MovePoints|
                            good(pos) && #[trigger] engine.reaches(unit_id, pos, p, c) && c.0 == best_cost && c.0 < max_cost(),
                        None => best_cost == i32::MAX,
                    },
                    forall|pos: PosHex, p: Path, c: MovePoints, j: int, d: Dir|
                        0 <= j < i && on_board(state.radius(), pos)
                        && pos == #[trigger] neighbor(state.agent_of(targets@[j]).pos, d)
                        && #[trigger] engine.reaches(unit_id, pos, p, c) ==> c.0 >= best_cost,
                    forall|pos: PosHex, p: Path, c: MovePoints, m: int|
                        0 <= m < k && on_board(state.radius(), pos)
                        && pos == #[trigger] neighbor(target_pos, all_dirs@[m])
                        && #[trigger] engine.reaches(unit_id, pos, p, c) ==> c.0 >= best_cost,
                decreases all_dirs.len() - k,
            {
                let dir = all_dirs[k];
                proof { crate::hex::lemma_on_board_in_square(state.radius(), target_pos); }
                let pos = Dir::get_neighbor_pos(target_pos, dir);
                if state.is_inboard(pos) {
                    let found = (engine.path_to)(unit_id, pos);
                    match found {
                        Some(path) => {
                            let cost = (engine.cost)(&path, unit_id);
                            proof {
                                assert(pos == neighbor(state.agent_of(target_id).pos, dir));
                                assert(good(pos));
                                assert(engine.reaches(unit_id, pos, path, cost));
                            }
                            if best_cost > cost.0 {
                                best_cost = cost.0;
                                best_path = Some(path);
                            }
                        },
                        None => {},
                    }
                }
                k += 1;
            }
            proof {
                assert forall|pos: PosHex, p: Path, c: MovePoints, j: int, d: Dir|
                    0 <= j < i + 1 && on_board(state.radius(), pos)
                    && pos == #[trigger] neighbor(state.agent_of(targets@[j]).pos, d)
                    && #[trigger] engine.reaches(unit_id, pos, p, c) implies c.0 >= best_cost by {
                    if j == i {
                        lemma_all_dirs(d);
                        let m = choose|m: int| 0 <= m < 6 && crate::hex::all_dirs()[m] == d;
                        assert(pos == neighbor(target_pos, all_dirs@[m]));
                    }
                }
            }
            i += 1;
        }
        proof {
            assert forall|pos: PosHex, p: Path, c: MovePoints|
                good(pos) && #[trigger] engine.reaches(unit_id, pos, p, c) implies c.0 >= best_cost by {
                let (t, d) = choose|t: ObjId, d: Dir| state.is_enemy(self.id, t) && pos == #[trigger] neighbor(state.agent_of(t).pos, d);
                assert(targets@.contains(t));
                let j = choose|j: int| 0 <= j < targets@.len() && targets@[j] == t;
                assert(pos == neighbor(state.agent_of(targets@[j]).pos, d));
            }
        }
        best_path
    }

    /// A path for `unit_id` to the last tile, in the map's order, among the
    /// reachable tiles closest to an enemy, if that tile is at most eleven
    /// steps from it.
    pub fn find_any_path<C, P, K, T, R>(
        &self,
        state: &State,
        unit_id: ObjId,
        engine: &Engine<C, P, K, T, R>,
    ) -> (r: Option<Path>) where
        C: Fn(&Command) -> bool,
        P: Fn(ObjId, PosHex) -> Option<Path>,
        K: Fn(&Path, ObjId) -> MovePoints,
        T: Fn(&Path, ObjId) -> Option<Path>,
        R: Fn(usize) -> usize,

        requires
            self.wf(),
            state.wf(),
            engine.ready(),
            self.radius() == state.radius(),
        ensures
            any_path_result(state, engine, self.player(), unit_id, r),
    {
        let ghost radius = state.radius();
        let ghost md = |pos: PosHex| closest_enemy_distance(state.agents@, self.id, pos, i32::MAX as int);
        let tiles = self.distance_map.iter();
        let mut best_path: Option<Path> = None;
        let mut best_distance: i32 = 11;
        let ghost mut best_index: int = 0;
        let mut n: usize = 0;
        while n < tiles.len()
            invariant
                state.wf(),
                engine.ready(),
                radius == state.radius(),
                0 <= radius <= MAX_MAP_RADIUS,
                md == |pos: PosHex| closest_enemy_distance(state.agents@, self.id, pos, i32::MAX as int),
                tiles@ == board(radius),
                n <= tiles@.len(),
                best_distance <= 11,
                best_path is Some ==> {
                    &&& 0 <= best_index < n
                    &&& engine.finds(unit_id, tiles@[best_index], Some(best_path->0))
                    &&& md(tiles@[best_index]) == best_distance
                    &&& forall|j: int, p2: Path|
                        best_index < j < n && #[trigger] engine.finds(unit_id, tiles@[j], Some(p2))
                        ==> md(tiles@[j]) > best_distance
                },
                best_path is None ==> best_distance == 11,
                best_path is None ==> forall|j: int, p2: Path|
                    0 <= j < n && #[trigger] engine.finds(unit_id, tiles@[j], Some(p2)) ==> md(tiles@[j]) > 11,
                forall|j: int, p2: Path|
                    0 <= j < n && #[trigger] engine.finds(unit_id, tiles@[j], Some(p2)) ==> md(tiles@[j]) >= best_distance,
            decreases tiles.len() - n,
        {
            let pos = tiles[n];
            proof {
                lemma_board_members(radius, pos);
                assert(tiles@.contains(pos));
                crate::hex::lemma_on_board_in_square(radius, pos);
            }
            match (engine.path_to)(unit_id, pos) {
                Some(path) => {
                    let distance = closest_enemy_distance_to(state, self.id, pos, i32::MAX);
                    assert(md(tiles@[n as int]) == distance);
                    if distance <= best_distance {
                        best_path = Some(path);
                        best_distance = distance;
                        proof { best_index = n as int; }
                    }
                },
                None => {},
            }
            n += 1;
        }
        proof {
            if best_path is Some {
                let p = best_path->0;
                assert(engine.finds(unit_id, tiles@[best_index], Some(p)));
            }
        }
        best_path
    }

    /// A bomb thrown by `unit_id` at a free tile next to an enemy, which the
    /// rules accept; enemies and directions are tried in random order.
    pub fn try_throw_bomb<C, P, K, T, R>(
        &self,
        state: &State,
        unit_id: ObjId,
        engine: &Engine<C, P, K, T, R>,
    ) -> (r: Option<Command>) where
        C: Fn(&Command) -> bool,
        P: Fn(ObjId, PosHex) -> Option<Path>,
        K: Fn(&Path, ObjId) -> MovePoints,
        T: Fn(&Path, ObjId) -> Option<Path>,
        R: Fn(usize) -> usize,

        requires
            state.wf(),
            engine.ready(),
        ensures
            bomb_outcome(state, engine, self.player(), unit_id, r),
    {
        let targets = shuffle_vec(enemy_agent_ids(state, self.id), &engine.rand);
        let mut i: usize = 0;
        while i < targets.len()
            invariant
                state.wf(),
                engine.ready(),
                forall|t: ObjId| targets@.contains(t) <==> state.is_enemy(self.id, t),
                i <= targets@.len(),
                forall|j: int, d: Dir|
                    0 <= j < i && is_free_tile(state, #[trigger] neighbor(state.agent_of(targets@[j]).pos, d))
                    ==> engine.accepts(bomb_command(unit_id, neighbor(state.agent_of(targets@[j]).pos, d)), false),
            decreases targets.len() - i,
        {
            let target_id = targets[i];
            assert(targets@.contains(target_id));
            let target_pos = state.agent(target_id).pos;
            proof { crate::hex::lemma_on_board_in_square(state.radius(), target_pos); }
            let dirs = shuffle_vec(crate::hex::dirs(), &engine.rand);
            let mut k: usize = 0;
            while k < dirs.len()
                invariant
                    state.wf(),
                    engine.ready(),
                    forall|t: ObjId| targets@.contains(t) <==> state.is_enemy(self.id, t),
                    i < targets@.len(),
                    target_id == targets@[i as int],
                    state.is_enemy(self.id, target_id),
                    target_pos == state.agent_of(target_id).pos,
                    crate::hex::coords_in_range(target_pos),
                    forall|d: Dir| dirs@.contains(d) <==> crate::hex::all_dirs().contains(d),
                    k <= dirs@.len(),
                    forall|j: int, d: Dir|
                        0 <= j < i && is_free_tile(state, #[trigger] neighbor(state.agent_of(targets@[j]).pos, d))
                        ==> engine.accepts(bomb_command(unit_id, neighbor(state.agent_of(targets@[j]).pos, d)), false),
                    forall|m: int|
                        0 <= m < k && is_free_tile(state, #[trigger] neighbor(target_pos, dirs@[m]))
                        ==> engine.accepts(bomb_command(unit_id, neighbor(target_pos, dirs@[m])), false),
                decreases dirs.len() - k,
            {
                let dir = dirs[k];
                let pos = Dir::get_neighbor_pos(target_pos, dir);
                if !state.is_inboard(pos) || state.is_tile_blocked(pos) {
                    k += 1;
                    continue;
                }
                let command = Command::UseAbility { id: unit_id, pos, ability: Ability::Bomb(Distance(3)) };
                if (engine.check)(&command) {
                    proof {
                        assert(command == bomb_command(unit_id, neighbor(state.agent_of(target_id).pos, dir)));
                    }
                    return Some(command);
                }
                k += 1;
            }
            proof {
                assert forall|j: int, d: Dir|
                    0 <= j < i + 1 && is_free_tile(state, #[trigger] neighbor(state.agent_of(targets@[j]).pos, d))
                    implies engine.accepts(bomb_command(unit_id, neighbor(state.agent_of(targets@[j]).pos, d)), false) by {
                    if j == i {
                        lemma_all_dirs(d);
                        let m0 = choose|m: int| 0 <= m < 6 && crate::hex::all_dirs()[m] == d;
                        assert(crate::hex::all_dirs().contains(d));
                        assert(dirs@.contains(d));
                        let m = choose|m: int| 0 <= m < dirs@.len() && dirs@[m] == d;
                        assert(neighbor(target_pos, dirs@[m]) == neighbor(state.agent_of(targets@[j]).pos, d));
                    }
                }
            }
            i += 1;
        }
        proof {
            assert forall|t: ObjId, d: Dir|
                state.is_enemy(self.id, t) && is_free_tile(state, #[trigger] neighbor(state.agent_of(t).pos, d))
                implies engine.accepts(bomb_command(unit_id, neighbor(state.agent_of(t).pos, d)), false) by {
                assert(targets@.contains(t));
                let j = choose|j: int| 0 <= j < targets@.len() && targets@[j] == t;
                assert(neighbor(state.agent_of(targets@[j]).pos, d) == neighbor(state.agent_of(t).pos, d));
            }
        }
        None
    }

    /// Three imps summoned by `unit_id` around its own tile, if the rules
    /// accept that.
    pub fn try_summon_imp<C, P, K, T, R>(
        &self,
        state: &State,
        unit_id: ObjId,
        engine: &Engine<C, P, K, T, R>,
    ) -> (r: Option<Command>) where
        C: Fn(&Command) -> bool,
        P: Fn(ObjId, PosHex) -> Option<Path>,
        K: Fn(&Path, ObjId) -> MovePoints,
        T: Fn(&Path, ObjId) -> Option<Path>,
        R: Fn(usize) -> usize,

        requires
            state.wf(),
            engine.ready(),
            state.has_agent(unit_id),
        ensures
            match r {
                Some(c) => c == summon_command(unit_id, state.agent_of(unit_id).pos) && engine.accepts(c, true),
                None => engine.accepts(summon_command(unit_id, state.agent_of(unit_id).pos), false),
            },
    {
        let target_pos = state.agent(unit_id).pos;
        let command = Command::UseAbility { id: unit_id, pos: target_pos, ability: Ability::Summon(3) };
        if (engine.check)(&command) {
            return Some(command);
        }
        None
    }

    /// An attack by `unit_id` on an enemy, which the rules accept; enemies
    /// are tried in random order.
    pub fn try_to_attack<C, P, K, T, R>(
        &self,
        state: &State,
        unit_id: ObjId,
        engine: &Engine<C, P, K, T, R>,
    ) -> (r: Option<Command>) where
        C: Fn(&Command) -> bool,
        P: Fn(ObjId, PosHex) -> Option<Path>,
        K: Fn(&Path, ObjId) -> MovePoints,
        T: Fn(&Path, ObjId) -> Option<Path>,
        R: Fn(usize) -> usize,

        requires
            state.wf(),
            engine.ready(),
        ensures
            match r {
                Some(c) => exists|t: ObjId| state.is_enemy(self.player(), t)
                    && c == #[trigger] attack_command(unit_id, t) && engine.accepts(c, true),
                None => forall|t: ObjId| state.is_enemy(self.player(), t)
                    ==> engine.accepts(#[trigger] attack_command(unit_id, t), false),
            },
    {
        let targets = shuffle_vec(enemy_agent_ids(state, self.id), &engine.rand);
        let mut i: usize = 0;
        while i < targets.len()
            invariant
                state.wf(),
                engine.ready(),
                forall|t: ObjId| targets@.contains(t) <==> state.is_enemy(self.id, t),
                i <= targets@.len(),
                forall|j: int| 0 <= j < i ==> engine.accepts(#[trigger] attack_command(unit_id, targets@[j]), false),
            decreases targets.len() - i,
        {
            let target_id = targets[i];
            let command = Command::Attack { attacker_id: unit_id, target_id };
            if (engine.check)(&command) {
                proof {
                    assert(targets@.contains(target_id));
                    assert(command == attack_command(unit_id, target_id));
                }
                return Some(command);
            }
            i += 1;
        }
        proof {
            assert forall|t: ObjId| state.is_enemy(self.id, t) implies
                engine.accepts(#[trigger] attack_command(unit_id, t), false) by {
                assert(targets@.contains(t));
                let j = choose|j: int| 0 <= j < targets@.len() && targets@[j] == t;
                assert(attack_command(unit_id, targets@[j]) == attack_command(unit_id, t));
            }
        }
        None
    }

    /// A move by `unit_id` along the part of `path` that it can walk this
    /// turn, if it can afford it and the rules accept it.
    fn try_move_along<C, P, K, T, R>(
        state: &State,
        unit_id: ObjId,
        path: &Path,
        engine: &Engine<C, P, K, T, R>,
    ) -> (r: Option<Command>) where
        C: Fn(&Command) -> bool,
        P: Fn(ObjId, PosHex) -> Option<Path>,
        K: Fn(&Path, ObjId) -> MovePoints,
        T: Fn(&Path, ObjId) -> Option<Path>,
        R: Fn(usize) -> usize,

        requires
            state.wf(),
            engine.ready(),
            state.has_agent(unit_id),
        ensures
            move_outcome(state, engine, unit_id, *path, r),
    {
        let truncated = match (engine.truncate)(path, unit_id) {
            Some(truncated) => truncated,
            None => return None,
        };
        let cost = (engine.cost)(&truncated, unit_id);
        let agent = state.agent(unit_id);
        if agent.move_points.0 < cost.0 {
            return None;
        }
        let ghost q = truncated;
        let command = Command::MoveTo { id: unit_id, path: truncated };
        if (engine.check)(&command) {
            proof {
                assert(engine.truncates(*path, unit_id, Some(q)) && engine.costs(q, unit_id, cost));
                assert(command == move_command(unit_id, q));
            }
            return Some(command);
        }
        None
    }

    /// The plan made from `path`, found for `unit_id`.
    fn plan_from_path<C, P, K, T, R>(
        state: &State,
        unit_id: ObjId,
        path: Path,
        engine: &Engine<C, P, K, T, R>,
    ) -> (r: PathPlan) where
        C: Fn(&Command) -> bool,
        P: Fn(ObjId, PosHex) -> Option<Path>,
        K: Fn(&Path, ObjId) -> MovePoints,
        T: Fn(&Path, ObjId) -> Option<Path>,
        R: Fn(usize) -> usize,

        requires
            state.wf(),
            engine.ready(),
            state.has_agent(unit_id),
        ensures
            plan_outcome(state, engine, unit_id, path, r),
    {
        if path.tiles.len() == 1 {
            return PathPlan::DontNeedToMove;
        }
        match Self::try_move_along(state, unit_id, &path, engine) {
            Some(Command::MoveTo { path: truncated, .. }) => PathPlan::Path(truncated),
            _ => PathPlan::CantFindPath,
        }
    }

    /// A plan to bring `unit_id` next to an enemy, along a cheapest path.
    pub fn try_to_move_closer<C, P, K, T, R>(
        &self,
        state: &State,
        unit_id: ObjId,
        engine: &Engine<C, P, K, T, R>,
    ) -> (r: PathPlan) where
        C: Fn(&Command) -> bool,
        P: Fn(ObjId, PosHex) -> Option<Path>,
        K: Fn(&Path, ObjId) -> MovePoints,
        T: Fn(&Path, ObjId) -> Option<Path>,
        R: Fn(usize) -> usize,

        requires
            state.wf(),
            engine.ready(),
            state.has_agent(unit_id),
        ensures
            closer_outcome(state, engine, self.player(), unit_id, r),
    {
        let path = match self.find_path_to_nearest_enemy(state, unit_id, engine) {
            Some(path) => path,
            None => return PathPlan::CantFindPath,
        };
        Self::plan_from_path(state, unit_id, path, engine)
    }

    /// A plan to bring `unit_id` to a tile that keeps a good distance from
    /// the enemies, along a cheapest path.
    pub fn try_to_keep_distance<C, P, K, T, R>(
        &mut self,
        state: &State,
        unit_id: ObjId,
        engine: &Engine<C, P, K, T, R>,
    ) -> (r: PathPlan) where
        C: Fn(&Command) -> bool,
        P: Fn(ObjId, PosHex) -> Option<Path>,
        K: Fn(&Path, ObjId) -> MovePoints,
        T: Fn(&Path, ObjId) -> Option<Path>,
        R: Fn(usize) -> usize,

        requires
            old(self).wf(),
            state.wf(),
            engine.ready(),
            old(self).radius() == state.radius(),
            state.has_agent(unit_id),
        ensures
            final(self).wf(),
            final(self).player() == old(self).player(),
            final(self).radius() == old(self).radius(),
            keep_distance_outcome(state, engine, old(self).player(), unit_id, r),
    {
        let path = match self.find_path_to_preserve_distance(state, unit_id, engine) {
            Some(path) => path,
            None => return PathPlan::CantFindPath,
        };
        Self::plan_from_path(state, unit_id, path, engine)
    }

    /// A move by `unit_id` along part of the path that `find_any_path`
    /// finds, if it can afford it and the rules accept it.
    pub fn try_to_find_bad_path<C, P, K, T, R>(
        &self,
        state: &State,
        unit_id: ObjId,
        engine: &Engine<C, P, K, T, R>,
    ) -> (r: Option<Command>) where
        C: Fn(&Command) -> bool,
        P: Fn(ObjId, PosHex) -> Option<Path>,
        K: Fn(&Path, ObjId) -> MovePoints,
        T: Fn(&Path, ObjId) -> Option<Path>,
        R: Fn(usize) -> usize,

        requires
            self.wf(),
            state.wf(),
            engine.ready(),
            self.radius() == state.radius(),
            state.has_agent(unit_id),
        ensures
            bad_path_outcome(state, engine, self.player(), unit_id, r),
    {
        let path = match self.find_any_path(state, unit_id, engine) {
            Some(path) => path,
            None => return None,
        };
        Self::try_move_along(state, unit_id, &path, engine)
    }

    /// A move for `unit_id`, planned by its kind: imps close in on enemies,
    /// bombers and summoners keep their distance; where no plan is found, a
    /// move along some path towards the enemies.
    pub fn try_to_move<C, P, K, T, R>(
        &mut self,
        state: &State,
        unit_id: ObjId,
        engine: &Engine<C, P, K, T, R>,
    ) -> (r: Option<Command>) where
        C: Fn(&Command) -> bool,
        P: Fn(ObjId, PosHex) -> Option<Path>,
        K: Fn(&Path, ObjId) -> MovePoints,
        T: Fn(&Path, ObjId) -> Option<Path>,
        R: Fn(usize) -> usize,

        requires
            old(self).wf(),
            state.wf(),
            engine.ready(),
            old(self).radius() == state.radius(),
            state.has_agent(unit_id),
            state.agent_of(unit_id).kind != AgentKind::Other,
        ensures
            final(self).wf(),
            final(self).player() == old(self).player(),
            final(self).radius() == old(self).radius(),
            move_decision(state, engine, old(self).player(), unit_id, r),
    {
        let ghost player = self.id;
        let plan = match state.agent(unit_id).kind {
            AgentKind::Imp | AgentKind::ImpToxic => self.try_to_move_closer(state, unit_id, engine),
            _ => self.try_to_keep_distance(state, unit_id, engine),
        };
        // the witness for `move_decision`
        assert(plan_for_kind(state, engine, player, unit_id, plan));
        match plan {
            PathPlan::Path(path) => {
                let command = Command::MoveTo { id: unit_id, path };
                if (engine.check)(&command) {
                    Some(command)
                } else {
                    None
                }
            },
            PathPlan::CantFindPath => self.try_to_find_bad_path(state, unit_id, engine),
            PathPlan::DontNeedToMove => None,
        }
    }

    /// The AI's next command: its agents, nearest to an enemy first, each
    /// try to summon, throw a bomb, attack and move, in that order; the
    /// first that can gives the command; where none can, the turn ends.
    pub fn command<C, P, K, T, R>(
        &mut self,
        state: &State,
        engine: &Engine<C, P, K, T, R>,
    ) -> (r: Option<Command>) where
        C: Fn(&Command) -> bool,
        P: Fn(ObjId, PosHex) -> Option<Path>,
        K: Fn(&Path, ObjId) -> MovePoints,
        T: Fn(&Path, ObjId) -> Option<Path>,
        R: Fn(usize) -> usize,

        requires
            old(self).wf(),
            state.wf(),
            engine.ready(),
            old(self).radius() == state.radius(),
            knows_kinds_it_moves(state, engine, old(self).player()),
        ensures
            final(self).wf(),
            final(self).player() == old(self).player(),
            final(self).radius() == old(self).radius(),
            r is Some,
            command_result(state, engine, old(self).player(), r),
    {
        broadcast use vstd::seq_lib::group_to_multiset_ensures;
        let ghost player = self.id;
        let mut ids = players_agent_ids(state, self.id);
        let ghost own = ids@;
        proof {
            assert forall|i: int| 0 <= i < ids@.len() implies state.has_agent(#[trigger] ids@[i]) by {
                assert(ids@.contains(ids@[i]));
            }
        }
        sort_agents_by_distance_to_closest_enemy(state, &mut ids);
        proof {
            assert forall|t: ObjId| ids@.contains(t) <==> own.contains(t) by {
                assert(ids@.to_multiset().count(t) == own.to_multiset().count(t));
            }
        }
        let mut n: usize = 0;
        while n < ids.len()
            invariant
                self.wf(),
                self.id == player,
                player == old(self).player(),
                self.radius() == state.radius(),
                old(self).radius() == state.radius(),
                state.wf(),
                engine.ready(),
                knows_kinds_it_moves(state, engine, player),
                forall|t: ObjId| ids@.contains(t) <==> state.is_own(player, t),
                ids@.to_multiset() == ids_by_owner(state.agents@, player, true).to_multiset(),
                sorted_by_closest_enemy(state, ids@),
                n <= ids@.len(),
                forall|j: int| 0 <= j < n ==> unit_action(state, engine, player, #[trigger] ids@[j], None),
            decreases ids.len() - n,
        {
            let unit_id = ids[n];
            proof {
                assert(ids@.contains(unit_id));
                let i = choose|i: int| 0 <= i < state.agents@.len() && #[trigger] state.agents@[i].id == unit_id;
                assert(state.agents@[i].owner == player);
            }
            let summon = self.try_summon_imp(state, unit_id, engine);
            if summon.is_some() {
                proof {
                    assert(unit_action(state, engine, player, ids@[n as int], summon));
                    assert(turn_outcome(state, engine, player, ids@, summon->0));
                }
                return summon;
            }
            let bomb = self.try_throw_bomb(state, unit_id, engine);
            if bomb.is_some() {
                proof {
                    assert(unit_action(state, engine, player, ids@[n as int], bomb));
                    assert(turn_outcome(state, engine, player, ids@, bomb->0));
                }
                return bomb;
            }
            let attack = self.try_to_attack(state, unit_id, engine);
            if attack.is_some() {
                proof {
                    assert(unit_action(state, engine, player, ids@[n as int], attack));
                    assert(turn_outcome(state, engine, player, ids@, attack->0));
                }
                return attack;
            }
            proof {
                assert(reaches_move_step(state, engine, player, ids@, n as int));
            }
            let movement = self.try_to_move(state, unit_id, engine);
            if movement.is_some() {
                proof {
                    assert(unit_action(state, engine, player, ids@[n as int], movement));
                    assert(turn_outcome(state, engine, player, ids@, movement->0));
                }
                return movement;
            }
            proof {
                assert(unit_action(state, engine, player, ids@[n as int], None));
            }
            n += 1;
        }
        proof {
            assert(turn_outcome(state, engine, player, ids@, Command::EndTurn));
        }
        Some(Command::EndTurn)
    }

    /// Marks the tiles that keep a good distance from the enemies, then finds
    /// a cheapest path for `unit_id` to one of them; among paths of equal cost
    /// the one to the first tile in the map's order is kept.
    pub fn find_path_to_preserve_distance<C, P, K, T, R>(
        &mut self,
        state: &State,
        unit_id: ObjId,
        engine: &Engine<C, P, K, T, R>,
    ) -> (r: Option<Path>) where
        C: Fn(&Command) -> bool,
        P: Fn(ObjId, PosHex) -> Option<Path>,
        K: Fn(&Path, ObjId) -> MovePoints,
        T: Fn(&Path, ObjId) -> Option<Path>,
        R: Fn(usize) -> usize,

        requires
            old(self).wf(),
            state.wf(),
            engine.ready(),
            old(self).radius() == state.radius(),
        ensures
            final(self).wf(),
            final(self).player() == old(self).player(),
            final(self).radius() == old(self).radius(),
            forall|pos: PosHex| #[trigger] final(self).marks().contains_key(pos) <==> on_board(state.radius(), pos),
            forall|pos: PosHex| on_board(state.radius(), pos)
                ==> #[trigger] final(self).marks()[pos] == keeps_distance(state, old(self).player(), pos),
            preserve_distance_result(state, engine, old(self).player(), unit_id, r),
    {
        let ghost player = self.id;
        self.mark_keep_distance_tiles(state);
        let ghost radius = state.radius();
        let ghost good = |pos: PosHex| on_board(state.radius(), pos) && keeps_distance(state, self.id, pos);
        let tiles = self.distance_map.iter();
        let mut best_path: Option<Path> = None;
        let mut best_cost: i32 = i32::MAX;
        let ghost mut best_index: int = 0;
        let mut n: usize = 0;
        while n < tiles.len()
            invariant
                self.wf(),
                self.radius() == radius,
                radius == state.radius(),
                0 <= radius <= MAX_MAP_RADIUS,
                engine.ready(),
                good == |pos: PosHex| on_board(state.radius(), pos) && keeps_distance(state, self.id, pos),
                tiles@ == board(radius),
                forall|pos: PosHex| #[trigger] self.marks().contains_key(pos) <==> on_board(radius, pos),
                forall|pos: PosHex| on_board(radius, pos) ==> #[trigger] self.marks()[pos] == keeps_distance(state, self.id, pos),
                n <= tiles@.len(),
                match best_path {
                    Some(p) => {
                        &&& 0 <= best_index < n
                        &&& good(tiles@[best_index])
                        &&& best_cost < max_cost()
                        &&& engine.reaches(unit_id, tiles@[best_index], p, MovePoints(best_cost))
                        &&& forall|j: int, p2: Path, c2: MovePoints|
                            0 <= j < best_index && good(tiles@[j]) && #[trigger] engine.reaches(unit_id, tiles@[j], p2, c2)
                            ==> c2.0 > best_cost
                    },
                    None => best_cost == i32::MAX,
                },
                forall|j: int, p2: Path, c2: MovePoints|
                    0 <= j < n && good(tiles@[j]) && #[trigger] engine.reaches(unit_id, tiles@[j], p2, c2)
                    ==> c2.0 >= best_cost,
            decreases tiles.len() - n,
        {
            let pos = tiles[n];
            proof {
                lemma_board_members(radius, pos);
                assert(tiles@.contains(pos));
            }
            assert(self.marks().contains_key(pos));
            if self.distance_map.tile(pos) {
                assert(good(tiles@[n as int]));
                match (engine.path_to)(unit_id, pos) {
                    Some(path) => {
                        let cost = (engine.cost)(&path, unit_id);
                        assert(MovePoints(cost.0) == cost);
                        if best_cost > cost.0 {
                            best_cost = cost.0;
                            best_path = Some(path);
                            proof { best_index = n as int; }
                        }
                    },
                    None => {},
                }
            }
            n += 1;
        }
        proof {
            assert forall|pos: PosHex, p: Path, c: MovePoints|
                good(pos) && #[trigger] engine.reaches(unit_id, pos, p, c) implies c.0 >= best_cost by {
                lemma_board_members(radius, pos);
                let j = choose|j: int| 0 <= j < tiles@.len() && tiles@[j] == pos;
                assert(engine.reaches(unit_id, tiles@[j], p, c));
            }
            if best_path is Some {
                assert(engine.reaches(unit_id, tiles@[best_index], best_path->0, MovePoints(best_cost)));
            }
        }
        best_path
    }

    /// Marks the tiles that keep a good distance from the enemies.
    fn mark_keep_distance_tiles(&mut self, state: &State)
        requires
            old(self).wf(),
            state.wf(),
            old(self).radius() == state.radius(),
        ensures
            final(self).wf(),
            final(self).player() == old(self).player(),
            final(self).radius() == old(self).radius(),
            forall|pos: PosHex| #[trigger] final(self).marks().contains_key(pos) <==> on_board(state.radius(), pos),
            forall|pos: PosHex| on_board(state.radius(), pos)
                ==> #[trigger] final(self).marks()[pos] == keeps_distance(state, old(self).player(), pos),
    {
        let ghost radius = state.radius();
        let ghost player = self.id;
        let tiles = self.distance_map.iter();
        proof {
            crate::hex::lemma_hex_map_domain(&self.distance_map);
            assert forall|pos: PosHex| #[trigger] tiles@.contains(pos) implies on_board(radius, pos) by {
                lemma_board_members(radius, pos);
            }
        }
        // clean the map
        let mut n: usize = 0;
        while n < tiles.len()
            invariant
                self.wf(),
                self.id == player,
                self.radius() == radius,
                0 <= radius <= MAX_MAP_RADIUS,
                forall|pos: PosHex| #[trigger] tiles@.contains(pos) ==> on_board(radius, pos),
                n <= tiles@.len(),
                forall|pos: PosHex| on_board(radius, pos) ==> self.marks().contains_key(pos),
                forall|m: int| 0 <= m < n ==> #[trigger] self.marks()[tiles@[m]] == false,
            decreases tiles.len() - n,
        {
            assert(tiles@.contains(tiles@[n as int]));
            self.distance_map.set_tile(tiles[n], false);
            n += 1;
        }
        proof {
            assert forall|pos: PosHex| on_board(radius, pos) implies #[trigger] self.marks()[pos] == false by {
                lemma_board_members(radius, pos);
                let m = choose|m: int| 0 <= m < tiles@.len() && tiles@[m] == pos;
                assert(self.marks()[tiles@[m]] == false);
            }
        }
        let enemies = enemy_agent_ids(state, self.id);
        let distance_min: i32 = 2;
        let distance_max: i32 = 4;
        let mut n: usize = 0;
        while n < tiles.len()
            invariant
                self.wf(),
                state.wf(),
                self.id == player,
                self.radius() == radius,
                radius == state.radius(),
                0 <= radius <= MAX_MAP_RADIUS,
                forall|pos: PosHex| #[trigger] tiles@.contains(pos) ==> on_board(radius, pos),
                forall|t: ObjId| enemies@.contains(t) <==> state.is_enemy(player, t),
                distance_min == 2 && distance_max == 4,
                n <= tiles@.len(),
                forall|pos: PosHex| on_board(radius, pos) ==> self.marks().contains_key(pos),
                forall|pos: PosHex| on_board(radius, pos) ==> #[trigger] self.marks()[pos]
                    == (keeps_distance(state, player, pos) && tiles@.take(n as int).contains(pos)),
            decreases tiles.len() - n,
        {
            let pos = tiles[n];
            assert(tiles@.contains(pos));
            proof { crate::hex::lemma_on_board_in_square(radius, pos); }
            let ghost before = self.marks()[pos];
            let mut k: usize = 0;
            while k < enemies.len()
                invariant
                    self.wf(),
                    state.wf(),
                    self.id == player,
                    self.radius() == radius,
                    radius == state.radius(),
                    on_board(radius, pos),
                    -radius <= pos.q <= radius && -radius <= pos.r <= radius,
                    0 <= radius <= MAX_MAP_RADIUS,
                    forall|t: ObjId| enemies@.contains(t) <==> state.is_enemy(player, t),
                    distance_min == 2 && distance_max == 4,
                    k <= enemies@.len(),
                    forall|x: PosHex| on_board(radius, x) ==> self.marks().contains_key(x),
                    forall|x: PosHex| on_board(radius, x) && x != pos ==> #[trigger] self.marks()[x]
                        == (keeps_distance(state, player, x) && tiles@.take(n as int).contains(x)),
                    self.marks()[pos] == (before || exists|j: int| 0 <= j < k
                        && #[trigger] hex_distance(pos, state.agent_of(enemies@[j]).pos) <= 4),
                decreases enemies.len() - k,
            {
                let enemy_id = enemies[k];
                assert(enemies@.contains(enemy_id));
                let enemy_pos = state.agent(enemy_id).pos;
                proof { crate::hex::lemma_on_board_in_square(radius, enemy_pos); }
                let distance = crate::hex::distance_hex(pos, enemy_pos);
                assert(distance.0 == hex_distance(pos, state.agent_of(enemies@[k as int]).pos));
                if distance.0 <= distance_max {
                    self.distance_map.set_tile(pos, true);
                }
                k += 1;
            }
            let ghost middle = self.marks()[pos];
            let mut k: usize = 0;
            while k < enemies.len()
                invariant
                    self.wf(),
                    state.wf(),
                    self.id == player,
                    self.radius() == radius,
                    radius == state.radius(),
                    on_board(radius, pos),
                    -radius <= pos.q <= radius && -radius <= pos.r <= radius,
                    0 <= radius <= MAX_MAP_RADIUS,
                    forall|t: ObjId| enemies@.contains(t) <==> state.is_enemy(player, t),
                    distance_min == 2 && distance_max == 4,
                    k <= enemies@.len(),
                    forall|x: PosHex| on_board(radius, x) ==> self.marks().contains_key(x),
                    forall|x: PosHex| on_board(radius, x) && x != pos ==> #[trigger] self.marks()[x]
                        == (keeps_distance(state, player, x) && tiles@.take(n as int).contains(x)),
                    self.marks()[pos] == (middle && !exists|j: int| 0 <= j < k
                        && #[trigger] hex_distance(pos, state.agent_of(enemies@[j]).pos) <= 2),
                decreases enemies.len() - k,
            {
                let enemy_id = enemies[k];
                assert(enemies@.contains(enemy_id));
                let enemy_pos = state.agent(enemy_id).pos;
                proof { crate::hex::lemma_on_board_in_square(radius, enemy_pos); }
                let distance = crate::hex::distance_hex(pos, enemy_pos);
                assert(distance.0 == hex_distance(pos, state.agent_of(enemies@[k as int]).pos));
                if distance.0 <= distance_min {
                    self.distance_map.set_tile(pos, false);
                }
                k += 1;
            }
            proof {
                let near4 = exists|j: int| 0 <= j < enemies@.len()
                    && #[trigger] hex_distance(pos, state.agent_of(enemies@[j]).pos) <= 4;
                let near2 = exists|j: int| 0 <= j < enemies@.len()
                    && #[trigger] hex_distance(pos, state.agent_of(enemies@[j]).pos) <= 2;
                assert(near4 == enemy_within(state, player, pos, 4)) by {
                    if enemy_within(state, player, pos, 4) {
                        let t = choose|t: ObjId| state.is_enemy(player, t) && #[trigger] hex_distance(pos, state.agent_of(t).pos) <= 4;
                        assert(enemies@.contains(t));
                        let j = choose|j: int| 0 <= j < enemies@.len() && enemies@[j] == t;
                        assert(hex_distance(pos, state.agent_of(enemies@[j]).pos) <= 4);
                    }
                    if near4 {
                        let j = choose|j: int| 0 <= j < enemies@.len() && #[trigger] hex_distance(pos, state.agent_of(enemies@[j]).pos) <= 4;
                        assert(enemies@.contains(enemies@[j]));
                    }
                }
                assert(near2 == enemy_within(state, player, pos, 2)) by {
                    if enemy_within(state, player, pos, 2) {
                        let t = choose|t: ObjId| state.is_enemy(player, t) && #[trigger] hex_distance(pos, state.agent_of(t).pos) <= 2;
                        assert(enemies@.contains(t));
                        let j = choose|j: int| 0 <= j < enemies@.len() && enemies@[j] == t;
                        assert(hex_distance(pos, state.agent_of(enemies@[j]).pos) <= 2);
                    }
                    if near2 {
                        let j = choose|j: int| 0 <= j < enemies@.len() && #[trigger] hex_distance(pos, state.agent_of(enemies@[j]).pos) <= 2;
                        assert(enemies@.contains(enemies@[j]));
                    }
                }
                assert(tiles@.take(n + 1) =~= tiles@.take(n as int).push(pos));
                assert forall|x: PosHex| on_board(radius, x) implies #[trigger] self.marks()[x]
                    == (keeps_distance(state, player, x) && tiles@.take(n + 1).contains(x)) by {
                    if x != pos {
                        let pre = tiles@.take(n as int);
                        let post = tiles@.take(n + 1);
                        assert(post.contains(x) == pre.contains(x)) by {
                            if post.contains(x) {
                                let m = choose|m: int| 0 <= m < post.len() && post[m] == x;
                                assert(pre[m] == x);
                            }
                            if pre.contains(x) {
                                let m = choose|m: int| 0 <= m < pre.len() && pre[m] == x;
                                assert(post[m] == x);
                            }
                        }
                    } else {
                        assert(tiles@.take(n + 1)[n as int] == pos);
                    }
                }
            }
            n += 1;
        }
        proof {
            assert(tiles@.take(tiles@.len() as int) =~= tiles@);
            assert forall|pos: PosHex| on_board(radius, pos) implies
                self.marks().contains_key(pos) && #[trigger] self.marks()[pos] == keeps_distance(state, player, pos) by {
                lemma_board_members(radius, pos);
            }
            crate::hex::lemma_hex_map_domain(&self.distance_map);
        }
    }
}


/// Paths found the same way by two AIs of the same player cost the same:
/// either both find one or neither does, and where both do, the random
/// order of enemies has only chosen between paths of equal cost.
pub proof fn law_nearest_enemy_paths_cost_alike<C, P, K, T, R>(
    a1: Ai,
    a2: Ai,
    state: &State,
    engine: &Engine<C, P, K, T, R>,
    u: ObjId,
    r1: Option<Path>,
    r2: Option<Path>,
    c1: MovePoints,
    c2: MovePoints,
)
    where
        C: Fn(&Command) -> bool,
        P: Fn(ObjId, PosHex) -> Option<Path>,
        K: Fn(&Path, ObjId) -> MovePoints,
        T: Fn(&Path, ObjId) -> Option<Path>,
        R: Fn(usize) -> usize,
    requires
        engine.ready(),
        a1.player() == a2.player(),
        nearest_enemy_result(state, engine, a1.player(), u, r1),
        nearest_enemy_result(state, engine, a2.player(), u, r2),
    ensures
        r1 is Some <==> r2 is Some,
        r1 is Some && r2 is Some && engine.costs(r1->0, u, c1) && engine.costs(r2->0, u, c2) ==> c1 == c2,
{
    let good = |pos: PosHex| next_to_enemy(state, a1.player(), pos);
    if r1 is Some {
        let (pos1, d1) = choose|pos: PosHex, c: MovePoints|
            good(pos) && #[trigger] engine.reaches(u, pos, r1->0, c) && c.0 < max_cost()
                && engine.all_cost_at_least(u, good, c.0 as int);
        if r2 is Some {
            let (pos2, d2) = choose|pos: PosHex, c: MovePoints|
                good(pos) && #[trigger] engine.reaches(u, pos, r2->0, c) && c.0 < max_cost()
                    && engine.all_cost_at_least(u, good, c.0 as int);
            assert(engine.reaches(u, pos1, r1->0, d1));
            assert(engine.reaches(u, pos2, r2->0, d2));
            assert(d1 == d2);
            if engine.costs(r1->0, u, c1) && engine.costs(r2->0, u, c2) {
                assert(engine.costs(r1->0, u, d1));
                assert(engine.costs(r2->0, u, d2));
            }
        } else {
            assert(engine.reaches(u, pos1, r1->0, d1));
        }
    } else if r2 is Some {
        let (pos2, d2) = choose|pos: PosHex, c: MovePoints|
            good(pos) && #[trigger] engine.reaches(u, pos, r2->0, c) && c.0 < max_cost()
                && engine.all_cost_at_least(u, good, c.0 as int);
        assert(engine.reaches(u, pos2, r2->0, d2));
    }
}

/// Over one list of tiles, at most one path is the path to the first
/// cheapest tile for which `good` holds, and none is where every path costs
/// the largest cost or more.
pub proof fn lemma_first_cheapest_unique<C, P, K, T, R>(
    engine: &Engine<C, P, K, T, R>,
    u: ObjId,
    tiles: Seq<PosHex>,
    good: spec_fn(PosHex) -> bool,
    p1: Path,
    p2: Path,
)
    where
        C: Fn(&Command) -> bool,
        P: Fn(ObjId, PosHex) -> Option<Path>,
        K: Fn(&Path, ObjId) -> MovePoints,
        T: Fn(&Path, ObjId) -> Option<Path>,
        R: Fn(usize) -> usize,
    requires
        engine.ready(),
        engine.is_first_cheapest(u, tiles, good, p1),
    ensures
        engine.is_first_cheapest(u, tiles, good, p2) ==> p1 == p2,
        !engine.all_cost_at_least(u, good, max_cost()),
{
    let (i1, d1) = choose|i: int, c: MovePoints|
        0 <= i < tiles.len() && good(tiles[i]) && #[trigger] engine.reaches(u, tiles[i], p1, c) && c.0 < max_cost()
            && engine.all_cost_at_least(u, good, c.0 as int)
            && forall|j: int, p3: Path, c3: MovePoints|
                0 <= j < i && good(tiles[j]) && #[trigger] engine.reaches(u, tiles[j], p3, c3) ==> c3.0 > c.0;
    assert(engine.reaches(u, tiles[i1], p1, d1));
    if engine.is_first_cheapest(u, tiles, good, p2) {
        let (i2, d2) = choose|i: int, c: MovePoints|
            0 <= i < tiles.len() && good(tiles[i]) && #[trigger] engine.reaches(u, tiles[i], p2, c) && c.0 < max_cost()
                && engine.all_cost_at_least(u, good, c.0 as int)
                && forall|j: int, p3: Path, c3: MovePoints|
                    0 <= j < i && good(tiles[j]) && #[trigger] engine.reaches(u, tiles[j], p3, c3) ==> c3.0 > c.0;
        assert(engine.reaches(u, tiles[i2], p2, d2));
        assert(d1.0 == d2.0);
        if i1 < i2 {
            assert(engine.reaches(u, tiles[i1], p1, d1));
        } else if i2 < i1 {
            assert(engine.reaches(u, tiles[i2], p2, d2));
        }
        assert(i1 == i2);
        assert(engine.finds(u, tiles[i1], Some(p1)));
        assert(engine.finds(u, tiles[i1], Some(p2)));
    }
}

/// Whatever an AI did before, the path it finds to keep its distance is the
/// same as the one any AI of the same player finds: it depends on the state,
/// the engine, the player and the unit alone.
pub proof fn law_preserve_distance_path_is_fixed<C, P, K, T, R>(
    a1: Ai,
    a2: Ai,
    state: &State,
    engine: &Engine<C, P, K, T, R>,
    u: ObjId,
    r1: Option<Path>,
    r2: Option<Path>,
)
    where
        C: Fn(&Command) -> bool,
        P: Fn(ObjId, PosHex) -> Option<Path>,
        K: Fn(&Path, ObjId) -> MovePoints,
        T: Fn(&Path, ObjId) -> Option<Path>,
        R: Fn(usize) -> usize,
    requires
        engine.ready(),
        a1.player() == a2.player(),
        preserve_distance_result(state, engine, a1.player(), u, r1),
        preserve_distance_result(state, engine, a2.player(), u, r2),
    ensures
        r1 == r2,
{
    let good = |pos: PosHex| on_board(state.radius(), pos) && keeps_distance(state, a1.player(), pos);
    let tiles = board(state.radius());
    if r1 is Some {
        lemma_first_cheapest_unique(engine, u, tiles, good, r1->0, if r2 is Some { r2->0 } else { r1->0 });
    } else if r2 is Some {
        lemma_first_cheapest_unique(engine, u, tiles, good, r2->0, r2->0);
    }
}

/// At most one path is the path to the last of `tiles` closest to an enemy,
/// and none is where every reachable tile lies more than eleven steps away.
pub proof fn lemma_last_closest_unique<C, P, K, T, R>(
    state: &State,
    engine: &Engine<C, P, K, T, R>,
    player: PlayerId,
    u: ObjId,
    tiles: Seq<PosHex>,
    p1: Path,
    p2: Path,
)
    where
        C: Fn(&Command) -> bool,
        P: Fn(ObjId, PosHex) -> Option<Path>,
        K: Fn(&Path, ObjId) -> MovePoints,
        T: Fn(&Path, ObjId) -> Option<Path>,
        R: Fn(usize) -> usize,
    requires
        engine.ready(),
        is_last_closest(state, engine, player, u, tiles, p1),
    ensures
        is_last_closest(state, engine, player, u, tiles, p2) ==> p1 == p2,
        !(forall|j: int, p3: Path|
            0 <= j < tiles.len() && #[trigger] engine.finds(u, tiles[j], Some(p3))
            ==> closest_enemy_distance(state.agents@, player, tiles[j], i32::MAX as int) > 11),
{
    let md = |pos: PosHex| closest_enemy_distance(state.agents@, player, pos, i32::MAX as int);
    let i1 = choose|i: int|
        0 <= i < tiles.len() && #[trigger] engine.finds(u, tiles[i], Some(p1)) && md(tiles[i]) <= 11
            && (forall|j: int, p3: Path|
                0 <= j < tiles.len() && #[trigger] engine.finds(u, tiles[j], Some(p3)) ==> md(tiles[j]) >= md(tiles[i]))
            && (forall|j: int, p3: Path|
                i < j < tiles.len() && #[trigger] engine.finds(u, tiles[j], Some(p3)) ==> md(tiles[j]) > md(tiles[i]));
    assert(engine.finds(u, tiles[i1], Some(p1)));
    if is_last_closest(state, engine, player, u, tiles, p2) {
        let i2 = choose|i: int|
            0 <= i < tiles.len() && #[trigger] engine.finds(u, tiles[i], Some(p2)) && md(tiles[i]) <= 11
                && (forall|j: int, p3: Path|
                    0 <= j < tiles.len() && #[trigger] engine.finds(u, tiles[j], Some(p3)) ==> md(tiles[j]) >= md(tiles[i]))
                && (forall|j: int, p3: Path|
                    i < j < tiles.len() && #[trigger] engine.finds(u, tiles[j], Some(p3)) ==> md(tiles[j]) > md(tiles[i]));
        assert(engine.finds(u, tiles[i2], Some(p2)));
        assert(md(tiles[i1]) == md(tiles[i2]));
        assert(i1 == i2);
    }
}

/// Whatever an AI did before, the path `find_any_path` gives is the same as
/// the one any AI of the same player gets: it depends on the state, the
/// engine, the player and the unit alone.
pub proof fn law_any_path_is_fixed<C, P, K, T, R>(
    a1: Ai,
    a2: Ai,
    state: &State,
    engine: &Engine<C, P, K, T, R>,
    u: ObjId,
    r1: Option<Path>,
    r2: Option<Path>,
)
    where
        C: Fn(&Command) -> bool,
        P: Fn(ObjId, PosHex) -> Option<Path>,
        K: Fn(&Path, ObjId) -> MovePoints,
        T: Fn(&Path, ObjId) -> Option<Path>,
        R: Fn(usize) -> usize,
    requires
        engine.ready(),
        a1.player() == a2.player(),
        any_path_result(state, engine, a1.player(), u, r1),
        any_path_result(state, engine, a2.player(), u, r2),
    ensures
        r1 == r2,
{
    let tiles = board(state.radius());
    if r1 is Some {
        lemma_last_closest_unique(state, engine, a1.player(), u, tiles, r1->0, if r2 is Some { r2->0 } else { r1->0 });
    } else if r2 is Some {
        lemma_last_closest_unique(state, engine, a1.player(), u, tiles, r2->0, r2->0);
    }
}

/// Two AIs of the same player, on maps of the same radius, whatever they did
/// before, may be called on the same inputs alike, and may give the same
/// commands: what `command` demands and what it may return depend on the
/// player and the radius alone.
pub proof fn law_command_depends_on_player<C, P, K, T, R>(
    a1: Ai,
    a2: Ai,
    state: &State,
    engine: &Engine<C, P, K, T, R>,
    r: Option<Command>,
)
    where
        C: Fn(&Command) -> bool,
        P: Fn(ObjId, PosHex) -> Option<Path>,
        K: Fn(&Path, ObjId) -> MovePoints,
        T: Fn(&Path, ObjId) -> Option<Path>,
        R: Fn(usize) -> usize,
    requires
        a1.player() == a2.player(),
        a1.radius() == a2.radius(),
    ensures
        (a1.radius() == state.radius()) == (a2.radius() == state.radius()),
        knows_kinds_it_moves(state, engine, a1.player()) == knows_kinds_it_moves(state, engine, a2.player()),
        command_result(state, engine, a1.player(), r) == command_result(state, engine, a2.player(), r),
{
}

/// Hex distance obeys the triangle inequality through the map's centre, so
/// two tiles of a map of radius `r` are at most `2 * r` steps apart.
pub proof fn lemma_on_board_distance(radius: int, a: PosHex, b: PosHex)
    requires
        on_board(radius, a),
        on_board(radius, b),
    ensures
        hex_distance(a, b) <= 2 * radius,
{
}

/// A move decision that gives a command gives a move.
proof fn lemma_move_decision_is_move<C, P, K, T, R>(
    state: &State,
    engine: &Engine<C, P, K, T, R>,
    player: PlayerId,
    u: ObjId,
    c: Command,
)
    where
        C: Fn(&Command) -> bool,
        P: Fn(ObjId, PosHex) -> Option<Path>,
        K: Fn(&Path, ObjId) -> MovePoints,
        T: Fn(&Path, ObjId) -> Option<Path>,
        R: Fn(usize) -> usize,
    requires
        move_decision(state, engine, player, u, Some(c)),
    ensures
        c is MoveTo,
{
    let plan = choose|plan: PathPlan| {
        &&& #[trigger] plan_for_kind(state, engine, player, u, plan)
        &&& match plan {
            PathPlan::Path(q) => {
                ||| Some(c) == Some(move_command(u, q)) && engine.accepts(move_command(u, q), true)
                ||| Some(c) is None && engine.accepts(move_command(u, q), false)
            },
            PathPlan::CantFindPath => bad_path_outcome(state, engine, player, u, Some(c)),
            PathPlan::DontNeedToMove => Some(c) is None,
        }
    };
    if plan is CantFindPath {
        let tiles = board(state.radius());
        let p = choose|p: Path| #[trigger] is_last_closest(state, engine, player, u, tiles, p)
            && move_outcome(state, engine, u, p, Some(c));
    }
}

/// The AI attacks with an agent only when the rules refuse that agent's
/// summon and every bomb it could throw: at each unblocked tile of the map
/// (edge included) next to an enemy, in any of the six directions.
pub proof fn law_attack_only_when_no_summon_or_bomb<C, P, K, T, R>(
    state: &State,
    engine: &Engine<C, P, K, T, R>,
    player: PlayerId,
    r: Option<Command>,
    u: ObjId,
    target: ObjId,
    t: ObjId,
    d: Dir,
)
    where
        C: Fn(&Command) -> bool,
        P: Fn(ObjId, PosHex) -> Option<Path>,
        K: Fn(&Path, ObjId) -> MovePoints,
        T: Fn(&Path, ObjId) -> Option<Path>,
        R: Fn(usize) -> usize,
    requires
        state.wf(),
        command_result(state, engine, player, r),
        r == Some(Command::Attack { attacker_id: u, target_id: target }),
    ensures
        engine.accepts(Command::UseAbility { id: u, pos: state.agent_of(u).pos, ability: Ability::Summon(3) }, false),
        state.has_agent(t) && state.agent_of(t).owner != player
            && hex_distance(PosHex { q: 0, r: 0 }, neighbor(state.agent_of(t).pos, d)) <= state.map_radius.0
            && !state.blocked@.contains(neighbor(state.agent_of(t).pos, d))
            ==> engine.accepts(
                Command::UseAbility { id: u, pos: neighbor(state.agent_of(t).pos, d), ability: Ability::Bomb(Distance(3)) },
                false,
            ),
{
    let c = r->0;
    let order = choose|order: Seq<ObjId>| {
        &&& #[trigger] order.to_multiset() == ids_by_owner(state.agents@, player, true).to_multiset()
        &&& sorted_by_closest_enemy(state, order)
        &&& turn_outcome(state, engine, player, order, c)
    };
    let k = choose|k: int| 0 <= k < order.len()
        && (forall|j: int| 0 <= j < k ==> unit_action(state, engine, player, #[trigger] order[j], None))
        && unit_action(state, engine, player, #[trigger] order[k], Some(c));
    let v = order[k];
    lemma_unit_action_some(state, engine, player, v, c);
    assert(v == u);
    if summon_outcome(state, engine, u, None) && bomb_outcome(state, engine, player, u, None)
        && attack_outcome(state, engine, player, u, None) && move_decision(state, engine, player, u, Some(c)) {
        lemma_move_decision_is_move(state, engine, player, u, c);
    }
    assert(summon_outcome(state, engine, u, None) && bomb_outcome(state, engine, player, u, None));
}

/// A path the AI takes to keep its distance leads, as the pathfinder gave
/// it, to a tile of the map that is at least three steps from every enemy and
/// at most four from some enemy.
pub proof fn law_keep_distance_tile<C, P, K, T, R>(
    state: &State,
    engine: &Engine<C, P, K, T, R>,
    player: PlayerId,
    u: ObjId,
    p: Path,
)
    where
        C: Fn(&Command) -> bool,
        P: Fn(ObjId, PosHex) -> Option<Path>,
        K: Fn(&Path, ObjId) -> MovePoints,
        T: Fn(&Path, ObjId) -> Option<Path>,
        R: Fn(usize) -> usize,
    requires
        preserve_distance_result(state, engine, player, u, Some(p)),
    ensures
        exists|pos: PosHex| {
            &&& #[trigger] engine.finds(u, pos, Some(p))
            &&& hex_distance(PosHex { q: 0, r: 0 }, pos) <= state.map_radius.0
            &&& forall|t: ObjId| state.has_agent(t) && state.agent_of(t).owner != player
                ==> hex_distance(pos, state.agent_of(t).pos) >= 3
            &&& exists|t: ObjId| state.has_agent(t) && state.agent_of(t).owner != player
                && hex_distance(pos, state.agent_of(t).pos) <= 4
        },
{
    let good = |pos: PosHex| on_board(state.radius(), pos) && keeps_distance(state, player, pos);
    let tiles = board(state.radius());
    let (i, c) = choose|i: int, c: MovePoints|
        0 <= i < tiles.len() && good(tiles[i]) && #[trigger] engine.reaches(u, tiles[i], p, c) && c.0 < max_cost()
            && engine.all_cost_at_least(u, good, c.0 as int)
            && forall|j: int, p2: Path, c2: MovePoints|
                0 <= j < i && good(tiles[j]) && #[trigger] engine.reaches(u, tiles[j], p2, c2) ==> c2.0 > c.0;
    let pos = tiles[i];
    assert(engine.finds(u, pos, Some(p)));
    assert forall|t: ObjId| state.has_agent(t) && state.agent_of(t).owner != player
        implies hex_distance(pos, state.agent_of(t).pos) >= 3 by {
        if hex_distance(pos, state.agent_of(t).pos) <= 2 {
            assert(enemy_within(state, player, pos, 2));
        }
    }
}

/// The tiles the AI marks as keeping its distance are at least three steps
/// from every enemy and at most four from some enemy.
pub proof fn law_marked_tiles_keep_distance(ai: Ai, state: &State, pos: PosHex)
    requires
        forall|x: PosHex| on_board(state.radius(), x)
            ==> #[trigger] ai.marks()[x] == keeps_distance(state, ai.player(), x),
        hex_distance(PosHex { q: 0, r: 0 }, pos) <= state.map_radius.0,
        ai.marks()[pos],
    ensures
        forall|t: ObjId| state.has_agent(t) && state.agent_of(t).owner != ai.player()
            ==> hex_distance(pos, state.agent_of(t).pos) >= 3,
        exists|t: ObjId| state.has_agent(t) && state.agent_of(t).owner != ai.player()
            && hex_distance(pos, state.agent_of(t).pos) <= 4,
{
    assert(keeps_distance(state, ai.player(), pos));
    assert forall|t: ObjId| state.has_agent(t) && state.agent_of(t).owner != ai.player()
        implies hex_distance(pos, state.agent_of(t).pos) >= 3 by {
        if hex_distance(pos, state.agent_of(t).pos) <= 2 {
            assert(enemy_within(state, ai.player(), pos, 2));
        }
    }
}

/// The path the AI takes towards the nearest enemy costs no more than the
/// pathfinder's path to any tile of the map next to an enemy, in any of the
/// six directions; where it finds none, every such path costs the largest
/// cost.
pub proof fn law_nearest_enemy_path_is_cheapest<C, P, K, T, R>(
    state: &State,
    engine: &Engine<C, P, K, T, R>,
    player: PlayerId,
    u: ObjId,
    r: Option<Path>,
    t: ObjId,
    d: Dir,
    p2: Path,
    c2: MovePoints,
)
    where
        C: Fn(&Command) -> bool,
        P: Fn(ObjId, PosHex) -> Option<Path>,
        K: Fn(&Path, ObjId) -> MovePoints,
        T: Fn(&Path, ObjId) -> Option<Path>,
        R: Fn(usize) -> usize,
    requires
        engine.ready(),
        nearest_enemy_result(state, engine, player, u, r),
        state.has_agent(t),
        state.agent_of(t).owner != player,
        hex_distance(PosHex { q: 0, r: 0 }, neighbor(state.agent_of(t).pos, d)) <= state.map_radius.0,
        engine.finds(u, neighbor(state.agent_of(t).pos, d), Some(p2)),
        engine.costs(p2, u, c2),
    ensures
        r is None ==> c2.0 >= i32::MAX,
        forall|c: MovePoints| r is Some && #[trigger] engine.costs(r->0, u, c) ==> c.0 <= c2.0,
{
    let good = |pos: PosHex| next_to_enemy(state, player, pos);
    let nb = neighbor(state.agent_of(t).pos, d);
    assert(good(nb));
    assert(engine.reaches(u, nb, p2, c2));
    if r is Some {
        let (pos, c1) = choose|pos: PosHex, c: MovePoints|
            good(pos) && #[trigger] engine.reaches(u, pos, r->0, c) && c.0 < max_cost()
                && engine.all_cost_at_least(u, good, c.0 as int);
        assert(engine.reaches(u, pos, r->0, c1));
        assert forall|c: MovePoints| r is Some && #[trigger] engine.costs(r->0, u, c) implies c.0 <= c2.0 by {
            assert(engine.costs(r->0, u, c1));
        }
    }
}

/// After sorting, an agent's true distance to its closest enemy never
/// decreases along the list: whatever enemy stands some steps from a later
/// agent, an earlier agent has an enemy at most that many steps away.
pub proof fn law_sorted_nearest_first(state: &State, ids: Seq<ObjId>, i: int, j: int, t: ObjId)
    requires
        state.wf(),
        forall|m: int| 0 <= m < ids.len() ==> state.has_agent(#[trigger] ids[m]),
        sorted_by_closest_enemy(state, ids),
        0 <= i < j < ids.len(),
        state.has_agent(t),
        state.agent_of(t).owner != state.agent_of(ids[j]).owner,
    ensures
        exists|t2: ObjId| state.has_agent(t2)
            && state.agent_of(t2).owner != state.agent_of(ids[i]).owner
            && hex_distance(state.agent_of(ids[i]).pos, state.agent_of(t2).pos)
                <= hex_distance(state.agent_of(ids[j]).pos, state.agent_of(t).pos),
{
    let agents = state.agents@;
    let ai = state.agent_of(ids[i]);
    let aj = state.agent_of(ids[j]);
    let cap = 2 * state.radius() + 1;
    assert(closest_enemy_key(state, ids[i]) <= closest_enemy_key(state, ids[j]));
    lemma_closest_enemy_distance(agents, ai.owner, ai.pos, cap);
    lemma_closest_enemy_distance(agents, aj.owner, aj.pos, cap);
    let it = choose|m: int| 0 <= m < agents.len() && #[trigger] agents[m].id == t;
    assert(state.agent_of(t) == agents[it]);
    let ii = choose|m: int| 0 <= m < agents.len() && #[trigger] agents[m].id == ids[i];
    let ij = choose|m: int| 0 <= m < agents.len() && #[trigger] agents[m].id == ids[j];
    assert(on_board(state.radius(), agents[it].pos));
    assert(on_board(state.radius(), agents[ii].pos));
    assert(on_board(state.radius(), agents[ij].pos));
    lemma_on_board_distance(state.radius(), aj.pos, agents[it].pos);
    let key_i = closest_enemy_distance(agents, ai.owner, ai.pos, cap);
    let key_j = closest_enemy_distance(agents, aj.owner, aj.pos, cap);
    assert(agents[it].owner != aj.owner);
    assert(key_j <= hex_distance(aj.pos, agents[it].pos));
    assert(key_i <= key_j);
    assert(key_i < cap);
    let m = choose|m: int| 0 <= m < agents.len() && agents[m].owner != ai.owner
        && key_i == hex_distance(ai.pos, #[trigger] agents[m].pos);
    let t2 = agents[m].id;
    let m2 = choose|x: int| 0 <= x < agents.len() && #[trigger] agents[x].id == t2;
    assert(m2 == m);
    assert(state.agent_of(t2) == agents[m]);
    assert(state.has_agent(t2));
    assert(hex_distance(ai.pos, state.agent_of(t2).pos) <= hex_distance(aj.pos, state.agent_of(t).pos));
}

/// The AI throws no bomb only when the rules refuse a bomb at every
/// unblocked tile of the map, edge included, next to an enemy in any of the
/// six directions; a bomb it throws lands on such a tile.
pub proof fn law_bomb_tiles<C, P, K, T, R>(
    state: &State,
    engine: &Engine<C, P, K, T, R>,
    player: PlayerId,
    u: ObjId,
    r: Option<Command>,
    t: ObjId,
    d: Dir,
)
    where
        C: Fn(&Command) -> bool,
        P: Fn(ObjId, PosHex) -> Option<Path>,
        K: Fn(&Path, ObjId) -> MovePoints,
        T: Fn(&Path, ObjId) -> Option<Path>,
        R: Fn(usize) -> usize,
    requires
        bomb_outcome(state, engine, player, u, r),
    ensures
        r is None && state.has_agent(t) && state.agent_of(t).owner != player
            && hex_distance(PosHex { q: 0, r: 0 }, neighbor(state.agent_of(t).pos, d)) <= state.map_radius.0
            && !state.blocked@.contains(neighbor(state.agent_of(t).pos, d))
            ==> engine.accepts(
                Command::UseAbility { id: u, pos: neighbor(state.agent_of(t).pos, d), ability: Ability::Bomb(Distance(3)) },
                false,
            ),
        r is Some ==> exists|t2: ObjId, d2: Dir| {
            &&& state.has_agent(t2) && state.agent_of(t2).owner != player
            &&& hex_distance(PosHex { q: 0, r: 0 }, #[trigger] neighbor(state.agent_of(t2).pos, d2)) <= state.map_radius.0
            &&& !state.blocked@.contains(neighbor(state.agent_of(t2).pos, d2))
            &&& r == Some(Command::UseAbility {
                id: u,
                pos: neighbor(state.agent_of(t2).pos, d2),
                ability: Ability::Bomb(Distance(3)),
            })
        },
{
    if r is None {
        if state.has_agent(t) && state.agent_of(t).owner != player
            && hex_distance(PosHex { q: 0, r: 0 }, neighbor(state.agent_of(t).pos, d)) <= state.map_radius.0
            && !state.blocked@.contains(neighbor(state.agent_of(t).pos, d)) {
            assert(is_free_tile(state, neighbor(state.agent_of(t).pos, d)));
        }
    }
}

} // verus!
