use vstd::prelude::*;
use crate::hex::{coords_in_range, hex_distance, on_board, Distance, PosHex, MAX_MAP_RADIUS};

verus! {

/// An object of the battle.
#[derive(Clone, Copy, Debug, PartialEq, Eq, Structural)]
pub struct ObjId(pub i32);

/// A side of the battle.
#[derive(Clone, Copy, Debug, PartialEq, Eq, Structural)]
pub struct PlayerId(pub i32);

/// What moving costs an agent, and what it has left this turn.
#[derive(Clone, Copy, Debug, PartialEq, Eq, Structural)]
pub struct MovePoints(pub i32);

/// The kinds of agent that the AI knows how to move.
#[derive(Clone, Copy, Debug, PartialEq, Eq, Structural)]
pub enum AgentKind {
    Imp,
    ImpToxic,
    ImpBomber,
    ImpSummoner,
    Other,
}

/// What the AI reads of an agent.
#[derive(Clone, Copy, Debug, PartialEq, Eq, Structural)]
pub struct Agent {
    pub id: ObjId,
    pub owner: PlayerId,
    pub pos: PosHex,
    pub move_points: MovePoints,
    pub kind: AgentKind,
}

/// What the AI reads of a battle: the map's size, the agents and the tiles
/// that something blocks.
#[derive(Clone, Debug)]
pub struct State {
    pub map_radius: Distance,
    pub agents: Vec<Agent>,
    pub blocked: Vec<PosHex>,
}

impl State {
    /// The map has a radius within bounds, every agent stands on it, and no
    /// two agents share an id.
    pub open spec fn wf(&self) -> bool {
        &&& 0 <= self.map_radius.0 <= MAX_MAP_RADIUS
        &&& forall|i: int| 0 <= i < self.agents@.len()
            ==> on_board(self.map_radius.0 as int, #[trigger] self.agents@[i].pos)
        &&& forall|i: int, j: int| 0 <= i < self.agents@.len() && 0 <= j < self.agents@.len() && i != j
            ==> #[trigger] self.agents@[i].id != #[trigger] self.agents@[j].id
    }

    pub open spec fn radius(&self) -> int {
        self.map_radius.0 as int
    }

    /// `id` names an agent.
    pub open spec fn has_agent(&self, id: ObjId) -> bool {
        exists|i: int| 0 <= i < self.agents@.len() && #[trigger] self.agents@[i].id == id
    }

    /// The agent named `id`.
    pub open spec fn agent_of(&self, id: ObjId) -> Agent {
        self.agents@[choose|i: int| 0 <= i < self.agents@.len() && #[trigger] self.agents@[i].id == id]
    }

    /// Something blocks tile `pos`.
    pub open spec fn is_blocked(&self, pos: PosHex) -> bool {
        self.blocked@.contains(pos)
    }

    /// `id` is an agent that does not belong to `player`.
    pub open spec fn is_enemy(&self, player: PlayerId, id: ObjId) -> bool {
        self.has_agent(id) && self.agent_of(id).owner != player
    }

    /// `id` is an agent that belongs to `player`.
    pub open spec fn is_own(&self, player: PlayerId, id: ObjId) -> bool {
        self.has_agent(id) && self.agent_of(id).owner == player
    }

    /// Number of tiles across the map.
    pub fn diameter(&self) -> (d: Distance)
        requires
            self.wf(),
        ensures
            d.0 == 2 * self.radius() + 1,
    {
        Distance(self.map_radius.0 * 2 + 1)
    }

    /// Whether `pos` lies on the map.
    pub fn is_inboard(&self, pos: PosHex) -> (b: bool)
        requires
            self.wf(),
        ensures
            b == on_board(self.radius(), pos),
    {
        let radius = self.map_radius.0;
        if pos.q < -radius || pos.q > radius || pos.r < -radius || pos.r > radius {
            return false;
        }
        crate::hex::distance_hex(PosHex { q: 0, r: 0 }, pos).0 <= radius
    }

    /// The agent named `id`, which exists.
    pub fn agent(&self, id: ObjId) -> (a: &Agent)
        requires
            self.wf(),
            self.has_agent(id),
        ensures
            *a == self.agent_of(id),
            on_board(self.radius(), a.pos),
    {
        let ghost k = choose|i: int| 0 <= i < self.agents@.len() && #[trigger] self.agents@[i].id == id;
        let mut i: usize = 0;
        while i < self.agents.len()
            invariant
                self.wf(),
                0 <= k < self.agents@.len(),
                self.agents@[k].id == id,
                i <= k,
            decreases self.agents.len() - i,
        {
            if self.agents[i].id == id {
                return &self.agents[i];
            }
            i += 1;
        }
        &self.agents[i]
    }

    /// Whether something blocks tile `pos`.
    pub fn is_tile_blocked(&self, pos: PosHex) -> (b: bool)
        ensures
            b == self.is_blocked(pos),
    {
        let mut i: usize = 0;
        while i < self.blocked.len()
            invariant
                forall|j: int| 0 <= j < i ==> self.blocked@[j] != pos,
            decreases self.blocked.len() - i,
        {
            if self.blocked[i] == pos {
                return true;
            }
            i += 1;
        }
        false
    }
}

/// The ids of the agents, in order, that do (`own`) or do not belong to `player`.
pub open spec fn ids_by_owner(agents: Seq<Agent>, player: PlayerId, own: bool) -> Seq<ObjId> {
    agents.filter(owned_by(player, own)).map_values(agent_id())
}

/// Whether an agent does (`own`) or does not belong to `player`.
pub open spec fn owned_by(player: PlayerId, own: bool) -> spec_fn(Agent) -> bool {
    |a: Agent| (a.owner == player) == own
}

pub open spec fn agent_id() -> spec_fn(Agent) -> ObjId {
    |a: Agent| a.id
}

fn agent_ids_by_owner(state: &State, player: PlayerId, own: bool) -> (ids: Vec<ObjId>)
    ensures
        ids@ == ids_by_owner(state.agents@, player, own),
{
    let ghost f = owned_by(player, own);
    let mut ids: Vec<ObjId> = Vec::new();
    let mut i: usize = 0;
    while i < state.agents.len()
        invariant
            i <= state.agents@.len(),
            f == owned_by(player, own),
            ids@ == ids_by_owner(state.agents@.take(i as int), player, own),
        decreases state.agents.len() - i,
    {
        let a = state.agents[i];
        proof {
            assert(state.agents@.take(i + 1) =~= state.agents@.take(i as int).push(a));
            state.agents@.take(i as int).lemma_filter_push(a, f);
        }
        let ghost prev = state.agents@.take(i as int).filter(f);
        if (a.owner == player) == own {
            ids.push(a.id);
            proof {
                assert(prev.push(a).map_values(agent_id()) =~= prev.map_values(agent_id()).push(a.id));
            }
        }
        proof {
            assert(state.agents@.take(i + 1).filter(f) == if f(a) { prev.push(a) } else { prev });
            assert(ids@ =~= ids_by_owner(state.agents@.take(i + 1), player, own));
        }
        i += 1;
    }
    proof {
        assert(state.agents@.take(i as int) =~= state.agents@);
    }
    ids
}

/// The agents that belong to `player`'s enemies, each once.
pub fn enemy_agent_ids(state: &State, player: PlayerId) -> (ids: Vec<ObjId>)
    requires
        state.wf(),
    ensures
        ids@ == ids_by_owner(state.agents@, player, false),
        forall|t: ObjId| ids@.contains(t) <==> state.is_enemy(player, t),
{
    let ids = agent_ids_by_owner(state, player, false);
    proof { lemma_ids_by_owner_members(state, player, false); }
    ids
}

/// The agents that belong to `player`, each once.
pub fn players_agent_ids(state: &State, player: PlayerId) -> (ids: Vec<ObjId>)
    requires
        state.wf(),
    ensures
        ids@ == ids_by_owner(state.agents@, player, true),
        forall|t: ObjId| ids@.contains(t) <==> state.is_own(player, t),
{
    let ids = agent_ids_by_owner(state, player, true);
    proof { lemma_ids_by_owner_members(state, player, true); }
    ids
}

/// The ids picked by owner are exactly those of the agents with that owner.
pub proof fn lemma_ids_by_owner_members(state: &State, player: PlayerId, own: bool)
    requires
        state.wf(),
    ensures
        forall|t: ObjId| #![trigger ids_by_owner(state.agents@, player, own).contains(t)]
            ids_by_owner(state.agents@, player, own).contains(t)
            <==> (state.has_agent(t) && (state.agent_of(t).owner == player) == own),
{
    let f = owned_by(player, own);
    let g = agent_id();
    let s = state.agents@;
    let fs = s.filter(f);
    assert forall|t: ObjId| #![trigger ids_by_owner(state.agents@, player, own).contains(t)]
        ids_by_owner(state.agents@, player, own).contains(t)
        <==> (state.has_agent(t) && (state.agent_of(t).owner == player) == own) by {
        if ids_by_owner(s, player, own).contains(t) {
            let k = choose|k: int| 0 <= k < fs.map_values(g).len() && fs.map_values(g)[k] == t;
            let a = fs[k];
            s.lemma_filter_pred(f, k);
            assert(fs.contains(a));
            s.lemma_filter_contains_rev(f, a);
            let i = choose|i: int| 0 <= i < s.len() && s[i] == a;
            assert(state.agents@[i].id == t);
            let j = choose|j: int| 0 <= j < s.len() && #[trigger] state.agents@[j].id == t;
            assert(i == j);
        }
        if state.has_agent(t) && (state.agent_of(t).owner == player) == own {
            let j = choose|j: int| 0 <= j < s.len() && #[trigger] state.agents@[j].id == t;
            s.lemma_filter_contains(f, j);
            let k = choose|k: int| 0 <= k < fs.len() && fs[k] == s[j];
            assert(fs.map_values(g)[k] == t);
        }
    }
}


/// The number of steps from `pos` to the closest agent that does not belong
/// to `player`, or `cap` where none is closer.
pub open spec fn closest_enemy_distance(agents: Seq<Agent>, player: PlayerId, pos: PosHex, cap: int) -> int
    decreases agents.len(),
{
    if agents.len() == 0 {
        cap
    } else {
        let rest = closest_enemy_distance(agents.drop_last(), player, pos, cap);
        let a = agents.last();
        if a.owner != player && hex_distance(pos, a.pos) < rest {
            hex_distance(pos, a.pos)
        } else {
            rest
        }
    }
}

/// The closest distance is at most `cap` and at most the distance to any
/// enemy, and it is `cap` or the distance to some enemy.
pub proof fn lemma_closest_enemy_distance(agents: Seq<Agent>, player: PlayerId, pos: PosHex, cap: int)
    ensures
        closest_enemy_distance(agents, player, pos, cap) <= cap,
        forall|i: int| 0 <= i < agents.len() && agents[i].owner != player
            ==> closest_enemy_distance(agents, player, pos, cap) <= hex_distance(pos, #[trigger] agents[i].pos),
        closest_enemy_distance(agents, player, pos, cap) == cap
            || exists|i: int| 0 <= i < agents.len() && agents[i].owner != player
                && closest_enemy_distance(agents, player, pos, cap) == hex_distance(pos, #[trigger] agents[i].pos),
    decreases agents.len(),
{
    if agents.len() > 0 {
        let rest = agents.drop_last();
        lemma_closest_enemy_distance(rest, player, pos, cap);
        assert forall|i: int| 0 <= i < agents.len() - 1 implies #[trigger] agents[i] == rest[i] by {}
        if closest_enemy_distance(rest, player, pos, cap) != cap
            && closest_enemy_distance(agents, player, pos, cap) == closest_enemy_distance(rest, player, pos, cap) {
            let i = choose|i: int| 0 <= i < rest.len() && rest[i].owner != player
                && closest_enemy_distance(rest, player, pos, cap) == hex_distance(pos, #[trigger] rest[i].pos);
            assert(agents[i] == rest[i]);
        }
        if closest_enemy_distance(agents, player, pos, cap) != closest_enemy_distance(rest, player, pos, cap) {
            assert(agents[agents.len() - 1] == agents.last());
        }
    }
}

/// The number of steps from `pos` to the closest enemy of `player`, or `cap`
/// where none is closer.
pub fn closest_enemy_distance_to(state: &State, player: PlayerId, pos: PosHex, cap: i32) -> (d: i32)
    requires
        state.wf(),
        coords_in_range(pos),
    ensures
        d == closest_enemy_distance(state.agents@, player, pos, cap as int),
{
    let mut best = cap;
    let mut i: usize = 0;
    while i < state.agents.len()
        invariant
            state.wf(),
            coords_in_range(pos),
            i <= state.agents@.len(),
            best == closest_enemy_distance(state.agents@.take(i as int), player, pos, cap as int),
        decreases state.agents.len() - i,
    {
        let a = state.agents[i];
        proof {
            assert(state.agents@.take(i + 1).drop_last() =~= state.agents@.take(i as int));
            assert(state.agents@.contains(a));
            assert(on_board(state.radius(), state.agents@[i as int].pos));
            crate::hex::lemma_on_board_in_square(state.radius(), a.pos);
        }
        if a.owner != player {
            let d = crate::hex::distance_hex(pos, a.pos).0;
            if d < best {
                best = d;
            }
        }
        i += 1;
    }
    proof {
        assert(state.agents@.take(i as int) =~= state.agents@);
    }
    best
}

} // verus!
