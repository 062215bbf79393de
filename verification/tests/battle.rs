use lib::battle::{sort_agents_by_distance_to_closest_enemy, Ability, Ai, Command, Engine, Path, PathPlan};
use lib::state::{
    closest_enemy_distance_to, enemy_agent_ids, players_agent_ids, Agent, AgentKind, MovePoints, ObjId,
    PlayerId, State,
};
use lib::utils::shuffle_vec;
use lib::hex::{distance_hex, Distance, PosHex};

fn pos(q: i32, r: i32) -> PosHex {
    PosHex { q, r }
}

fn agent(id: i32, owner: i32, p: PosHex, mp: i32, kind: AgentKind) -> Agent {
    Agent { id: ObjId(id), owner: PlayerId(owner), pos: p, move_points: MovePoints(mp), kind }
}

fn state(radius: i32, agents: Vec<Agent>, blocked: Vec<PosHex>) -> State {
    State { map_radius: Distance(radius), agents, blocked }
}

/// A straight-line pathfinder over the agents of `agents`: every tile not
/// held by another agent is reachable, in one step from the walker's tile.
fn path_to(agents: Vec<Agent>) -> impl Fn(ObjId, PosHex) -> Option<Path> {
    move |u: ObjId, to: PosHex| {
        let from = agents.iter().find(|a| a.id == u).unwrap().pos;
        if from == to {
            return Some(Path { tiles: vec![from] });
        }
        if agents.iter().any(|a| a.pos == to) {
            return None;
        }
        Some(Path { tiles: vec![from, to] })
    }
}

fn cost(p: &Path, _u: ObjId) -> MovePoints {
    MovePoints(distance_hex(p.tiles[0], *p.tiles.last().unwrap()).0)
}

fn truncate(p: &Path, _u: ObjId) -> Option<Path> {
    if p.tiles.len() >= 2 {
        Some(p.clone())
    } else {
        None
    }
}

fn first(_n: usize) -> usize {
    0
}

fn two_sides() -> Vec<Agent> {
    vec![
        agent(1, 0, pos(0, 0), 3, AgentKind::Imp),
        agent(2, 1, pos(2, 0), 3, AgentKind::Other),
        agent(3, 1, pos(-3, 0), 3, AgentKind::Other),
    ]
}

fn far_apart(mp: i32, kind: AgentKind) -> Vec<Agent> {
    vec![agent(1, 0, pos(-3, 0), mp, kind), agent(2, 1, pos(3, 0), 3, AgentKind::Other)]
}

#[test]
fn agent_ids_by_side() {
    let s = state(3, two_sides(), vec![]);
    assert_eq!(enemy_agent_ids(&s, PlayerId(0)), vec![ObjId(2), ObjId(3)]);
    assert_eq!(players_agent_ids(&s, PlayerId(0)), vec![ObjId(1)]);
    assert_eq!(enemy_agent_ids(&s, PlayerId(1)), vec![ObjId(1)]);
    assert_eq!(players_agent_ids(&s, PlayerId(5)), vec![]);
}

#[test]
fn state_queries() {
    let s = state(3, two_sides(), vec![pos(1, 1)]);
    assert_eq!(s.diameter(), Distance(7));
    assert!(s.is_inboard(pos(3, -3)));
    assert!(!s.is_inboard(pos(3, 1)));
    assert!(s.is_tile_blocked(pos(1, 1)));
    assert!(!s.is_tile_blocked(pos(1, 0)));
    assert_eq!(s.agent(ObjId(3)).pos, pos(-3, 0));
}

#[test]
fn shuffle_keeps_items() {
    assert_eq!(shuffle_vec(vec![1, 2, 3, 4], &first), vec![2, 3, 4, 1]);
    assert_eq!(shuffle_vec(vec![1, 2, 3, 4], &|n: usize| n - 1), vec![1, 2, 3, 4]);
    let mut v = shuffle_vec(vec![5, 6, 7, 8, 9], &|n: usize| n / 2);
    v.sort();
    assert_eq!(v, vec![5, 6, 7, 8, 9]);
    assert_eq!(shuffle_vec(Vec::<u8>::new(), &first), vec![]);
}

#[test]
fn closest_enemy_distance_examples() {
    let s = state(3, two_sides(), vec![]);
    assert_eq!(closest_enemy_distance_to(&s, PlayerId(0), pos(0, 0), 100), 2);
    assert_eq!(closest_enemy_distance_to(&s, PlayerId(0), pos(-2, 0), 100), 1);
    assert_eq!(closest_enemy_distance_to(&s, PlayerId(0), pos(0, 0), 1), 1);
    assert_eq!(closest_enemy_distance_to(&s, PlayerId(1), pos(0, 0), 100), 0);
    assert_eq!(closest_enemy_distance_to(&s, PlayerId(9), pos(0, 0), 100), 0);
    let alone = state(3, vec![agent(1, 0, pos(0, 0), 3, AgentKind::Imp)], vec![]);
    assert_eq!(closest_enemy_distance_to(&alone, PlayerId(0), pos(0, 0), 7), 7);
}

#[test]
fn sort_by_closest_enemy() {
    let s = state(
        3,
        vec![
            agent(1, 0, pos(-3, 0), 3, AgentKind::Imp),
            agent(2, 0, pos(1, 0), 3, AgentKind::Imp),
            agent(3, 0, pos(0, 0), 3, AgentKind::Imp),
            agent(4, 1, pos(3, 0), 3, AgentKind::Other),
        ],
        vec![],
    );
    let mut ids = vec![ObjId(1), ObjId(2), ObjId(3)];
    sort_agents_by_distance_to_closest_enemy(&s, &mut ids);
    assert_eq!(ids, vec![ObjId(2), ObjId(3), ObjId(1)]);
    let mut ids = vec![ObjId(4), ObjId(1)];
    sort_agents_by_distance_to_closest_enemy(&s, &mut ids);
    assert_eq!(ids, vec![ObjId(4), ObjId(1)]);
}

#[test]
fn sort_caps_at_diameter() {
    let s = state(2, vec![agent(1, 0, pos(0, 0), 3, AgentKind::Imp), agent(2, 0, pos(1, 0), 3, AgentKind::Imp)], vec![]);
    let mut ids = vec![ObjId(2), ObjId(1)];
    sort_agents_by_distance_to_closest_enemy(&s, &mut ids);
    assert_eq!(ids, vec![ObjId(2), ObjId(1)]);
}

fn engine_for<C>(agents: Vec<Agent>, check: C) -> Engine<C, impl Fn(ObjId, PosHex) -> Option<Path>, fn(&Path, ObjId) -> MovePoints, fn(&Path, ObjId) -> Option<Path>, fn(usize) -> usize>
where
    C: Fn(&Command) -> bool,
{
    Engine { check, path_to: path_to(agents), cost, truncate, rand: first }
}

#[test]
fn nearest_enemy_path_is_cheapest() {
    let agents = two_sides();
    let s = state(3, agents.clone(), vec![]);
    let ai = Ai::new(PlayerId(0), Distance(3));
    let engine = engine_for(agents, |_c: &Command| true);
    let p = ai.find_path_to_nearest_enemy(&s, ObjId(1), &engine).unwrap();
    assert_eq!(p.tiles, vec![pos(0, 0), pos(1, 0)]);
}

#[test]
fn no_path_to_enemies() {
    let agents = two_sides();
    let s = state(3, agents.clone(), vec![]);
    let ai = Ai::new(PlayerId(0), Distance(3));
    let engine = Engine {
        check: |_c: &Command| true,
        path_to: |_u: ObjId, _p: PosHex| -> Option<Path> { None },
        cost,
        truncate,
        rand: first,
    };
    assert!(ai.find_path_to_nearest_enemy(&s, ObjId(1), &engine).is_none());
    assert!(ai.find_any_path(&s, ObjId(1), &engine).is_none());
    let mut ai = ai;
    assert!(ai.find_path_to_preserve_distance(&s, ObjId(1), &engine).is_none());
    assert_eq!(ai.try_to_move_closer(&s, ObjId(1), &engine), PathPlan::CantFindPath);
}

#[test]
fn preserve_distance_path() {
    let agents = far_apart(3, AgentKind::ImpBomber);
    let s = state(3, agents.clone(), vec![]);
    let mut ai = Ai::new(PlayerId(0), Distance(3));
    let engine = engine_for(agents, |_c: &Command| true);
    let p = ai.find_path_to_preserve_distance(&s, ObjId(1), &engine).unwrap();
    assert_eq!(p.tiles, vec![pos(-3, 0), pos(-1, 0)]);
}

#[test]
fn any_path_goes_to_last_closest_tile() {
    let agents = far_apart(3, AgentKind::Imp);
    let s = state(3, agents.clone(), vec![]);
    let ai = Ai::new(PlayerId(0), Distance(3));
    let engine = engine_for(agents, |_c: &Command| true);
    let p = ai.find_any_path(&s, ObjId(1), &engine).unwrap();
    assert_eq!(p.tiles, vec![pos(-3, 0), pos(3, -1)]);
}

#[test]
fn summon_when_accepted() {
    let agents = two_sides();
    let s = state(3, agents.clone(), vec![]);
    let ai = Ai::new(PlayerId(0), Distance(3));
    let yes = engine_for(agents.clone(), |c: &Command| matches!(c, Command::UseAbility { ability: Ability::Summon(3), .. }));
    assert_eq!(
        ai.try_summon_imp(&s, ObjId(1), &yes),
        Some(Command::UseAbility { id: ObjId(1), pos: pos(0, 0), ability: Ability::Summon(3) })
    );
    let no = engine_for(agents, |_c: &Command| false);
    assert_eq!(ai.try_summon_imp(&s, ObjId(1), &no), None);
}

#[test]
fn bomb_lands_next_to_an_enemy_on_a_free_tile() {
    let agents = two_sides();
    let s = state(3, agents.clone(), vec![pos(1, 0)]);
    let ai = Ai::new(PlayerId(0), Distance(3));
    let only_one = engine_for(agents.clone(), |c: &Command| {
        matches!(c, Command::UseAbility { pos: PosHex { q: 2, r: -1 }, ability: Ability::Bomb(Distance(3)), .. })
    });
    assert_eq!(
        ai.try_throw_bomb(&s, ObjId(1), &only_one),
        Some(Command::UseAbility { id: ObjId(1), pos: pos(2, -1), ability: Ability::Bomb(Distance(3)) })
    );
    let blocked_only = engine_for(agents.clone(), |c: &Command| {
        matches!(c, Command::UseAbility { pos: PosHex { q: 1, r: 0 }, .. })
    });
    assert_eq!(ai.try_throw_bomb(&s, ObjId(1), &blocked_only), None);
    let off_board_only = engine_for(agents, |c: &Command| {
        matches!(c, Command::UseAbility { pos: PosHex { q: 4, r: 0 }, .. })
    });
    assert_eq!(ai.try_throw_bomb(&s, ObjId(1), &off_board_only), None);
}

#[test]
fn attack_an_accepted_target() {
    let agents = two_sides();
    let s = state(3, agents.clone(), vec![]);
    let ai = Ai::new(PlayerId(0), Distance(3));
    let engine = engine_for(agents.clone(), |c: &Command| matches!(c, Command::Attack { target_id: ObjId(3), .. }));
    assert_eq!(
        ai.try_to_attack(&s, ObjId(1), &engine),
        Some(Command::Attack { attacker_id: ObjId(1), target_id: ObjId(3) })
    );
    let none = engine_for(agents, |c: &Command| matches!(c, Command::Attack { target_id: ObjId(1), .. }));
    assert_eq!(ai.try_to_attack(&s, ObjId(1), &none), None);
}

#[test]
fn move_closer_plans() {
    // Next to an enemy already: the cheapest path ends where the imp stands.
    let near = vec![agent(1, 0, pos(0, 0), 3, AgentKind::Imp), agent(2, 1, pos(1, 0), 3, AgentKind::Other)];
    let s = state(3, near.clone(), vec![]);
    let ai = Ai::new(PlayerId(0), Distance(3));
    let engine = engine_for(near, |_c: &Command| true);
    assert_eq!(ai.try_to_move_closer(&s, ObjId(1), &engine), PathPlan::DontNeedToMove);

    // Too far for three move points.
    let agents = far_apart(3, AgentKind::Imp);
    let s = state(3, agents.clone(), vec![]);
    let engine = engine_for(agents, |_c: &Command| true);
    assert_eq!(ai.try_to_move_closer(&s, ObjId(1), &engine), PathPlan::CantFindPath);

    // Five move points reach the tile next to the enemy.
    let agents = far_apart(5, AgentKind::Imp);
    let s = state(3, agents.clone(), vec![]);
    let engine = engine_for(agents.clone(), |_c: &Command| true);
    assert_eq!(
        ai.try_to_move_closer(&s, ObjId(1), &engine),
        PathPlan::Path(Path { tiles: vec![pos(-3, 0), pos(2, 0)] })
    );

    // The rules refuse every move.
    let engine = engine_for(agents, |c: &Command| !matches!(c, Command::MoveTo { .. }));
    assert_eq!(ai.try_to_move_closer(&s, ObjId(1), &engine), PathPlan::CantFindPath);
}

#[test]
fn keep_distance_plan() {
    let agents = far_apart(3, AgentKind::ImpSummoner);
    let s = state(3, agents.clone(), vec![]);
    let mut ai = Ai::new(PlayerId(0), Distance(3));
    let engine = engine_for(agents, |_c: &Command| true);
    assert_eq!(
        ai.try_to_keep_distance(&s, ObjId(1), &engine),
        PathPlan::Path(Path { tiles: vec![pos(-3, 0), pos(-1, 0)] })
    );
}

#[test]
fn bad_path_needs_move_points() {
    let agents = far_apart(3, AgentKind::Imp);
    let s = state(3, agents.clone(), vec![]);
    let ai = Ai::new(PlayerId(0), Distance(3));
    let engine = engine_for(agents, |_c: &Command| true);
    assert_eq!(ai.try_to_find_bad_path(&s, ObjId(1), &engine), None);

    let agents = far_apart(6, AgentKind::Imp);
    let s = state(3, agents.clone(), vec![]);
    let engine = engine_for(agents, |_c: &Command| true);
    assert_eq!(
        ai.try_to_find_bad_path(&s, ObjId(1), &engine),
        Some(Command::MoveTo { id: ObjId(1), path: Path { tiles: vec![pos(-3, 0), pos(3, -1)] } })
    );
}

#[test]
fn try_to_move_by_kind() {
    // An imp with too few move points for a close path falls back on a bad path;
    // with few points that fails too.
    let agents = far_apart(3, AgentKind::Imp);
    let s = state(3, agents.clone(), vec![]);
    let mut ai = Ai::new(PlayerId(0), Distance(3));
    let engine = engine_for(agents, |_c: &Command| true);
    assert_eq!(ai.try_to_move(&s, ObjId(1), &engine), None);

    // A bomber keeps its distance.
    let agents = far_apart(3, AgentKind::ImpBomber);
    let s = state(3, agents.clone(), vec![]);
    let engine = engine_for(agents, |_c: &Command| true);
    assert_eq!(
        ai.try_to_move(&s, ObjId(1), &engine),
        Some(Command::MoveTo { id: ObjId(1), path: Path { tiles: vec![pos(-3, 0), pos(-1, 0)] } })
    );

    // A toxic imp with enough points closes in.
    let agents = far_apart(5, AgentKind::ImpToxic);
    let s = state(3, agents.clone(), vec![]);
    let engine = engine_for(agents, |_c: &Command| true);
    assert_eq!(
        ai.try_to_move(&s, ObjId(1), &engine),
        Some(Command::MoveTo { id: ObjId(1), path: Path { tiles: vec![pos(-3, 0), pos(2, 0)] } })
    );
}

#[test]
fn command_prefers_summoning() {
    let agents = two_sides();
    let s = state(3, agents.clone(), vec![]);
    let mut ai = Ai::new(PlayerId(0), Distance(3));
    let engine = engine_for(agents, |_c: &Command| true);
    assert_eq!(
        ai.command(&s, &engine),
        Some(Command::UseAbility { id: ObjId(1), pos: pos(0, 0), ability: Ability::Summon(3) })
    );
}

#[test]
fn command_attacks_when_only_attacks_are_allowed() {
    let agents = two_sides();
    let s = state(3, agents.clone(), vec![]);
    let mut ai = Ai::new(PlayerId(0), Distance(3));
    let engine = engine_for(agents, |c: &Command| matches!(c, Command::Attack { .. }));
    assert_eq!(ai.command(&s, &engine), Some(Command::Attack { attacker_id: ObjId(1), target_id: ObjId(3) }));
}

#[test]
fn command_ends_turn_when_nothing_is_allowed() {
    let agents = two_sides();
    let s = state(3, agents.clone(), vec![]);
    let mut ai = Ai::new(PlayerId(0), Distance(3));
    let engine = engine_for(agents, |_c: &Command| false);
    assert_eq!(ai.command(&s, &engine), Some(Command::EndTurn));
}

#[test]
fn command_moves_the_agent_nearest_to_an_enemy_first() {
    let agents = vec![
        agent(1, 0, pos(-3, 0), 6, AgentKind::Imp),
        agent(2, 0, pos(0, 1), 6, AgentKind::Imp),
        agent(3, 1, pos(3, 0), 3, AgentKind::Other),
    ];
    let s = state(3, agents.clone(), vec![]);
    let mut ai = Ai::new(PlayerId(0), Distance(3));
    let engine = engine_for(agents, |c: &Command| matches!(c, Command::MoveTo { .. }));
    match ai.command(&s, &engine) {
        Some(Command::MoveTo { id, .. }) => assert_eq!(id, ObjId(2)),
        other => panic!("unexpected command {:?}", other),
    }
}

#[test]
fn ai_with_no_agents_ends_turn() {
    let agents = vec![agent(3, 1, pos(3, 0), 3, AgentKind::Other)];
    let s = state(3, agents.clone(), vec![]);
    let mut ai = Ai::new(PlayerId(0), Distance(3));
    let engine = engine_for(agents, |_c: &Command| true);
    assert_eq!(ai.command(&s, &engine), Some(Command::EndTurn));
}

#[test]
fn command_with_an_unknown_kind_that_attacks() {
    let agents = vec![
        agent(1, 0, pos(0, 0), 3, AgentKind::Other),
        agent(2, 1, pos(1, 0), 3, AgentKind::Other),
    ];
    let s = state(3, agents.clone(), vec![]);
    let mut ai = Ai::new(PlayerId(0), Distance(3));
    let engine = engine_for(agents, |c: &Command| matches!(c, Command::Attack { .. }));
    assert_eq!(ai.command(&s, &engine), Some(Command::Attack { attacker_id: ObjId(1), target_id: ObjId(2) }));
}

#[test]
fn sort_of_one_unknown_id_keeps_it() {
    let s = state(3, two_sides(), vec![]);
    let mut ids = vec![ObjId(42)];
    sort_agents_by_distance_to_closest_enemy(&s, &mut ids);
    assert_eq!(ids, vec![ObjId(42)]);
    let mut none: Vec<ObjId> = vec![];
    sort_agents_by_distance_to_closest_enemy(&s, &mut none);
    assert!(none.is_empty());
}
