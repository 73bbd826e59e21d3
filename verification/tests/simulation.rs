use eldiron_core::behavior::{
    BehaviorNode, BehaviorNodeConnector, BehaviorNodeType, GameBehavior, GameBehaviorData,
};
use eldiron_core::error::SimError;
use eldiron_core::gamedata::{GameData, InstanceAction, PlayerAction};
use eldiron_core::instance::BehaviorInstanceState;
use eldiron_core::region::{GameRegion, TileRef, TileUsage};
use eldiron_core::value::NodeValue;

fn tile(usage: TileUsage) -> TileRef {
    TileRef { map_id: 0, grid_x: 0, grid_y: 0, usage }
}

fn empty_data(id: usize) -> GameBehaviorData {
    GameBehaviorData {
        tiles: Vec::new(),
        id,
        curr_pos: (0, 0),
        min_pos: (0, 0),
        max_pos: (0, 0),
        nodes: Vec::new(),
        connections: Vec::new(),
        start_position: None,
        start_tile: None,
    }
}

fn node(id: usize, node_type: BehaviorNodeType) -> BehaviorNode {
    BehaviorNode { id, name: String::from("node"), node_type, position: (0, 0) }
}

/// A behavior whose entry node issues "move east 1" every tick.
fn move_east_behavior(id: usize, start: (usize, isize, isize)) -> GameBehavior {
    let mut data = empty_data(id);
    data.nodes.push(node(1, BehaviorNodeType::BehaviorTree));
    data.nodes.push(node(2, BehaviorNodeType::MoveDirection { dx: 1, dy: 0 }));
    data.connections.push((1, BehaviorNodeConnector::Bottom, 2, BehaviorNodeConnector::Top));
    data.start_position = Some(start);
    GameBehavior { name: String::from("walker"), path: String::new(), data }
}

fn world_with_region() -> GameData {
    let mut game = GameData::new(2);
    game.add_region(GameRegion::new(String::from("field"), 1));
    game
}

#[test]
fn move_east_two_ticks() {
    let mut game = world_with_region();
    game.add_behavior(move_east_behavior(7, (1, 5, 5)));
    let id = game.create_instance(7, None).unwrap();
    game.tick();
    assert_eq!(game.instance_by_id(id).unwrap().position, Some((1, 6, 5)));
    game.tick();
    assert_eq!(game.instance_by_id(id).unwrap().position, Some((1, 7, 5)));
    assert!(game.diagnostics.is_empty());
}

#[test]
fn blocked_move_is_recorded_and_dropped() {
    let mut game = world_with_region();
    // The target cell east of the start carries a blocking top tile.
    game.regions[0].set_value((6, 5), tile(TileUsage::EnvBlocking));
    game.add_behavior(move_east_behavior(7, (1, 5, 5)));
    let id = game.create_instance(7, None).unwrap();
    game.tick();
    assert_eq!(game.instance_by_id(id).unwrap().position, Some((1, 5, 5)));
    assert_eq!(game.diagnostics.len(), 1);
    assert_eq!(game.diagnostics[0].error, SimError::BlockedMove);
    assert_eq!(game.diagnostics[0].instance_id, id);
    // The second tick repeats deterministically.
    game.tick();
    assert_eq!(game.instance_by_id(id).unwrap().position, Some((1, 5, 5)));
    assert_eq!(game.diagnostics.len(), 2);
}

#[test]
fn last_command_wins_before_tick() {
    let mut game = world_with_region();
    game.add_behavior(GameBehavior {
        name: String::from("idle"),
        path: String::new(),
        data: {
            let mut d = empty_data(7);
            d.nodes.push(node(1, BehaviorNodeType::Wait));
            d.start_position = Some((1, 5, 5));
            d
        },
    });
    let id = game.create_instance(7, None).unwrap();
    game.execute_packed_instance_action(InstanceAction {
        instance_id: id,
        action: PlayerAction::MoveUp,
    });
    game.execute_packed_instance_action(InstanceAction {
        instance_id: id,
        action: PlayerAction::MoveLeft,
    });
    game.tick();
    // Only "left" was applied: one step west, none north.
    assert_eq!(game.instance_by_id(id).unwrap().position, Some((1, 4, 5)));
}

#[test]
fn poll_update_none_without_new_tick() {
    let mut game = world_with_region();
    game.add_behavior(move_east_behavior(7, (1, 5, 5)));
    let viewer = game.create_instance(7, None).unwrap();
    game.tick();
    assert!(game.poll_update(viewer).is_some());
    assert!(game.poll_update(viewer).is_none());
    game.tick();
    assert!(game.poll_update(viewer).is_some());
    assert!(game.poll_update(viewer).is_none());
}

#[test]
fn cyclic_graph_hits_step_budget_without_stalling() {
    let mut game = world_with_region();
    let mut data = empty_data(7);
    data.nodes.push(node(1, BehaviorNodeType::BehaviorTree));
    data.nodes.push(node(2, BehaviorNodeType::Sequence));
    data.nodes.push(node(3, BehaviorNodeType::Sequence));
    data.connections.push((1, BehaviorNodeConnector::Bottom, 2, BehaviorNodeConnector::Top));
    data.connections.push((2, BehaviorNodeConnector::Bottom, 3, BehaviorNodeConnector::Top));
    // Node 3 wires back to its ancestor: a cycle.
    data.connections.push((3, BehaviorNodeConnector::Bottom, 2, BehaviorNodeConnector::Left));
    data.start_position = Some((1, 5, 5));
    game.add_behavior(GameBehavior { name: String::from("loop"), path: String::new(), data });
    let id = game.create_instance(7, None).unwrap();
    game.tick();
    assert!(game
        .diagnostics
        .iter()
        .any(|d| d.instance_id == id && d.error == SimError::GraphStepLimitExceeded));
}

#[test]
fn replay_is_deterministic() {
    let run = || {
        let mut game = world_with_region();
        game.regions[0].set_value((7, 5), tile(TileUsage::EnvBlocking));
        game.add_behavior(move_east_behavior(7, (1, 5, 5)));
        let id = game.create_instance(7, None).unwrap();
        game.execute_packed_instance_action(InstanceAction {
            instance_id: id,
            action: PlayerAction::MoveDown,
        });
        game.tick();
        game.tick();
        game.tick();
        let update = game.poll_update(id).unwrap();
        (update.tick, update.epoch, update.region_id, update.instances, update.actions)
    };
    let a = run();
    let b = run();
    assert_eq!(a.0, b.0);
    assert_eq!(a.1, b.1);
    assert_eq!(a.2, b.2);
    assert_eq!(a.3, b.3);
    assert_eq!(a.4, b.4);
}

#[test]
fn lifecycle_is_monotonic_and_purge_waits() {
    let mut game = world_with_region();
    let mut data = empty_data(7);
    data.nodes.push(node(1, BehaviorNodeType::BehaviorTree));
    data.nodes.push(node(
        2,
        BehaviorNodeType::SetState { target: BehaviorInstanceState::Killed },
    ));
    data.connections.push((1, BehaviorNodeConnector::Bottom, 2, BehaviorNodeConnector::Top));
    data.start_position = Some((1, 5, 5));
    game.add_behavior(GameBehavior { name: String::from("mortal"), path: String::new(), data });
    let id = game.create_instance(7, None).unwrap();
    game.tick();
    assert_eq!(game.instance_by_id(id).unwrap().state, BehaviorInstanceState::Killed);
    // purge_delay is 2: the instance stays visible for a grace period.
    game.tick();
    assert_eq!(game.instance_by_id(id).unwrap().state, BehaviorInstanceState::Killed);
    game.tick();
    assert_eq!(game.instance_by_id(id).unwrap().state, BehaviorInstanceState::Purged);
    // Compaction removes it; it never re-enters any earlier state.
    game.compact();
    assert!(game.instance_by_id(id).is_none());
}

#[test]
fn killed_instances_stay_visible_purged_ones_do_not() {
    let mut game = world_with_region();
    let mut data = empty_data(7);
    data.nodes.push(node(1, BehaviorNodeType::BehaviorTree));
    data.nodes.push(node(
        2,
        BehaviorNodeType::SetState { target: BehaviorInstanceState::Killed },
    ));
    data.connections.push((1, BehaviorNodeConnector::Bottom, 2, BehaviorNodeConnector::Top));
    data.start_position = Some((1, 5, 5));
    game.add_behavior(GameBehavior { name: String::from("mortal"), path: String::new(), data });
    game.add_behavior(move_east_behavior(8, (1, 2, 2)));
    let dying = game.create_instance(7, None).unwrap();
    let viewer = game.create_instance(8, None).unwrap();
    game.tick();
    let update = game.poll_update(viewer).unwrap();
    assert!(update.instances.iter().any(|s| s.id == dying));
    game.tick();
    game.tick();
    let update = game.poll_update(viewer).unwrap();
    assert!(!update.instances.iter().any(|s| s.id == dying));
    assert!(update.instances.iter().any(|s| s.id == viewer));
}

#[test]
fn variables_drive_branches_and_actions() {
    let mut game = world_with_region();
    let mut data = empty_data(7);
    data.nodes.push(node(1, BehaviorNodeType::BehaviorTree));
    data.nodes.push(node(
        2,
        BehaviorNodeType::SetVariable {
            name: String::from("mood"),
            value: NodeValue::Number(3),
        },
    ));
    data.nodes.push(node(
        3,
        BehaviorNodeType::VariableIs { name: String::from("mood"), value: 3 },
    ));
    data.nodes.push(node(4, BehaviorNodeType::EmitAction { action: String::from("sing") }));
    data.connections.push((1, BehaviorNodeConnector::Bottom, 2, BehaviorNodeConnector::Top));
    data.connections.push((2, BehaviorNodeConnector::Bottom, 3, BehaviorNodeConnector::Top));
    data.connections.push((3, BehaviorNodeConnector::Success, 4, BehaviorNodeConnector::Top));
    data.start_position = Some((1, 5, 5));
    game.add_behavior(GameBehavior { name: String::from("singer"), path: String::new(), data });
    let id = game.create_instance(7, None).unwrap();
    game.tick();
    let update = game.poll_update(id).unwrap();
    assert_eq!(update.actions.len(), 1);
    assert_eq!(update.actions[0].instance_id, id);
    assert_eq!(update.actions[0].action, "sing");
    // The variable store now holds the written value.
    let inst = game.instance_by_id(id).unwrap();
    assert_eq!(inst.variables.len(), 1);
    assert_eq!(inst.variables[0].0, "mood");
    assert_eq!(inst.variables[0].1, NodeValue::Number(3));
}

#[test]
fn graph_validation_rejects_broken_graphs() {
    // No node at all.
    assert_eq!(empty_data(1).validate(), Err(SimError::MalformedGraph));
    // A dangling connection.
    let mut d = empty_data(1);
    d.nodes.push(node(1, BehaviorNodeType::Sequence));
    d.connections.push((1, BehaviorNodeConnector::Bottom, 99, BehaviorNodeConnector::Top));
    assert_eq!(d.validate(), Err(SimError::MalformedGraph));
    // Duplicate node ids.
    let mut d = empty_data(1);
    d.nodes.push(node(1, BehaviorNodeType::Sequence));
    d.nodes.push(node(1, BehaviorNodeType::Wait));
    assert_eq!(d.validate(), Err(SimError::MalformedGraph));
    // Two edges leaving one source connector.
    let mut d = empty_data(1);
    d.nodes.push(node(1, BehaviorNodeType::Sequence));
    d.nodes.push(node(2, BehaviorNodeType::Wait));
    d.nodes.push(node(3, BehaviorNodeType::Wait));
    d.connections.push((1, BehaviorNodeConnector::Bottom, 2, BehaviorNodeConnector::Top));
    d.connections.push((1, BehaviorNodeConnector::Bottom, 3, BehaviorNodeConnector::Top));
    assert_eq!(d.validate(), Err(SimError::MalformedGraph));
    // A connection leaving a sink or entering a source.
    let mut d = empty_data(1);
    d.nodes.push(node(1, BehaviorNodeType::Sequence));
    d.nodes.push(node(2, BehaviorNodeType::Wait));
    d.connections.push((1, BehaviorNodeConnector::Top, 2, BehaviorNodeConnector::Bottom));
    assert_eq!(d.validate(), Err(SimError::MalformedGraph));
}

#[test]
fn entry_point_resolution() {
    // One root: that root is the entry.
    let mut d = empty_data(1);
    d.nodes.push(node(4, BehaviorNodeType::Sequence));
    d.nodes.push(node(5, BehaviorNodeType::Wait));
    d.connections.push((4, BehaviorNodeConnector::Bottom, 5, BehaviorNodeConnector::Top));
    assert_eq!(d.validate(), Ok(4));
    // Two plain roots: ambiguous.
    let mut d = empty_data(1);
    d.nodes.push(node(4, BehaviorNodeType::Sequence));
    d.nodes.push(node(5, BehaviorNodeType::Wait));
    assert_eq!(d.validate(), Err(SimError::AmbiguousEntryPoint));
    // Two roots, exactly one flagged: the flagged one is the entry.
    let mut d = empty_data(1);
    d.nodes.push(node(4, BehaviorNodeType::Sequence));
    d.nodes.push(node(5, BehaviorNodeType::BehaviorTree));
    assert_eq!(d.validate(), Ok(5));
}

#[test]
fn create_instance_failures() {
    let mut game = world_with_region();
    assert_eq!(game.create_instance(99, None), Err(SimError::NotFound));
    game.add_behavior(GameBehavior {
        name: String::from("broken"),
        path: String::new(),
        data: empty_data(7),
    });
    assert_eq!(game.create_instance(7, None), Err(SimError::MalformedGraph));
}

#[test]
fn unknown_region_makes_instance_invisible_not_fatal() {
    let mut game = GameData::new(2);
    // No region 1 exists; the walker's moves report NotFound and the
    // simulation of other instances goes on.
    game.add_behavior(move_east_behavior(7, (1, 5, 5)));
    let id = game.create_instance(7, None).unwrap();
    game.tick();
    assert_eq!(game.instance_by_id(id).unwrap().position, Some((1, 5, 5)));
    assert!(game.diagnostics.iter().any(|d| d.error == SimError::NotFound));
}

#[test]
fn startup_spawns_and_shutdown_clears() {
    let mut game = world_with_region();
    game.add_behavior(move_east_behavior(7, (1, 5, 5)));
    game.add_behavior(GameBehavior {
        name: String::from("broken"),
        path: String::new(),
        data: empty_data(8),
    });
    game.startup();
    assert!(game.running);
    // One instance per valid graph; the broken one is skipped.
    assert_eq!(game.instances.len(), 1);
    assert_eq!(game.instances[0].behavior_id, 7);
    game.shutdown();
    assert!(!game.running);
    assert!(game.instances.is_empty());
}

#[test]
fn instances_in_region_lists_only_placed_ones() {
    let mut game = world_with_region();
    game.add_region(GameRegion::new(String::from("cave"), 2));
    game.add_behavior(move_east_behavior(7, (1, 5, 5)));
    game.add_behavior(move_east_behavior(8, (2, 1, 1)));
    let a = game.create_instance(7, None).unwrap();
    let b = game.create_instance(8, None).unwrap();
    // An explicit initial position overrides the behavior's start.
    let c = game.create_instance(7, Some((2, 4, 4))).unwrap();
    assert_eq!(game.instances_in_region(1), vec![a]);
    assert_eq!(game.instances_in_region(2), vec![b, c]);
    assert!(game.instances_in_region(3).is_empty());
}

#[test]
fn apply_effects_for_unknown_instance_is_reported() {
    let mut game = world_with_region();
    let effects = vec![eldiron_core::interpreter::Effect::MoveBy { dx: 1, dy: 0 }];
    game.apply_effects(42, &effects);
    assert_eq!(game.diagnostics.len(), 1);
    assert_eq!(game.diagnostics[0].error, SimError::NotFound);
}

#[test]
fn invalid_transition_is_rejected_and_logged() {
    let mut game = world_with_region();
    game.add_behavior(move_east_behavior(7, (1, 5, 5)));
    let id = game.create_instance(7, None).unwrap();
    let kill = vec![eldiron_core::interpreter::Effect::TransitionState {
        target: BehaviorInstanceState::Purged,
    }];
    game.apply_effects(id, &kill);
    assert_eq!(game.instance_by_id(id).unwrap().state, BehaviorInstanceState::Purged);
    let revive = vec![eldiron_core::interpreter::Effect::TransitionState {
        target: BehaviorInstanceState::Running,
    }];
    game.apply_effects(id, &revive);
    assert_eq!(game.instance_by_id(id).unwrap().state, BehaviorInstanceState::Purged);
    assert!(game.diagnostics.iter().any(|d| d.error == SimError::InvalidTransition));
}

#[test]
fn move_off_the_coordinate_range_is_blocked() {
    let mut game = world_with_region();
    game.add_behavior(move_east_behavior(7, (1, isize::MAX, 0)));
    let id = game.create_instance(7, None).unwrap();
    game.tick();
    // The target column would leave the representable range: the move is
    // dropped like any blocked move and the instance stays put.
    assert_eq!(game.instance_by_id(id).unwrap().position, Some((1, isize::MAX, 0)));
    assert!(game.diagnostics.iter().any(|d| d.error == SimError::BlockedMove));
}

#[test]
fn unplaced_viewer_sees_no_region() {
    let mut game = world_with_region();
    let mut data = empty_data(7);
    data.nodes.push(node(1, BehaviorNodeType::Wait));
    // No start position: the spawned instance is not placed anywhere.
    game.add_behavior(GameBehavior { name: String::from("ghostly"), path: String::new(), data });
    let id = game.create_instance(7, None).unwrap();
    game.tick();
    let update = game.poll_update(id).unwrap();
    assert_eq!(update.region_id, None);
    assert!(update.instances.is_empty());
}

#[test]
fn one_effect_set_per_tick_applied_atomically() {
    let mut game = world_with_region();
    // One walk emits a whole effect set: a move east, then a kill.
    let mut data = empty_data(7);
    data.nodes.push(node(1, BehaviorNodeType::BehaviorTree));
    data.nodes.push(node(2, BehaviorNodeType::MoveDirection { dx: 1, dy: 0 }));
    data.nodes.push(node(
        3,
        BehaviorNodeType::SetState { target: BehaviorInstanceState::Killed },
    ));
    data.connections.push((1, BehaviorNodeConnector::Bottom, 2, BehaviorNodeConnector::Top));
    data.connections.push((2, BehaviorNodeConnector::Success, 3, BehaviorNodeConnector::Top));
    data.start_position = Some((1, 5, 5));
    game.add_behavior(GameBehavior { name: String::from("swan"), path: String::new(), data });
    let id = game.create_instance(7, None).unwrap();
    game.tick();
    // The one effect set of the tick was applied in full.
    let inst = game.instance_by_id(id).unwrap();
    assert_eq!(inst.position, Some((1, 6, 5)));
    assert_eq!(inst.state, BehaviorInstanceState::Killed);
    // A killed instance is excluded from interpretation: no second set ever.
    game.tick();
    assert_eq!(game.instance_by_id(id).unwrap().position, Some((1, 6, 5)));
}

#[test]
fn rejected_sub_effect_leaves_the_others_applied() {
    let mut game = world_with_region();
    game.regions[0].set_value((6, 5), tile(TileUsage::EnvBlocking));
    // The walk proposes a blocked move and then still emits an action.
    let mut data = empty_data(7);
    data.nodes.push(node(1, BehaviorNodeType::BehaviorTree));
    data.nodes.push(node(2, BehaviorNodeType::MoveDirection { dx: 1, dy: 0 }));
    data.nodes.push(node(3, BehaviorNodeType::EmitAction { action: String::from("bump") }));
    data.connections.push((1, BehaviorNodeConnector::Bottom, 2, BehaviorNodeConnector::Top));
    data.connections.push((2, BehaviorNodeConnector::Fail, 3, BehaviorNodeConnector::Top));
    data.start_position = Some((1, 5, 5));
    game.add_behavior(GameBehavior { name: String::from("bumper"), path: String::new(), data });
    let id = game.create_instance(7, None).unwrap();
    game.tick();
    // The move was dropped in full and recorded; the emit went through.
    let inst = game.instance_by_id(id).unwrap();
    assert_eq!(inst.position, Some((1, 5, 5)));
    assert!(game.diagnostics.iter().any(|d| d.error == SimError::BlockedMove));
    let update = game.poll_update(id).unwrap();
    assert_eq!(update.actions.len(), 1);
    assert_eq!(update.actions[0].action, "bump");
}
