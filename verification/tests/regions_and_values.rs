use eldiron_core::contains_pos_for;
use eldiron_core::region::{GameRegion, RegionArea, TileRef, TileUsage};
use eldiron_core::schedule::TickTimer;
use eldiron_core::value::{var_num_exec, var_set_exec, NodeValue};
use eldiron_core::widgets::RegionWidget;

fn env(map_id: usize) -> TileRef {
    TileRef { map_id, grid_x: 0, grid_y: 0, usage: TileUsage::Environment }
}

fn character() -> TileRef {
    TileRef { map_id: 9, grid_x: 1, grid_y: 1, usage: TileUsage::Character }
}

#[test]
fn get_value_is_empty_until_set() {
    let mut region = GameRegion::new(String::from("field"), 1);
    assert!(region.get_value((3, 4)).is_empty());
    region.set_value((3, 4), env(5));
    assert_eq!(region.get_value((3, 4)), vec![env(5)]);
    // A coordinate that was never the target of a set stays empty.
    assert!(region.get_value((4, 3)).is_empty());
}

#[test]
fn set_value_replaces_environment_and_keeps_overlays() {
    let mut region = GameRegion::new(String::from("field"), 1);
    region.set_value((0, 0), env(1));
    region.set_value((0, 0), character());
    // Placing a character tile keeps the environment below it.
    assert_eq!(region.get_value((0, 0)), vec![env(1), character()]);
    // Placing a new environment tile replaces the old one, keeps the overlay.
    region.set_value((0, 0), env(2));
    assert_eq!(region.get_value((0, 0)), vec![character(), env(2)]);
}

#[test]
fn remove_value_clears_the_coordinate() {
    let mut region = GameRegion::new(String::from("field"), 1);
    region.set_value((-2, 7), env(1));
    region.remove_value((-2, 7));
    assert!(region.get_value((-2, 7)).is_empty());
    // Removing an absent coordinate is a quiet no-op.
    region.remove_value((100, 100));
    assert!(region.get_value((100, 100)).is_empty());
}

#[test]
fn bounds_grow_with_placed_tiles() {
    let mut region = GameRegion::new(String::from("field"), 1);
    region.set_value((5, -3), env(1));
    assert_eq!(region.data.min_pos, (0, -3));
    assert_eq!(region.data.max_pos, (5, 0));
    region.set_value((-7, 9), env(1));
    assert_eq!(region.data.min_pos, (-7, -3));
    assert_eq!(region.data.max_pos, (5, 9));
}

#[test]
fn areas_answer_membership_queries() {
    let mut region = GameRegion::new(String::from("field"), 1);
    region.data.areas.push(RegionArea {
        name: String::from("spawn"),
        coords: vec![(0, 0), (0, 1)],
    });
    region.data.areas.push(RegionArea { name: String::from("lake"), coords: vec![(0, 1)] });
    assert_eq!(region.get_area_names(), vec![String::from("spawn"), String::from("lake")]);
    assert_eq!(region.areas_at((0, 0)), vec![String::from("spawn")]);
    assert_eq!(region.areas_at((0, 1)), vec![String::from("spawn"), String::from("lake")]);
    assert!(region.areas_at((9, 9)).is_empty());
}

#[test]
fn variable_store_defaults_and_updates() {
    let mut vars: Vec<(String, NodeValue)> = Vec::new();
    assert_eq!(var_num_exec(&vars, &String::from("health")), 0);
    var_set_exec(&mut vars, &String::from("health"), &NodeValue::Number(10));
    assert_eq!(var_num_exec(&vars, &String::from("health")), 10);
    var_set_exec(&mut vars, &String::from("health"), &NodeValue::Number(4));
    assert_eq!(vars.len(), 1);
    assert_eq!(var_num_exec(&vars, &String::from("health")), 4);
    // A textual value reads as the numeric default.
    var_set_exec(&mut vars, &String::from("name"), &NodeValue::Text(String::from("iri")));
    assert_eq!(var_num_exec(&vars, &String::from("name")), 0);
    assert_eq!(vars.len(), 2);
}

#[test]
fn contains_pos_for_respects_all_edges() {
    let rect = (10, 20, 5, 4);
    assert!(contains_pos_for((10, 20), rect));
    assert!(contains_pos_for((14, 23), rect));
    assert!(!contains_pos_for((9, 20), rect));
    assert!(!contains_pos_for((15, 20), rect));
    assert!(!contains_pos_for((10, 24), rect));
    assert!(!contains_pos_for((0, 0), rect));
}

#[test]
fn region_widget_geometry() {
    let mut w = RegionWidget::new((100, 50, 300, 200));
    w.resize(400, 250);
    assert_eq!(w.rect, (100, 50, 400, 250));
    w.set_region_id(3);
    assert_eq!(w.region_id, 3);
    // grid_size 32, no scroll: screen (164, 114) is cell (2, 2).
    assert_eq!(w.screen_to_region((164, 114)), (2, 2));
    w.offset = (5, -1);
    assert_eq!(w.screen_to_region((164, 114)), (-3, 3));
}

#[test]
fn tick_timer_paces_ticks_and_redraws() {
    let mut t = TickTimer::new(250, 250);
    // Nothing is due immediately.
    assert_eq!(t.advance(100), (false, false));
    // Past one step, a tick is due and the tick timer catches up.
    assert_eq!(t.advance(300), (true, false));
    assert_eq!(t.game_tick_timer, 300);
    // Between ticks a redraw becomes due.
    assert_eq!(t.advance(540), (false, true));
    assert_eq!(t.redraw_timer, 540);
    // Once a whole step has passed, the tick wins over the redraw.
    assert_eq!(t.advance(551), (true, false));
    assert_eq!(t.game_tick_timer, 551);
}
