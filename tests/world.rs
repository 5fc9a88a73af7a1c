use tile_layers::tiles::{TileInfo, TileSet};
use tile_layers::vec2i::Vec2i;
use tile_layers::world::World;
use tile_layers::world_view::{plan_draws, TileDraw};

fn info(name: &str, x: i32) -> TileInfo {
    TileInfo {
        name: name.to_string(),
        texel_offset: Vec2i::new(x, 0),
        texel_size: Vec2i::splat(16),
        flags: 0,
    }
}

fn catalog() -> TileSet {
    TileSet::new(vec![info("ground", 0), info("ladder", 16), info("player_idle", 32)])
}

#[test]
fn default_world_layout() {
    let w = World::new(catalog());
    assert_eq!(w.layer_count(), 6);
    assert_eq!(w.scale_factor(), 2);
    assert_eq!(w.player_layer(), 5);
    let sizes: Vec<i32> = (0..6).map(|i| w.layer_size(i)).collect();
    assert_eq!(sizes, vec![4, 8, 16, 32, 64, 128]);
    assert_eq!(w.player_units(), (5, 5));
    assert_eq!(w.units_per_cell(5), 2);
    assert_eq!(w.units_per_cell(0), 64);
    assert_eq!(w.player_cell(), Vec2i::new(2, 2));
}

#[test]
fn scenario_ground_descriptor_through_wrap() {
    let ts = TileSet::new(vec![info("ground", 0)]);
    let mut w = World::with_layers(ts, 1, 2);
    assert_eq!(w.layer_size(0), 4);
    w.set_tile(Vec2i::new(1, 1), 1);
    assert_eq!(w.get_tile_info(Vec2i::new(1, 1)).unwrap().name, "ground");
    assert_eq!(w.get_tile_info(Vec2i::new(5, 1)).unwrap().name, "ground");
    assert!(w.get_tile_info(Vec2i::new(2, 1)).is_none());
}

#[test]
fn tile_info_absent_past_catalog_end() {
    let ts = TileSet::new(vec![info("ground", 0)]);
    let mut w = World::with_layers(ts, 1, 2);
    w.set_tile(Vec2i::new(0, 0), 2);
    assert_eq!(w.get_tile(Vec2i::new(0, 0)), Some(2));
    assert!(w.get_tile_info(Vec2i::new(0, 0)).is_none());
}

#[test]
fn scenario_tile_below_shares_coarse_cell() {
    let mut w = World::with_layers(catalog(), 2, 2);
    assert_eq!(w.layer_size(0), 4);
    assert_eq!(w.layer_size(1), 8);
    assert!(w.shift_layer(-1));
    assert_eq!(w.player_layer(), 0);
    w.set_tile(Vec2i::new(0, 0), 5);
    assert!(w.shift_layer(1));
    assert_eq!(w.player_layer(), 1);
    assert_eq!(w.get_tile_below(Vec2i::new(0, 0)), Some(5));
    assert_eq!(w.get_tile_below(Vec2i::new(1, 1)), Some(5));
    assert_eq!(w.get_tile_below(Vec2i::new(2, 1)), Some(0));
    assert_eq!(w.get_tile_below(Vec2i::new(8, -7)), Some(5));
}

#[test]
fn scenario_nothing_below_lowest_layer() {
    let mut w = World::with_layers(catalog(), 3, 2);
    while w.shift_layer(-1) {}
    assert_eq!(w.player_layer(), 0);
    w.set_tile(Vec2i::new(1, 1), 3);
    for p in [Vec2i::new(0, 0), Vec2i::new(1, 1), Vec2i::new(-5, 9), Vec2i::new(i32::MAX, i32::MIN)] {
        assert_eq!(w.get_tile_below(p), None);
    }
}

#[test]
fn write_far_outside_reads_back_wrapped() {
    let mut w = World::with_layers(catalog(), 1, 2);
    let n = w.layer_size(0);
    w.set_tile(Vec2i::new(n + 3, -1), 7);
    assert_eq!(w.get_tile(Vec2i::new(n + 3, -1)), Some(7));
    assert_eq!(w.wrap_position(Vec2i::new(n + 3, -1)), Vec2i::new(3, 3));
    assert_eq!(w.get_tile(Vec2i::new(3, 3)), Some(7));
    assert_eq!(w.get_tile(Vec2i::new(3 - 5 * n, 3 + 2 * n)), Some(7));
}

#[test]
fn tiles_above_read_block_in_rotational_order() {
    let mut w = World::with_layers(catalog(), 2, 2);
    w.set_tile(Vec2i::new(2, 4), 1);
    w.set_tile(Vec2i::new(2, 5), 2);
    w.set_tile(Vec2i::new(3, 5), 3);
    w.set_tile(Vec2i::new(3, 4), 4);
    assert!(w.get_tiles_above(Vec2i::new(1, 2)).is_none());
    assert!(w.shift_layer(-1));
    assert_eq!(w.get_tiles_above(Vec2i::new(1, 2)), Some(vec![1, 2, 3, 4]));
    assert_eq!(w.get_tiles_above(Vec2i::new(5, -2)), Some(vec![1, 2, 3, 4]));
    assert_eq!(w.get_tiles_above(Vec2i::new(0, 0)), Some(vec![0, 0, 0, 0]));
}

#[test]
fn tiles_above_with_factor_three() {
    let mut w = World::with_layers(catalog(), 2, 3);
    assert_eq!(w.layer_size(1), 27);
    for dx in 0..3 {
        for dy in 0..3 {
            w.set_tile(Vec2i::new(3 + dx, 6 + dy), (10 * dx + dy) as u8);
        }
    }
    assert!(w.shift_layer(-1));
    assert_eq!(w.get_tiles_above(Vec2i::new(1, 2)), Some(vec![0, 1, 2, 12, 11, 10, 20, 21, 22]));
}

#[test]
fn shift_there_and_back_restores_layer_and_focus() {
    let mut w = World::new(catalog());
    assert!(w.move_player(Vec2i::new(3, -3)));
    assert_eq!(w.player_cell(), Vec2i::new(5, 127));
    let layer = w.player_layer();
    let units = w.player_units();
    assert!(w.shift_layer(-1));
    assert_eq!(w.player_units(), units);
    assert!(w.shift_layer(1));
    assert_eq!(w.player_layer(), layer);
    assert_eq!(w.player_units(), units);
    assert!(!w.shift_layer(1));
    assert_eq!(w.player_layer(), layer);
}

#[test]
fn shift_rescales_focus_cell() {
    let mut w = World::new(catalog());
    assert!(!w.move_player(Vec2i::new(4, 6)));
    assert_eq!(w.player_cell(), Vec2i::new(6, 8));
    assert!(w.shift_layer(-1));
    assert_eq!(w.player_cell(), Vec2i::new(3, 4));
    assert!(w.shift_layer(-2));
    assert_eq!(w.player_cell(), Vec2i::new(0, 1));
    assert!(!w.shift_layer(-3));
    assert!(w.shift_layer(3));
    assert_eq!(w.player_cell(), Vec2i::new(6, 8));
}

#[test]
fn move_reports_wrap_exactly_when_leaving_the_layer() {
    let mut w = World::with_layers(catalog(), 1, 2);
    assert_eq!(w.player_cell(), Vec2i::new(2, 2));
    assert!(!w.move_player(Vec2i::new(1, 0)));
    assert_eq!(w.player_cell(), Vec2i::new(3, 2));
    assert!(w.move_player(Vec2i::new(1, 0)));
    assert_eq!(w.player_cell(), Vec2i::new(0, 2));
    assert!(w.move_player(Vec2i::new(0, -3)));
    assert_eq!(w.player_cell(), Vec2i::new(0, 3));
    assert!(!w.move_player(Vec2i::new(0, 0)));
    assert!(w.move_player(Vec2i::new(-9, 0)));
    assert_eq!(w.player_cell(), Vec2i::new(3, 3));
    assert_eq!(w.player_units(), (7, 7));
}

#[test]
fn frame_plan_draws_terrain_then_marker() {
    let mut w = World::with_layers(catalog(), 1, 2);
    w.set_tile(Vec2i::new(2, 2), 2);
    w.set_tile(Vec2i::new(3, 2), 1);
    let marker = info("player_idle", 32);
    let plan = plan_draws(&w, Vec2i::new(1, 2), Vec2i::new(4, 3), &marker);
    let q = |x: i32, tx: i32| TileDraw {
        texel_offset: Vec2i::new(tx, 0),
        texel_size: Vec2i::splat(16),
        pos: Vec2i::new(x, 2),
    };
    assert_eq!(plan, vec![q(2, 16), q(2, 32), q(3, 0)]);
    let wide = plan_draws(&w, Vec2i::new(-2, 2), Vec2i::new(0, 3), &marker);
    assert_eq!(
        wide,
        vec![
            TileDraw { texel_offset: Vec2i::new(16, 0), texel_size: Vec2i::splat(16), pos: Vec2i::new(-2, 2) },
            TileDraw { texel_offset: Vec2i::new(32, 0), texel_size: Vec2i::splat(16), pos: Vec2i::new(-2, 2) },
            TileDraw { texel_offset: Vec2i::new(0, 0), texel_size: Vec2i::splat(16), pos: Vec2i::new(-1, 2) },
        ]
    );
    assert!(plan_draws(&w, Vec2i::new(3, 3), Vec2i::new(1, 5), &marker).is_empty());
}
