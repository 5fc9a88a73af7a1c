use tile_layers::controls::{apply_command, toggle_tile, Command, Outcome};
use tile_layers::tiles::tile_flags::ALLOWS_Z_MOVE;
use tile_layers::tiles::{TileInfo, TileSet};
use tile_layers::vec2i::Vec2i;
use tile_layers::world::World;

fn catalog() -> TileSet {
    TileSet::new(vec![
        TileInfo { name: "ground".to_string(), texel_offset: Vec2i::new(0, 0), texel_size: Vec2i::splat(16), flags: 0 },
        TileInfo {
            name: "ladder".to_string(),
            texel_offset: Vec2i::new(16, 0),
            texel_size: Vec2i::splat(16),
            flags: ALLOWS_Z_MOVE,
        },
    ])
}

#[test]
fn click_cycles_cell_value() {
    let mut w = World::with_layers(catalog(), 1, 2);
    let p = Vec2i::new(-3, 6);
    assert_eq!(w.get_tile(p), Some(0));
    toggle_tile(&mut w, p);
    assert_eq!(w.get_tile(p), Some(1));
    toggle_tile(&mut w, p);
    assert_eq!(w.get_tile(p), Some(2));
    toggle_tile(&mut w, p);
    assert_eq!(w.get_tile(p), Some(0));
    w.set_tile(p, 255);
    toggle_tile(&mut w, p);
    assert_eq!(w.get_tile(p), Some(1));
}

#[test]
fn moves_report_warps() {
    let mut w = World::with_layers(catalog(), 1, 2);
    assert_eq!(apply_command(&mut w, Command::Move(Vec2i::new(0, 1))), Outcome::Unchanged);
    assert_eq!(apply_command(&mut w, Command::Move(Vec2i::new(0, 1))), Outcome::Warped);
    assert_eq!(w.player_cell(), Vec2i::new(2, 0));
}

#[test]
fn layer_change_needs_a_ladder() {
    let mut w = World::with_layers(catalog(), 2, 2);
    assert_eq!(w.player_cell(), Vec2i::new(2, 2));
    assert_eq!(apply_command(&mut w, Command::ShiftLayer(-1)), Outcome::Unchanged);
    assert_eq!(w.player_layer(), 1);
    w.set_tile(Vec2i::new(2, 2), 1);
    assert_eq!(apply_command(&mut w, Command::ShiftLayer(-1)), Outcome::Unchanged);
    assert_eq!(w.player_layer(), 1);
    w.set_tile(Vec2i::new(2, 2), 2);
    assert_eq!(apply_command(&mut w, Command::ShiftLayer(1)), Outcome::Unchanged);
    assert_eq!(w.player_layer(), 1);
    assert_eq!(apply_command(&mut w, Command::ShiftLayer(-1)), Outcome::Shifted);
    assert_eq!(w.player_layer(), 0);
    assert_eq!(w.player_cell(), Vec2i::new(1, 1));
}
