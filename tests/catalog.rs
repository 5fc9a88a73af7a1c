use tile_layers::tiles::tile_flags::{ALLOWS_Z_MOVE, BLOCKS_MOVE};
use tile_layers::tiles::{TileInfo, TileSet};
use tile_layers::vec2i::Vec2i;

fn info(name: &str, x: i32, flags: u32) -> TileInfo {
    TileInfo {
        name: name.to_string(),
        texel_offset: Vec2i::new(x, 0),
        texel_size: Vec2i::splat(16),
        flags,
    }
}

#[test]
fn lookup_by_index_is_one_based() {
    let ts = TileSet::new(vec![info("ground", 0, 0), info("ladder", 16, ALLOWS_Z_MOVE)]);
    assert!(ts.get_tile_info(0).is_none());
    assert_eq!(ts.get_tile_info(1).unwrap().name, "ground");
    assert_eq!(ts.get_tile_info(2).unwrap().name, "ladder");
    assert!(ts.get_tile_info(3).is_none());
}

#[test]
fn lookup_by_name_takes_first_match() {
    let ts = TileSet::new(vec![info("a", 0, 0), info("b", 16, 0), info("b", 32, 0)]);
    assert_eq!(ts.get_tile_info_by_name("b").unwrap().texel_offset, Vec2i::new(16, 0));
    assert_eq!(ts.get_tile_info_by_name("a").unwrap().texel_offset, Vec2i::new(0, 0));
    assert!(ts.get_tile_info_by_name("cursor").is_none());
}

#[test]
fn layer_transition_flag() {
    assert!(info("ladder", 0, ALLOWS_Z_MOVE).allows_z_move());
    assert!(info("both", 0, ALLOWS_Z_MOVE | BLOCKS_MOVE).allows_z_move());
    assert!(!info("wall", 0, BLOCKS_MOVE).allows_z_move());
    assert!(!info("ground", 0, 0).allows_z_move());
}
