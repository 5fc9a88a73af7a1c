use tile_layers::tiles::{wrap_coord, FlatTileMap, ItemizedTileMap, TileMap};
use tile_layers::vec2i::Vec2i;

#[test]
fn wrap_lands_in_range_and_is_idempotent() {
    let n = 8;
    for c in [-17, -8, -1, 0, 3, 7, 8, 11, 1000, i32::MIN, i32::MAX] {
        let w = wrap_coord(c, n);
        assert!(w >= 0 && w < n);
        assert_eq!(wrap_coord(w, n), w);
    }
    assert_eq!(wrap_coord(-1, 4), 3);
    assert_eq!(wrap_coord(7, 4), 3);
    assert_eq!(wrap_coord(-8, 4), 0);
}

#[test]
fn wrap_position_on_grid() {
    let m = FlatTileMap::new(Vec2i::splat(4));
    assert_eq!(m.wrap_position(Vec2i::new(7, -1)), Vec2i::new(3, 3));
    assert_eq!(m.wrap_position(Vec2i::new(-9, 12)), Vec2i::new(3, 0));
}

#[test]
fn dense_set_then_get() {
    let mut m = FlatTileMap::new(Vec2i::new(5, 3));
    assert_eq!(m.get_tile(Vec2i::new(4, 2)), Some(&0));
    m.set_tile(Vec2i::new(4, 2), 9);
    assert_eq!(m.get_tile(Vec2i::new(4, 2)), Some(&9));
    m.set_tile(Vec2i::new(4, 2), 2);
    assert_eq!(m.get_tile(Vec2i::new(4, 2)), Some(&2));
    assert_eq!(m.get_tile(Vec2i::new(0, 0)), Some(&0));
}

#[test]
fn sparse_set_then_get() {
    let mut m = ItemizedTileMap::new(Vec2i::new(5, 3));
    assert_eq!(m.get_tile(Vec2i::new(4, 2)), Some(&0));
    m.set_tile(Vec2i::new(4, 2), 9);
    m.set_tile(Vec2i::new(0, 0), 1);
    m.set_tile(Vec2i::new(2, 1), 4);
    assert_eq!(m.get_tile(Vec2i::new(4, 2)), Some(&9));
    assert_eq!(m.get_tile(Vec2i::new(0, 0)), Some(&1));
    assert_eq!(m.get_tile(Vec2i::new(2, 1)), Some(&4));
    m.set_tile(Vec2i::new(2, 1), 6);
    assert_eq!(m.get_tile(Vec2i::new(2, 1)), Some(&6));
    assert_eq!(m.get_tile(Vec2i::new(3, 1)), Some(&0));
}

#[test]
fn out_of_bounds_reads_and_writes() {
    let mut d = FlatTileMap::new(Vec2i::splat(4));
    let mut s = ItemizedTileMap::new(Vec2i::splat(4));
    for p in [Vec2i::new(-1, 0), Vec2i::new(0, 4), Vec2i::new(4, 4), Vec2i::new(2, -3)] {
        d.set_tile(p, 7);
        s.set_tile(p, 7);
        assert_eq!(d.get_tile(p), None);
        assert_eq!(s.get_tile(p), None);
        assert!(!d.pos_in_bounds(p));
        assert!(!s.pos_in_bounds(p));
    }
    for y in 0..4 {
        for x in 0..4 {
            assert_eq!(d.get_tile(Vec2i::new(x, y)), Some(&0));
            assert_eq!(s.get_tile(Vec2i::new(x, y)), Some(&0));
        }
    }
}

#[test]
fn dense_and_sparse_agree_on_a_log() {
    let size = Vec2i::new(6, 5);
    let mut d = FlatTileMap::new(size);
    let mut s = ItemizedTileMap::new(size);
    let mut seed: u32 = 12345;
    for _ in 0..300 {
        seed = seed.wrapping_mul(1103515245).wrapping_add(12345);
        let x = ((seed >> 8) % 9) as i32 - 1;
        let y = ((seed >> 16) % 8) as i32 - 1;
        let v = ((seed >> 4) % 5) as u8;
        d.set_tile(Vec2i::new(x, y), v);
        s.set_tile(Vec2i::new(x, y), v);
        for qy in -1..7 {
            for qx in -1..8 {
                let q = Vec2i::new(qx, qy);
                assert_eq!(d.get_tile(q), s.get_tile(q));
            }
        }
    }
}

#[test]
fn set_tiles_from_fills_row_major() {
    let mut m = FlatTileMap::new(Vec2i::new(3, 2));
    m.set_tiles_from(|p: Vec2i| (p.x + 10 * p.y) as u8);
    assert_eq!(m.get_tile(Vec2i::new(0, 0)), Some(&0));
    assert_eq!(m.get_tile(Vec2i::new(2, 0)), Some(&2));
    assert_eq!(m.get_tile(Vec2i::new(1, 1)), Some(&11));
    assert_eq!(m.get_tile(Vec2i::new(2, 1)), Some(&12));
    assert_eq!(m.get_size(), Vec2i::new(3, 2));
}
