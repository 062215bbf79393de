use lib::hex::{dirs, distance_hex, Dir, Distance, HexMap, PosHex};

fn pos(q: i32, r: i32) -> PosHex {
    PosHex { q, r }
}

#[test]
fn distance_examples() {
    assert_eq!(distance_hex(pos(0, 0), pos(0, 0)), Distance(0));
    assert_eq!(distance_hex(pos(0, 0), pos(2, -1)), Distance(2));
    assert_eq!(distance_hex(pos(-1, 2), pos(2, -1)), Distance(3));
    assert_eq!(distance_hex(pos(1, 1), pos(-1, -1)), Distance(4));
}

#[test]
fn distance_is_symmetric() {
    let a = pos(3, -5);
    let b = pos(-2, 1);
    assert_eq!(distance_hex(a, b), distance_hex(b, a));
}

#[test]
fn six_directions_each_one_step_away() {
    let ds = dirs();
    assert_eq!(ds.len(), 6);
    let center = pos(2, -1);
    let mut neighbors = Vec::new();
    for d in ds {
        let n = Dir::get_neighbor_pos(center, d);
        assert_eq!(distance_hex(center, n), Distance(1));
        assert!(!neighbors.contains(&n));
        neighbors.push(n);
    }
}

#[test]
fn neighbor_offsets() {
    assert_eq!(Dir::get_neighbor_pos(pos(0, 0), Dir::SouthEast), pos(1, 0));
    assert_eq!(Dir::get_neighbor_pos(pos(0, 0), Dir::East), pos(1, -1));
    assert_eq!(Dir::get_neighbor_pos(pos(0, 0), Dir::NorthEast), pos(0, -1));
    assert_eq!(Dir::get_neighbor_pos(pos(0, 0), Dir::NorthWest), pos(-1, 0));
    assert_eq!(Dir::get_neighbor_pos(pos(0, 0), Dir::West), pos(-1, 1));
    assert_eq!(Dir::get_neighbor_pos(pos(0, 0), Dir::SouthWest), pos(0, 1));
}

#[test]
fn map_tiles_counts() {
    assert_eq!(HexMap::new(Distance(0), false).iter(), vec![pos(0, 0)]);
    assert_eq!(HexMap::new(Distance(1), false).iter().len(), 7);
    assert_eq!(HexMap::new(Distance(2), 0u8).iter().len(), 19);
    assert_eq!(HexMap::new(Distance(3), 0u8).iter().len(), 37);
}

#[test]
fn map_walks_column_by_column() {
    let tiles = HexMap::new(Distance(1), false).iter();
    assert_eq!(
        tiles,
        vec![pos(-1, 0), pos(-1, 1), pos(0, -1), pos(0, 0), pos(0, 1), pos(1, -1), pos(1, 0)]
    );
}

#[test]
fn map_inboard() {
    let m = HexMap::new(Distance(2), 0i32);
    assert!(m.is_inboard(pos(0, 0)));
    assert!(m.is_inboard(pos(2, -2)));
    assert!(m.is_inboard(pos(-2, 0)));
    assert!(!m.is_inboard(pos(2, 1)));
    assert!(!m.is_inboard(pos(3, 0)));
    assert!(!m.is_inboard(pos(i32::MAX, i32::MIN)));
    assert_eq!(m.radius(), Distance(2));
}

#[test]
fn map_set_then_get() {
    let mut m = HexMap::new(Distance(2), 0i32);
    m.set_tile(pos(1, -2), 5);
    m.set_tile(pos(-2, 2), 7);
    assert_eq!(m.tile(pos(1, -2)), 5);
    assert_eq!(m.tile(pos(-2, 2)), 7);
    assert_eq!(m.tile(pos(0, 0)), 0);
    m.set_tile(pos(1, -2), 6);
    assert_eq!(m.tile(pos(1, -2)), 6);
}
