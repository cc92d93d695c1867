use crawler_nav::dirt::Dirt;
use crawler_nav::map::{CellContent, CellType, SideMapCells};
use crawler_nav::movement::{apply_speed, Speed};
use crawler_nav::positions::{addr_key, morton_encode, SideIPos, SidePosition, SIDE_CELL_SIZE};

#[test]
fn cell_size_is_32() {
    assert_eq!(SIDE_CELL_SIZE, 32);
}

#[test]
fn dirt_dig_decrements_to_empty() {
    let mut d = Dirt(2);
    assert!(!d.is_empty());
    d.dig();
    assert_eq!(d, Dirt(1));
    d.dig();
    assert!(d.is_empty());
    d.dig();
    assert_eq!(d, Dirt(0));
}

#[test]
fn dirt_texture_path() {
    assert_eq!(Dirt::empty().texture_path(), None);
    assert_eq!(Dirt(200).texture_path(), Some("dirt/full.png".to_string()));
    assert_eq!(Dirt(100).texture_path(), Some("dirt/half.png".to_string()));
}

#[test]
fn dirt_random_is_some_amount() {
    let d = Dirt::random();
    // any byte is a valid amount; emptiness must agree with the raw value
    assert_eq!(d.is_empty(), d.0 == 0);
}

#[test]
fn cell_weights() {
    assert_eq!(CellContent::empty_air().weight(), Some(1));
    assert_eq!(CellContent::empty_underground().weight(), Some(1));
    assert_eq!(CellContent::rock(true).weight(), None);
    assert_eq!(CellContent::dirt(0).weight(), Some(1));
    assert_eq!(CellContent::dirt(9).weight(), Some(10));
    assert_eq!(CellContent::dirt(255).weight(), Some(256));
}

#[test]
fn cell_dig_erodes_dirt_only() {
    // eroding Dirt(n) by d yields Dirt(n - d) while anything is left
    let mut c = CellContent::dirt(25);
    c.dig(10);
    assert_eq!(c.cell_type, CellType::Dirt(15));
    // and Empty once nothing is left
    c.dig(20);
    assert_eq!(c.cell_type, CellType::Empty);
    // eroding Empty is a no-op
    c.dig(10);
    assert_eq!(c.cell_type, CellType::Empty);
    // eroding Rock is a no-op
    let mut r = CellContent::rock(false);
    r.dig(255);
    assert_eq!(r.cell_type, CellType::Rock);
    // the last bit of dirt vanishes entirely
    let mut z = CellContent::dirt(0);
    z.dig(1);
    assert_eq!(z.cell_type, CellType::Empty);
}

#[test]
fn cell_dig_keeps_underground_flag() {
    let mut c = CellContent::dirt(5);
    c.dig(10);
    assert_eq!(c.cell_type, CellType::Empty);
    assert_eq!(c, CellContent::empty_underground());
}

#[test]
fn cell_textures() {
    assert_eq!(CellContent::empty_air().texture_path(), None);
    assert_eq!(
        CellContent::rock(true).texture_path(),
        Some("cell/rock.png".to_string())
    );
    assert_eq!(
        CellContent::dirt(128).texture_path(),
        Some("cell/full.png".to_string())
    );
    assert_eq!(
        CellContent::dirt(127).texture_path(),
        Some("cell/half.png".to_string())
    );
    assert_eq!(CellContent::random_dirt().is_rock(), false);
    assert_eq!(CellContent::random_dirt().is_empty(), false);
}

#[test]
fn world_point_round_trip() {
    let p = SideIPos::new(-3, 7);
    let w = p.to_world_point();
    assert_eq!(w, SidePosition::new(-96, 224));
    assert_eq!(w.to_cell(), p);
    // every continuous position belongs to exactly one cell, by floor
    assert_eq!(SidePosition::new(-1, 31).to_cell(), SideIPos::new(-1, 0));
    assert_eq!(SidePosition::new(-33, 32).to_cell(), SideIPos::new(-2, 1));
}

#[test]
fn sides_are_the_four_neighbours() {
    let p = SideIPos::new(2, -5);
    let s = p.sides();
    assert_eq!(s[0], SideIPos::new(3, -5));
    assert_eq!(s[1], SideIPos::new(1, -5));
    assert_eq!(s[2], SideIPos::new(2, -4));
    assert_eq!(s[3], SideIPos::new(2, -6));
}

#[test]
fn morton_interleaves_bits() {
    assert_eq!(morton_encode(0, 0), 0);
    assert_eq!(morton_encode(1, 0), 1);
    assert_eq!(morton_encode(0, 1), 2);
    assert_eq!(morton_encode(3, 5), 39);
    // negative coordinates interleave their two's-complement bits
    assert_eq!(morton_encode(-1, 0), 0x5555_5555_5555_5555);
    // spatially close addresses sort close together
    assert!(morton_encode(1, 1) < morton_encode(16, 16));
}

#[test]
fn addr_keys_distinct() {
    assert_ne!(
        addr_key(&SideIPos::new(1, 0)),
        addr_key(&SideIPos::new(0, 1))
    );
    assert_ne!(
        addr_key(&SideIPos::new(-1, -1)),
        addr_key(&SideIPos::new(1, 1))
    );
}

#[test]
fn cells_store_and_erode() {
    let mut cells = SideMapCells::new();
    let p = SideIPos::new(4, -2);
    assert!(!cells.contains(&p));
    assert!(cells.get(&p).is_none());
    cells.insert(p, CellContent::dirt(30));
    assert!(cells.contains(&p));
    assert_eq!(cells.get(&p).unwrap().amount_left(), 30);
    assert!(cells.dig_at(&p, 10));
    assert_eq!(cells.get(&p).unwrap().amount_left(), 20);
    assert!(!cells.dig_at(&SideIPos::new(9, 9), 10));
}

#[test]
fn apply_speed_scales_by_time() {
    assert_eq!(apply_speed(&Speed::new(32), 1000), 32);
    assert_eq!(apply_speed(&Speed::new(32), 500), 16);
    assert_eq!(apply_speed(&Speed::new(10), 100), 1);
}
