use ink_ribbon::bake::{
    bake_items, bake_nav_grids, bake_stairs, build_walk, carve_doors, composite, empty_bin,
    find_stair, or, CELL_PX,
};
use ink_ribbon::raster::Mask;
use ink_ribbon::scene::{ItemDef, ItemKind, Link, Scene, StairNode, FLOOR1_INDEX};

fn bits(v: f32) -> u32 {
    v.to_bits()
}

fn u32_at(b: &[u8], at: usize) -> u32 {
    u32::from_le_bytes([b[at], b[at + 1], b[at + 2], b[at + 3]])
}

fn nav_bit(nav: &[u8], x: i32, y: i32) -> bool {
    let w = u32_at(nav, 4) as i32;
    let i = (y * w + x) as usize;
    (nav[12 + (i >> 3)] >> (i & 7)) & 1 == 1
}

#[test]
fn scene_links_bake_into_stairs_and_items() {
    let mut scene = Scene::default();
    let f1 = FLOOR1_INDEX;
    let f2 = 1;
    scene.floors[f1].stairs.push(StairNode { id: 1, pos: (bits(100.0), bits(200.0)) });
    scene.floors[f2].stairs.push(StairNode { id: 2, pos: (bits(300.0), bits(400.0)) });
    scene.floors[f1].links.push(Link::Stair { a_floor: f1 as u8, a_id: 1, b_floor: f2 as u8, b_id: 2 });
    scene.floors[f1].items.push(ItemDef {
        id: 5,
        kind: ItemKind::Key,
        name: "Key".into(),
        pos: (bits(10.0), bits(20.0)),
        rot: bits(0.0),
    });

    let stairs = bake_stairs(&scene).unwrap_or_else(empty_bin);
    let items = bake_items(&scene).unwrap_or_else(empty_bin);
    assert_eq!(stairs.len(), 4 + 24);
    assert_eq!(u32_at(&stairs, 0), 1);
    // record: id(4) floor(4) kind(1) x(4) y(4) name_len(4) + "Key"(3)
    assert_eq!(items.len(), 4 + 4 + 4 + 1 + 4 + 4 + 4 + 3);
    assert_eq!(u32_at(&items, 0), 1);
    assert_eq!(u32_at(&items, 4), 5);
    assert_eq!(u32_at(&items, 8), f1 as u32);
}

#[test]
fn an_empty_scene_has_no_tables() {
    let scene = Scene::default();
    assert_eq!(bake_stairs(&scene), None);
    assert_eq!(bake_items(&scene), None);
    assert_eq!(empty_bin(), vec![0, 0, 0, 0]);
}

#[test]
fn stair_records_carry_floors_and_positions() {
    let mut scene = Scene::default();
    scene.floors[0].stairs.push(StairNode { id: 4, pos: (bits(1.5), bits(2.5)) });
    scene.floors[2].stairs.push(StairNode { id: 8, pos: (bits(3.5), bits(4.5)) });
    // A link with a missing end is skipped; links are read floor by floor.
    scene.floors[1].links.push(Link::Stair { a_floor: 0, a_id: 4, b_floor: 2, b_id: 99 });
    scene.floors[2].links.push(Link::Stair { a_floor: 2, a_id: 8, b_floor: 0, b_id: 4 });
    scene.floors[0].links.push(Link::Stair { a_floor: 0, a_id: 4, b_floor: 2, b_id: 8 });
    scene.floors[0].links.push(Link::KeyDoor { item_floor: 0, item_id: 1, door_floor: 0, door_id: 2 });
    assert_eq!(find_stair(&scene, 2, 8), Some((bits(3.5), bits(4.5))));
    assert_eq!(find_stair(&scene, 2, 99), None);
    assert_eq!(find_stair(&scene, 3, 8), None);
    let t = bake_stairs(&scene).expect("two records");
    assert_eq!(t.len(), 4 + 2 * 24);
    assert_eq!(u32_at(&t, 0), 2);
    // First the floor-0 link, then the floor-2 one.
    let want: [u32; 12] = [
        0, 2, bits(1.5), bits(2.5), bits(3.5), bits(4.5),
        2, 0, bits(3.5), bits(4.5), bits(1.5), bits(2.5),
    ];
    for (k, v) in want.iter().enumerate() {
        assert_eq!(u32_at(&t, 4 + 4 * k), *v);
    }
}

#[test]
fn items_are_sorted_by_floor_then_id() {
    let mut scene = Scene::default();
    let item = |id: u32, name: &str| ItemDef {
        id,
        kind: ItemKind::InkRibbon,
        name: name.into(),
        pos: (bits(1.0), bits(2.0)),
        rot: bits(0.0),
    };
    scene.floors[2].items.push(item(1, "c"));
    scene.floors[0].items.push(item(9, "b"));
    scene.floors[0].items.push(item(3, "a"));
    scene.floors[1].items.push(ItemDef { kind: ItemKind::Player, ..item(2, "p") });
    let t = bake_items(&scene).expect("records");
    assert_eq!(u32_at(&t, 0), 4);
    let mut at = 4;
    let mut seen = Vec::new();
    for _ in 0..4 {
        let id = u32_at(&t, at);
        let floor = u32_at(&t, at + 4);
        let kind = t[at + 8];
        let len = u32_at(&t, at + 17) as usize;
        seen.push((floor, id, kind, t[at + 21..at + 21 + len].to_vec()));
        at += 21 + len;
    }
    assert_eq!(at, t.len());
    assert_eq!(
        seen,
        vec![
            (0, 3, 1, b"a".to_vec()),
            (0, 9, 1, b"b".to_vec()),
            (1, 2, 4, b"p".to_vec()),
            (2, 1, 1, b"c".to_vec()),
        ]
    );
}

#[test]
fn composite_paints_set_cells_opaque() {
    let mut m = Mask::new(3, 2);
    m.set(1, 0, true);
    m.set(2, 1, true);
    let mut canvas = vec![7u8; 3 * 2 * 4];
    composite(&mut canvas, 3, &m, (10, 20, 30));
    assert_eq!(&canvas[4..8], &[10, 20, 30, 255]);
    assert_eq!(&canvas[20..24], &[10, 20, 30, 255]);
    assert_eq!(&canvas[0..4], &[7, 7, 7, 7]);
    assert_eq!(canvas.iter().filter(|&&b| b == 255).count(), 2);
}

#[test]
fn or_sets_bits_of_either() {
    let mut a = Mask::new(4, 4);
    a.set(0, 0, true);
    let mut b = Mask::new(4, 4);
    b.set(3, 3, true);
    let c = or(&a, &b);
    assert!(c.get(0, 0) && c.get(3, 3) && !c.get(1, 1));
}

/// A 120x120 floor with a closed square room of wall from (40,40) to (80,80),
/// two cells thick, well inside the seal radius of the frame.
fn room() -> Mask {
    let mut walls = Mask::new(120, 120);
    walls.fill_cells(40, 40, 80, 42, true);
    walls.fill_cells(40, 78, 80, 80, true);
    walls.fill_cells(40, 40, 42, 80, true);
    walls.fill_cells(78, 40, 80, 80, true);
    walls
}

#[test]
fn a_closed_room_is_walkable_inside_only() {
    let walls = room();
    let none = Mask::new(120, 120);
    let walk = build_walk(&walls, &none, &none, &none, true, 120, 120);
    assert!(walk.get(60, 60), "room interior");
    assert!(!walk.get(43, 60), "within the clearance of the wall");
    assert!(!walk.get(2, 2), "outside is exterior");
    assert!(!walk.get(41, 60), "the wall itself");
}

#[test]
fn an_empty_floor_is_all_exterior() {
    let none = Mask::new(20, 20);
    let walk = build_walk(&none, &none, &none, &none, true, 20, 20);
    assert!(!walk.any());
    let (nav, nav_open) = bake_nav_grids(&none, &none, &none, &none, 20, 20);
    assert_eq!(u32_at(&nav, 0), CELL_PX);
    assert_eq!(u32_at(&nav, 4), 20);
    assert_eq!(u32_at(&nav, 8), 20);
    assert!(nav[12..].iter().all(|&b| b == 0));
    assert_eq!(nav, nav_open);
}

#[test]
fn locked_doors_block_only_the_closed_grid() {
    // A room whose west wall has a locked door in place of a stretch of wall.
    let mut walls = room();
    walls.fill_cells(40, 56, 42, 64, false);
    let mut locked = Mask::new(120, 120);
    locked.fill_cells(40, 56, 42, 64, true);
    let none = Mask::new(120, 120);
    let (nav, nav_open) = bake_nav_grids(&walls, &none, &locked, &none, 120, 120);
    // With the door counted, the room is sealed and its inside walkable.
    assert!(nav_bit(&nav, 60, 60));
    assert!(!nav_bit(&nav, 41, 60));
    // Without it the seal still closes the room (the opening is narrower than
    // the seal radius), and the doorway itself is free.
    assert!(nav_bit(&nav_open, 60, 60));
    assert!(nav_bit(&nav_open, 43, 60));
    assert!(!nav_bit(&nav, 43, 60));
}

#[test]
fn unlocked_doors_are_carved_where_no_geometry_is() {
    let walls = room();
    let none = Mask::new(120, 120);
    let mut unlocked = Mask::new(120, 120);
    unlocked.set(41, 60, true);
    unlocked.set(60, 60, true);
    let doors = carve_doors(&unlocked, &walls, &none, &none, 120, 120);
    // Grown by one cell, then cut back where walls stand.
    assert!(!doors.get(41, 60) && !doors.get(40, 60));
    assert!(doors.get(42, 60) && doors.get(59, 59) && doors.get(61, 61));
    assert!(!doors.get(58, 60));
}
