use ink_ribbon::scene::{
    floor_frame, BoolOp, Box2, Door, DoorKind, Floor, ItemDef, ItemKind, Link, Rect, Region,
    RegionState, RoomLabel, Scene, StairNode, Trigger, WallOp, FLOOR1_INDEX, NUM_FLOORS, VERSION,
};
use ink_ribbon::wire::{put_f32, put_u16, put_u32, put_u8};

const MAGIC: &[u8; 4] = b"IRSC";

fn bits(v: f32) -> u32 {
    v.to_bits()
}

fn rect(x: f32, y: f32, w: f32, h: f32) -> Rect {
    Rect { x: bits(x), y: bits(y), w: bits(w), h: bits(h) }
}

#[test]
fn default_scene_round_trips() {
    let scene = Scene::default();
    let bytes = scene.to_bytes();
    assert_eq!(&bytes[..4], MAGIC);
    let back = Scene::from_bytes(&bytes).expect("decode");
    assert_eq!(back, scene);
    assert!(back.floors.iter().all(|f| f.is_empty()));
}

#[test]
fn saving_always_writes_the_current_version() {
    // A scene loaded from an older file keeps that `version`; saving must
    // still emit the current format (the bytes always include partitions).
    let mut scene = Scene { version: 1, ..Scene::default() };
    scene.floors[FLOOR1_INDEX].partitions.push(WallOp {
        mode: BoolOp::Add,
        rect: rect(10.0, 20.0, 30.0, 40.0),
    });
    let bytes = scene.to_bytes();
    assert_eq!(u16::from_le_bytes([bytes[4], bytes[5]]), VERSION);
    let back = Scene::from_bytes(&bytes).expect("decode");
    assert_eq!(back.floors[FLOOR1_INDEX].partitions, scene.floors[FLOOR1_INDEX].partitions);
}

fn populated() -> Scene {
    let mut scene = Scene::default();
    let floor = &mut scene.floors[FLOOR1_INDEX];
    floor.walls.push(WallOp { mode: BoolOp::Add, rect: rect(1600.0, 3420.0, 100.0, 40.0) });
    floor.walls.push(WallOp { mode: BoolOp::Sub, rect: rect(1640.0, 3420.0, 20.0, 40.0) });
    floor.partitions.push(WallOp { mode: BoolOp::Add, rect: rect(1700.0, 3420.0, 120.0, 20.0) });
    floor.labels.push(RoomLabel {
        name: "Medication Room".into(),
        pos: (bits(3504.0), bits(5145.0)),
    });
    floor.regions.push(Region {
        id: 11,
        name: "Ward".into(),
        rect: rect(3400.0, 5000.0, 500.0, 400.0),
        initial: RegionState::Hidden,
    });
    floor.triggers.push(Trigger { id: 12, rect: rect(3600.0, 5100.0, 80.0, 80.0) });
    floor.obstacles.push(Box2 {
        id: 7,
        center: (bits(2000.0), bits(4000.0)),
        size: (bits(64.0), bits(32.0)),
        rot: bits(0.5),
    });
    floor.doors.push(Door {
        id: 3,
        kind: DoorKind::Locked,
        reveals_as: DoorKind::Unlocked,
        center: (bits(2100.0), bits(4100.0)),
        size: (bits(48.0), bits(12.0)),
        rot: bits(0.0),
    });
    floor.stairs.push(StairNode { id: 1, pos: (bits(2719.0), bits(5210.0)) });
    floor.items.push(ItemDef {
        id: 9,
        kind: ItemKind::Key,
        name: "West Keycard".into(),
        pos: (bits(3554.0), bits(5196.0)),
        rot: bits(0.5),
    });
    floor.links.push(Link::Stair { a_floor: 1, a_id: 1, b_floor: 2, b_id: 2 });
    floor.links.push(Link::KeyDoor { item_floor: 2, item_id: 9, door_floor: 2, door_id: 3 });
    floor.links.push(Link::DoorRegion { door_floor: 2, door_id: 3, region_floor: 2, region_id: 11 });
    floor.links.push(Link::TriggerRegion {
        trigger_floor: 2,
        trigger_id: 12,
        region_floor: 2,
        region_id: 11,
    });
    floor.links.push(Link::ItemRegion { item_floor: 2, item_id: 9, region_floor: 2, region_id: 11 });
    scene
}

#[test]
fn populated_scene_round_trips() {
    let scene = populated();
    let bytes = scene.to_bytes();
    let back = Scene::from_bytes(&bytes).expect("decode");
    assert_eq!(back, scene);
}

fn frame_header(b: &mut Vec<u8>, version: u16) {
    b.extend_from_slice(MAGIC);
    put_u16(b, version);
    put_u8(b, NUM_FLOORS as u8);
    put_u8(b, 0);
}

fn put_frame(b: &mut Vec<u8>, index: usize) {
    let frame = floor_frame(index);
    for v in [frame.0, frame.1, frame.2, frame.3] {
        put_f32(b, v);
    }
}

#[test]
fn v4_scene_has_no_regions_or_triggers() {
    // A version-4 payload stops after labels: the reader must not look for
    // regions/triggers.
    let mut b = Vec::new();
    frame_header(&mut b, 4);
    for index in 0..NUM_FLOORS {
        put_frame(&mut b, index);
        put_u32(&mut b, 0); // walls
        put_u32(&mut b, 0); // partitions
        put_u32(&mut b, 0); // obstacles
        put_u32(&mut b, 0); // doors
        put_u32(&mut b, 0); // stairs
        put_u32(&mut b, 0); // items
        put_u32(&mut b, 0); // labels
        put_u32(&mut b, 0); // links
    }
    let scene = Scene::from_bytes(&b).expect("v4 should parse");
    assert_eq!(scene.version, 4);
    assert!(scene.floors.iter().all(|f| f.regions.is_empty() && f.triggers.is_empty()));
}

#[test]
fn scene_rejects_bad_magic_and_truncation() {
    assert!(Scene::from_bytes(b"nope").is_none());
    let bytes = Scene::default().to_bytes();
    assert!(Scene::from_bytes(&bytes[..bytes.len() - 1]).is_none());
}

#[test]
fn v1_scene_defaults_reveals_as_locked() {
    // Hand-build a version-1 scene with one door (no reveals_as byte).
    let mut b = Vec::new();
    frame_header(&mut b, 1);
    for index in 0..NUM_FLOORS {
        put_frame(&mut b, index);
        put_u32(&mut b, 0); // walls
        put_u32(&mut b, 0); // obstacles
        if index == FLOOR1_INDEX {
            put_u32(&mut b, 1); // doors
            put_u32(&mut b, 7); // id
            put_u8(&mut b, 0); // kind Locked
            for v in [100.0f32, 200.0, 10.0, 4.0, 0.0] {
                put_f32(&mut b, v.to_bits());
            }
        } else {
            put_u32(&mut b, 0);
        }
        put_u32(&mut b, 0); // stairs
        put_u32(&mut b, 0); // items
        put_u32(&mut b, 0); // links
    }
    let scene = Scene::from_bytes(&b).expect("v1 should parse");
    assert_eq!(scene.version, 1);
    let door = scene.floors[FLOOR1_INDEX].doors[0];
    assert_eq!(door.kind, DoorKind::Locked);
    assert_eq!(door.reveals_as, DoorKind::Locked);
    assert_eq!(door.center, (bits(100.0), bits(200.0)));
}

#[test]
fn v2_scene_reads_reveals_as() {
    // Version 2 stores the byte that version 1 lacks.
    let mut b = Vec::new();
    frame_header(&mut b, 2);
    for index in 0..NUM_FLOORS {
        put_frame(&mut b, index);
        put_u32(&mut b, 0); // walls
        put_u32(&mut b, 0); // obstacles
        if index == 0 {
            put_u32(&mut b, 1); // doors
            put_u32(&mut b, 4); // id
            put_u8(&mut b, 2); // kind Unknown
            put_u8(&mut b, 1); // reveals_as Unlocked
            for v in [1.0f32, 2.0, 3.0, 4.0, 0.25] {
                put_f32(&mut b, v.to_bits());
            }
        } else {
            put_u32(&mut b, 0);
        }
        put_u32(&mut b, 0); // stairs
        put_u32(&mut b, 0); // items
        put_u32(&mut b, 0); // links
    }
    let scene = Scene::from_bytes(&b).expect("v2 should parse");
    let door = scene.floors[0].doors[0];
    assert_eq!(door.kind, DoorKind::Unknown);
    assert_eq!(door.reveals_as, DoorKind::Unlocked);
    assert_eq!(door.rot, bits(0.25));
}

#[test]
fn default_floors_carry_their_frames() {
    let frames = [
        (1600.0f32, 0.0f32, 4750.0f32, 1536.0f32),
        (1600.0, 1500.0, 4750.0, 2240.0),
        (1600.0, 3420.0, 4750.0, 2730.0),
    ];
    let scene = Scene::default();
    assert_eq!(scene.version, VERSION);
    for (index, f) in frames.iter().enumerate() {
        let want = (bits(f.0), bits(f.1), bits(f.2), bits(f.3));
        assert_eq!(floor_frame(index), want);
        assert_eq!(scene.floors[index].frame, want);
        assert_eq!(Floor::new(index), scene.floors[index]);
    }
}

#[test]
fn a_floor_with_any_object_is_not_empty() {
    let mut floor = Floor::new(0);
    assert!(floor.is_empty());
    floor.triggers.push(Trigger { id: 1, rect: rect(0.0, 0.0, 1.0, 1.0) });
    assert!(!floor.is_empty());
    // Links alone do not make a floor non-empty.
    let mut floor = Floor::new(1);
    floor.links.push(Link::Stair { a_floor: 0, a_id: 1, b_floor: 1, b_id: 2 });
    assert!(floor.is_empty());
}

#[test]
fn a_wrong_floor_count_is_rejected() {
    let mut bytes = Scene::default().to_bytes();
    bytes[6] = 2;
    assert!(Scene::from_bytes(&bytes).is_none());
}

#[test]
fn an_unknown_kind_code_is_rejected() {
    let mut scene = Scene::default();
    scene.floors[0].walls.push(WallOp { mode: BoolOp::Sub, rect: rect(1.0, 2.0, 3.0, 4.0) });
    let mut bytes = scene.to_bytes();
    // Header (8) + frame (16) + walls count (4): the wall's mode byte.
    assert_eq!(bytes[28], 1);
    bytes[28] = 9;
    assert!(Scene::from_bytes(&bytes).is_none());
}

#[test]
fn every_truncation_of_a_populated_scene_is_rejected() {
    let bytes = populated().to_bytes();
    for n in 0..bytes.len() {
        assert!(Scene::from_bytes(&bytes[..n]).is_none(), "prefix of {} bytes", n);
    }
    assert!(Scene::from_bytes(&bytes).is_some());
}

#[test]
fn trailing_bytes_are_ignored() {
    let scene = populated();
    let mut bytes = scene.to_bytes();
    bytes.extend_from_slice(&[1, 2, 3]);
    assert_eq!(Scene::from_bytes(&bytes).expect("decode"), scene);
}

#[test]
fn names_with_invalid_utf8_read_lossily() {
    let mut scene = Scene::default();
    scene.floors[0].labels.push(RoomLabel { name: "Ward".into(), pos: (0, 0) });
    let mut bytes = scene.to_bytes();
    let at = bytes.windows(4).position(|w| w == b"Ward").expect("name bytes");
    bytes[at + 1] = 0xff;
    let back = Scene::from_bytes(&bytes).expect("decode");
    assert_eq!(back.floors[0].labels[0].name, "W\u{fffd}rd");
}

#[test]
fn item_kind_codes_round_trip() {
    let kinds = [
        (ItemKind::Key, 0u8),
        (ItemKind::InkRibbon, 1),
        (ItemKind::Typewriter, 2),
        (ItemKind::ItemBox, 3),
        (ItemKind::Player, 4),
    ];
    for (kind, code) in kinds {
        assert_eq!(kind.to_u8(), code);
        assert_eq!(ItemKind::from_u8(code), Some(kind));
    }
    assert_eq!(ItemKind::from_u8(5), None);
    assert!(ItemKind::Key.is_collectible());
    assert!(ItemKind::InkRibbon.is_collectible());
    assert!(!ItemKind::ItemBox.is_collectible());
    assert!(!ItemKind::Typewriter.is_collectible());
    assert!(!ItemKind::Player.is_collectible());
    assert!(!ItemKind::Player.is_baked());
    assert!(ItemKind::Typewriter.is_baked());
}

#[test]
fn region_state_codes_round_trip() {
    for (state, code) in
        [(RegionState::Hidden, 0u8), (RegionState::Revealed, 1), (RegionState::Visited, 2)]
    {
        assert_eq!(state.to_u8(), code);
        assert_eq!(RegionState::from_u8(code), Some(state));
    }
    assert_eq!(RegionState::from_u8(3), None);
}

#[test]
fn a_long_name_is_cut_and_its_file_still_refuses_truncation() {
    let mut scene = Scene::default();
    scene.floors[0].labels.push(RoomLabel { name: "x".repeat(70_000), pos: (0, 0) });
    let bytes = scene.to_bytes();
    let back = Scene::from_bytes(&bytes).expect("decode");
    assert_eq!(back.floors[0].labels[0].name, "x".repeat(65_535));
    for n in [0, 8, bytes.len() / 2, bytes.len() - 5, bytes.len() - 1] {
        assert!(Scene::from_bytes(&bytes[..n]).is_none(), "prefix of {} bytes", n);
    }
}
