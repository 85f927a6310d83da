use ink_ribbon::save::{format_unix_utc, PlayerSave, VERSION};
use ink_ribbon::scene::{ItemDef, ItemKind};

fn bits(v: f32) -> u32 {
    v.to_bits()
}

fn item(id: u32, kind: ItemKind, name: &str) -> ItemDef {
    ItemDef { id, kind, name: name.into(), pos: (bits(0.0), bits(0.0)), rot: bits(0.0) }
}

fn sample() -> PlayerSave {
    PlayerSave {
        player_floor: 2,
        player: (bits(1234.5), bits(678.0)),
        collected: vec![3, 9, 12],
        revealed: vec![(2, 1), (2, 4)],
        unlocked: vec![(2, 4)],
        inventory: vec![
            item(3, ItemKind::Key, "Pantry Key"),
            item(9, ItemKind::InkRibbon, "Ink Ribbon"),
        ],
        item_box: vec![item(5, ItemKind::Key, "Spare Key")],
        play_time: bits(123.5),
        saved_at: 1_726_000_000,
    }
}

#[test]
fn round_trips() {
    let save = sample();
    let back = PlayerSave::from_bytes(&save.to_bytes()).expect("decode");
    assert_eq!(back, save);
}

#[test]
fn v1_save_has_no_item_box() {
    // A v1 payload has no item box: drop that block and stamp v1. The reader
    // must not look for a box and should leave it empty.
    let mut bytes = sample().to_bytes();
    let tail = 4 + 8; // play_time + saved_at
    let box_block = 4 + (4 + 1 + 2 + "Spare Key".len());
    let start = bytes.len() - tail - box_block;
    bytes.drain(start..bytes.len() - tail);
    bytes[4..6].copy_from_slice(&1u16.to_le_bytes());
    let back = PlayerSave::from_bytes(&bytes).expect("decode v1");
    assert!(back.item_box.is_empty());
    assert_eq!(back.inventory.len(), 2);
}

#[test]
fn save_rejects_bad_magic_and_truncation() {
    assert!(PlayerSave::from_bytes(b"nope").is_none());
    let bytes = sample().to_bytes();
    assert!(PlayerSave::from_bytes(&bytes[..bytes.len() - 1]).is_none());
}

#[test]
fn formats_utc_dates() {
    // 2024-09-10 20:26:40 UTC
    assert_eq!(format_unix_utc(1_726_000_000), "2024-09-10 20:26");
    assert_eq!(format_unix_utc(0), "--");
    // Epoch.
    assert_eq!(format_unix_utc(1), "1970-01-01 00:00");
}

#[test]
fn save_header_and_layout() {
    let bytes = sample().to_bytes();
    assert_eq!(&bytes[..4], b"IRSV");
    assert_eq!(u16::from_le_bytes([bytes[4], bytes[5]]), VERSION);
    assert_eq!(bytes[6], 2);
    assert_eq!(&bytes[7..11], &1234.5f32.to_le_bytes());
    assert_eq!(&bytes[11..15], &678.0f32.to_le_bytes());
    // collected: count then three ids.
    assert_eq!(&bytes[15..19], &3u32.to_le_bytes());
    assert_eq!(&bytes[19..23], &3u32.to_le_bytes());
    let n = bytes.len();
    assert_eq!(&bytes[n - 8..], &1_726_000_000u64.to_le_bytes());
    assert_eq!(&bytes[n - 12..n - 8], &123.5f32.to_le_bytes());
}

#[test]
fn every_truncation_of_a_save_is_rejected() {
    let bytes = sample().to_bytes();
    for n in 0..bytes.len() {
        assert!(PlayerSave::from_bytes(&bytes[..n]).is_none(), "prefix of {} bytes", n);
    }
}

#[test]
fn an_unknown_item_kind_is_rejected() {
    let mut save = sample();
    save.collected.clear();
    save.revealed.clear();
    save.unlocked.clear();
    save.item_box.clear();
    save.inventory.truncate(1);
    let mut bytes = save.to_bytes();
    // Header (15), three empty lists (12), inventory count (4), id (4): kind.
    assert_eq!(bytes[35], 0);
    bytes[35] = 7;
    assert!(PlayerSave::from_bytes(&bytes).is_none());
}

#[test]
fn clone_is_equal() {
    let save = sample();
    assert_eq!(save.clone(), save);
}

#[test]
fn formats_leap_days_and_centuries() {
    // 2000-02-29 12:34 UTC: a leap day in a year divisible by 400.
    assert_eq!(format_unix_utc(951_827_640), "2000-02-29 12:34");
    // 2000-03-01 00:00.
    assert_eq!(format_unix_utc(951_868_800), "2000-03-01 00:00");
    // 2100-03-01 00:00: 2100 is not a leap year, so 28 Feb is followed by 1 Mar.
    assert_eq!(format_unix_utc(4_107_542_400), "2100-03-01 00:00");
    assert_eq!(format_unix_utc(4_107_542_400 - 60), "2100-02-28 23:59");
    // 1999-12-31 23:59.
    assert_eq!(format_unix_utc(946_684_799), "1999-12-31 23:59");
    // The last second a u64 holds.
    assert_eq!(format_unix_utc(u64::MAX), "584554051223-11-09 07:00");
}

#[test]
fn a_long_item_name_is_cut_and_its_save_still_refuses_truncation() {
    let mut save = sample();
    save.inventory[0].name = "k".repeat(70_000);
    save.revealed.push((300, 8));
    let bytes = save.to_bytes();
    let back = PlayerSave::from_bytes(&bytes).expect("decode");
    assert_eq!(back.inventory[0].name, "k".repeat(65_535));
    assert_eq!(back.revealed[2], (300 % 256, 8));
    for n in [0, 15, bytes.len() / 2, bytes.len() - 1] {
        assert!(PlayerSave::from_bytes(&bytes[..n]).is_none(), "prefix of {} bytes", n);
    }
}
