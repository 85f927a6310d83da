//! Editable map scene: the vector source of truth for the map.
//!
//! A [`Scene`] is a fixed set of floors, each authored from vector objects.
//! Coordinates, sizes and rotations are single-precision floats; the scene
//! carries each one as its IEEE-754 bit pattern (`f32::to_bits`), which is
//! exactly what `scene.bin` stores, so a value survives a save and a load bit
//! for bit.
//!
//! `scene.bin` layout (all little-endian):
//!
//! ```text
//! magic  "IRSC"
//! u16    version
//! u8     floor_count
//! u8     reserved
//! floor*:
//!   f32  frame x, y, w, h
//!   u32  wall_count      -> { u8 mode, f32 x, y, w, h }
//!   u32  partition_count -> { u8 mode, f32 x, y, w, h }                  (v3)
//!   u32  obstacle_count  -> { u32 id, f32 cx, cy, sx, sy, rot }
//!   u32  door_count      -> { u32 id, u8 kind, [u8 reveals_as], f32 cx, cy, sx, sy, rot }
//!   u32  stair_count     -> { u32 id, f32 x, y }
//!   u32  item_count      -> { u32 id, u8 kind, f32 x, y, [f32 rot], u16 name_len, name }
//!   u32  label_count     -> { f32 x, y, u16 name_len, name }             (v4)
//!   u32  region_count    -> { u32 id, u16 name_len, name, f32 x, y, w, h, u8 initial } (v5)
//!   u32  trigger_count   -> { u32 id, f32 x, y, w, h }                   (v5)
//!   u32  link_count      -> { u8 kind, u8 a_floor, u32 a_id, u8 b_floor, u32 b_id }
//! ```

use vstd::prelude::*;
use crate::wire::{
    decodes, from_le16, from_le32, avail, le16, le32, lemma_le16, lemma_le32, lemma_parse_counted_ser, lemma_parse_pair,
    lemma_parse_u32, lemma_peel_pair, lemma_peel_u32, lemma_peel_u8, lemma_parse_any_name, lemma_peel_any_name, lemma_stored_name_fits, stored_name, decodes_as, lemma_parse_counted_ser_as,
    lemma_parse_rep_step_fails, lemma_ser_seq_take, lemma_subrange_concat, name_fits, put_count, parse_counted, parse_name, parse_pair, parse_rep, parse_u16,
    parse_u32, parse_u8, put_f32, put_name, put_pair, put_u16, put_u32, put_u8, ser_counted, ser_name,
    ser_pair, ser_seq, Cursor, prefix_stable, reads_within, lemma_parse_counted_stable, lemma_parse_name_stable,
};

verus! {

/// Floor index order used everywhere: 0 = Floor 3, 1 = Floor 2, 2 = Floor 1.
pub const NUM_FLOORS: usize = 3;

pub const FLOOR1_INDEX: usize = 2;

/// v1 stored doors without `reveals_as`; v2 adds it; v3 adds interior-wall
/// partitions; v4 adds room name labels; v5 adds fog-of-war regions, reveal
/// triggers and their links; v6 adds item rotation (the Player spawn facing).
/// Reading still accepts v1-v5.
pub const VERSION: u16 = 6;

/// Source-composite pixel frame `(x, y, width, height)` of a floor, as `f32`
/// bit patterns.
pub type Frame = (u32, u32, u32, u32);

/// The frame of each floor: x 1600, width 4750, and (y, height) (0, 1536) for
/// Floor 3, (1500, 2240) for Floor 2 and (3420, 2730) for Floor 1.
pub open spec fn floor_frame_bits(index: int) -> Frame {
    if index == 0 {
        (0x44c80000, 0x0, 0x45947000, 0x44c00000)
    } else if index == 1 {
        (0x44c80000, 0x44bb8000, 0x45947000, 0x450c0000)
    } else {
        (0x44c80000, 0x4555c000, 0x45947000, 0x452aa000)
    }
}

/// The frame of floor `index`.
pub fn floor_frame(index: usize) -> (r: Frame)
    requires
        index < NUM_FLOORS,
    ensures
        r == floor_frame_bits(index as int),
{
    if index == 0 {
        (0x44c80000, 0x0, 0x45947000, 0x44c00000)
    } else if index == 1 {
        (0x44c80000, 0x44bb8000, 0x45947000, 0x450c0000)
    } else {
        (0x44c80000, 0x4555c000, 0x45947000, 0x452aa000)
    }
}

// ---------------------------------------------------------------------------
// Kinds and their one-byte codes.
// ---------------------------------------------------------------------------

#[derive(Clone, Copy, PartialEq, Eq, Debug, Structural)]
pub enum BoolOp {
    Add,
    Sub,
}

#[derive(Clone, Copy, PartialEq, Eq, Debug, Structural)]
pub enum DoorKind {
    Locked,
    Unlocked,
    Unknown,
}

#[derive(Clone, Copy, PartialEq, Eq, Debug, Structural)]
pub enum ItemKind {
    Key,
    InkRibbon,
    /// A fixed interactable (save point), not collected on touch.
    Typewriter,
    /// A fixed interactable that opens the item box, not collected on touch.
    ItemBox,
    /// The player's initial spawn marker; not a real item.
    Player,
}

/// Visibility of a fog-of-war region. `Visited` is runtime-only; an authored
/// region starts `Hidden` or `Revealed`.
#[derive(Clone, Copy, PartialEq, Eq, Debug, Structural)]
pub enum RegionState {
    Hidden,
    Revealed,
    Visited,
}

pub open spec fn bool_op_code(m: BoolOp) -> u8 {
    match m {
        BoolOp::Add => 0,
        BoolOp::Sub => 1,
    }
}

pub open spec fn bool_op_of(v: u8) -> Option<BoolOp> {
    if v == 0 {
        Some(BoolOp::Add)
    } else if v == 1 {
        Some(BoolOp::Sub)
    } else {
        None
    }
}

pub open spec fn door_kind_code(k: DoorKind) -> u8 {
    match k {
        DoorKind::Locked => 0,
        DoorKind::Unlocked => 1,
        DoorKind::Unknown => 2,
    }
}

pub open spec fn door_kind_of(v: u8) -> Option<DoorKind> {
    if v == 0 {
        Some(DoorKind::Locked)
    } else if v == 1 {
        Some(DoorKind::Unlocked)
    } else if v == 2 {
        Some(DoorKind::Unknown)
    } else {
        None
    }
}

/// The wire code of an item kind.
pub open spec fn item_kind_code(k: ItemKind) -> u8 {
    match k {
        ItemKind::Key => 0,
        ItemKind::InkRibbon => 1,
        ItemKind::Typewriter => 2,
        ItemKind::ItemBox => 3,
        ItemKind::Player => 4,
    }
}

/// The item kind with a given wire code, if any.
pub open spec fn item_kind_of(v: u8) -> Option<ItemKind> {
    if v == 0 {
        Some(ItemKind::Key)
    } else if v == 1 {
        Some(ItemKind::InkRibbon)
    } else if v == 2 {
        Some(ItemKind::Typewriter)
    } else if v == 3 {
        Some(ItemKind::ItemBox)
    } else if v == 4 {
        Some(ItemKind::Player)
    } else {
        None
    }
}

pub open spec fn region_state_code(s: RegionState) -> u8 {
    match s {
        RegionState::Hidden => 0,
        RegionState::Revealed => 1,
        RegionState::Visited => 2,
    }
}

pub open spec fn region_state_of(v: u8) -> Option<RegionState> {
    if v == 0 {
        Some(RegionState::Hidden)
    } else if v == 1 {
        Some(RegionState::Revealed)
    } else if v == 2 {
        Some(RegionState::Visited)
    } else {
        None
    }
}

impl ItemKind {
    pub fn to_u8(self) -> (r: u8)
        ensures
            r == item_kind_code(self),
    {
        match self {
            ItemKind::Key => 0,
            ItemKind::InkRibbon => 1,
            ItemKind::Typewriter => 2,
            ItemKind::ItemBox => 3,
            ItemKind::Player => 4,
        }
    }

    pub fn from_u8(v: u8) -> (r: Option<ItemKind>)
        ensures
            r == item_kind_of(v),
    {
        match v {
            0 => Some(ItemKind::Key),
            1 => Some(ItemKind::InkRibbon),
            2 => Some(ItemKind::Typewriter),
            3 => Some(ItemKind::ItemBox),
            4 => Some(ItemKind::Player),
            _ => None,
        }
    }

    /// Whether touching this item picks it up.
    pub fn is_collectible(self) -> (r: bool)
        ensures
            r == (self == ItemKind::Key || self == ItemKind::InkRibbon),
    {
        matches!(self, ItemKind::Key | ItemKind::InkRibbon)
    }

    /// Whether this is a real item (as opposed to an editor-only marker).
    pub fn is_baked(self) -> (r: bool)
        ensures
            r == (self != ItemKind::Player),
    {
        !matches!(self, ItemKind::Player)
    }
}

impl RegionState {
    pub fn to_u8(self) -> (r: u8)
        ensures
            r == region_state_code(self),
    {
        match self {
            RegionState::Hidden => 0,
            RegionState::Revealed => 1,
            RegionState::Visited => 2,
        }
    }

    pub fn from_u8(v: u8) -> (r: Option<RegionState>)
        ensures
            r == region_state_of(v),
    {
        match v {
            0 => Some(RegionState::Hidden),
            1 => Some(RegionState::Revealed),
            2 => Some(RegionState::Visited),
            _ => None,
        }
    }
}

/// Decoding an item kind's code gives the kind back, and only codes of kinds
/// decode.
pub proof fn lemma_item_kind_code_round_trip(k: ItemKind, v: u8)
    ensures
        item_kind_of(item_kind_code(k)) == Some(k),
        item_kind_of(v) matches Some(j) ==> item_kind_code(j) == v,
{
}

/// Decoding a region state's code gives the state back, and only codes of
/// states decode.
pub proof fn lemma_region_state_code_round_trip(s: RegionState, v: u8)
    ensures
        region_state_of(region_state_code(s)) == Some(s),
        region_state_of(v) matches Some(t) ==> region_state_code(t) == v,
{
}

// ---------------------------------------------------------------------------
// Authored objects.
// ---------------------------------------------------------------------------

/// An axis-aligned rectangle; each field is an `f32` bit pattern.
#[derive(Clone, Copy, PartialEq, Eq, Debug, Structural)]
pub struct Rect {
    pub x: u32,
    pub y: u32,
    pub w: u32,
    pub h: u32,
}

#[derive(Clone, Copy, PartialEq, Eq, Debug, Structural)]
pub struct WallOp {
    pub mode: BoolOp,
    pub rect: Rect,
}

/// A transformable box: centre, size and rotation (radians), as `f32` bit
/// patterns.
#[derive(Clone, Copy, PartialEq, Eq, Debug)]
pub struct Box2 {
    pub id: u32,
    pub center: (u32, u32),
    pub size: (u32, u32),
    pub rot: u32,
}

#[derive(Clone, Copy, PartialEq, Eq, Debug)]
pub struct Door {
    pub id: u32,
    pub kind: DoorKind,
    /// What an `Unknown` door becomes when the player gets close. Ignored for
    /// doors that are already Locked/Unlocked.
    pub reveals_as: DoorKind,
    pub center: (u32, u32),
    pub size: (u32, u32),
    pub rot: u32,
}

#[derive(Clone, Copy, PartialEq, Eq, Debug)]
pub struct StairNode {
    pub id: u32,
    pub pos: (u32, u32),
}

#[derive(PartialEq, Eq, Debug)]
pub struct ItemDef {
    pub id: u32,
    pub kind: ItemKind,
    pub name: String,
    pub pos: (u32, u32),
    /// Facing (radians, as an `f32` bit pattern) for items that show a
    /// direction; only the Player spawn marker uses it today. 0 = up.
    pub rot: u32,
}

/// A room name label (v4): centred text at a source position.
#[derive(PartialEq, Eq, Debug)]
pub struct RoomLabel {
    pub name: String,
    pub pos: (u32, u32),
}

/// A fog-of-war region (v5): a rectangle that owns the geometry whose centre it
/// contains (smallest region wins).
#[derive(PartialEq, Eq, Debug)]
pub struct Region {
    pub id: u32,
    pub name: String,
    pub rect: Rect,
    pub initial: RegionState,
}

/// A reveal trigger (v5): stepping inside the rectangle fires it (once), which
/// reveals any region it is linked to.
#[derive(Clone, Copy, PartialEq, Eq, Debug, Structural)]
pub struct Trigger {
    pub id: u32,
    pub rect: Rect,
}

#[derive(Clone, Copy, PartialEq, Eq, Debug, Structural)]
pub enum Link {
    /// Two stair endpoints on (possibly) different floors.
    Stair { a_floor: u8, a_id: u32, b_floor: u8, b_id: u32 },
    /// A key item that opens one or more doors (metadata only for now).
    KeyDoor { item_floor: u8, item_id: u32, door_floor: u8, door_id: u32 },
    /// Revealing/unlocking a door reveals a region.
    DoorRegion { door_floor: u8, door_id: u32, region_floor: u8, region_id: u32 },
    /// Touching a trigger reveals a region.
    TriggerRegion { trigger_floor: u8, trigger_id: u32, region_floor: u8, region_id: u32 },
    /// Picking up an item reveals a region.
    ItemRegion { item_floor: u8, item_id: u32, region_floor: u8, region_id: u32 },
}

/// The fields of a link as stored: kind code, first floor and id, second floor
/// and id.
pub open spec fn link_fields(l: Link) -> (u8, u8, u32, u8, u32) {
    match l {
        Link::Stair { a_floor, a_id, b_floor, b_id } => (0, a_floor, a_id, b_floor, b_id),
        Link::KeyDoor { item_floor, item_id, door_floor, door_id } => (
            1,
            item_floor,
            item_id,
            door_floor,
            door_id,
        ),
        Link::DoorRegion { door_floor, door_id, region_floor, region_id } => (
            2,
            door_floor,
            door_id,
            region_floor,
            region_id,
        ),
        Link::TriggerRegion { trigger_floor, trigger_id, region_floor, region_id } => (
            3,
            trigger_floor,
            trigger_id,
            region_floor,
            region_id,
        ),
        Link::ItemRegion { item_floor, item_id, region_floor, region_id } => (
            4,
            item_floor,
            item_id,
            region_floor,
            region_id,
        ),
    }
}

/// The link a stored kind code and its fields describe, if the code is known.
pub open spec fn link_of(kind: u8, af: u8, aid: u32, bf: u8, bid: u32) -> Option<Link> {
    if kind == 0 {
        Some(Link::Stair { a_floor: af, a_id: aid, b_floor: bf, b_id: bid })
    } else if kind == 1 {
        Some(Link::KeyDoor { item_floor: af, item_id: aid, door_floor: bf, door_id: bid })
    } else if kind == 2 {
        Some(Link::DoorRegion { door_floor: af, door_id: aid, region_floor: bf, region_id: bid })
    } else if kind == 3 {
        Some(
            Link::TriggerRegion {
                trigger_floor: af,
                trigger_id: aid,
                region_floor: bf,
                region_id: bid,
            },
        )
    } else if kind == 4 {
        Some(Link::ItemRegion { item_floor: af, item_id: aid, region_floor: bf, region_id: bid })
    } else {
        None
    }
}

// ---------------------------------------------------------------------------
// Mathematical views of the objects that hold text.
// ---------------------------------------------------------------------------

#[verifier::ext_equal]
pub struct ItemDefView {
    pub id: u32,
    pub kind: ItemKind,
    pub name: Seq<char>,
    pub pos: (u32, u32),
    pub rot: u32,
}

#[verifier::ext_equal]
pub struct RoomLabelView {
    pub name: Seq<char>,
    pub pos: (u32, u32),
}

#[verifier::ext_equal]
pub struct RegionView {
    pub id: u32,
    pub name: Seq<char>,
    pub rect: Rect,
    pub initial: RegionState,
}

impl View for ItemDef {
    type V = ItemDefView;

    open spec fn view(&self) -> ItemDefView {
        ItemDefView {
            id: self.id,
            kind: self.kind,
            name: self.name@,
            pos: self.pos,
            rot: self.rot,
        }
    }
}

impl View for RoomLabel {
    type V = RoomLabelView;

    open spec fn view(&self) -> RoomLabelView {
        RoomLabelView { name: self.name@, pos: self.pos }
    }
}

impl View for Region {
    type V = RegionView;

    open spec fn view(&self) -> RegionView {
        RegionView { id: self.id, name: self.name@, rect: self.rect, initial: self.initial }
    }
}

impl Clone for ItemDef {
    fn clone(&self) -> (r: ItemDef)
        ensures
            r@ == self@,
    {
        ItemDef { id: self.id, kind: self.kind, name: self.name.clone(), pos: self.pos, rot: self.rot }
    }
}

impl Clone for RoomLabel {
    fn clone(&self) -> (r: RoomLabel)
        ensures
            r@ == self@,
    {
        RoomLabel { name: self.name.clone(), pos: self.pos }
    }
}

impl Clone for Region {
    fn clone(&self) -> (r: Region)
        ensures
            r@ == self@,
    {
        Region { id: self.id, name: self.name.clone(), rect: self.rect, initial: self.initial }
    }
}

// ---------------------------------------------------------------------------
// Record encodings.
// ---------------------------------------------------------------------------

pub open spec fn ser_rect(r: Rect) -> Seq<u8> {
    le32(r.x) + (le32(r.y) + (le32(r.w) + le32(r.h)))
}

pub open spec fn parse_rect(b: Seq<u8>, p: int) -> Option<(Rect, int)> {
    if avail(b, p, 16) {
        Some(
            (
                Rect {
                    x: from_le32(b, p),
                    y: from_le32(b, p + 4),
                    w: from_le32(b, p + 8),
                    h: from_le32(b, p + 12),
                },
                p + 16,
            ),
        )
    } else {
        None
    }
}

pub open spec fn ser_wall_op(w: WallOp) -> Seq<u8> {
    seq![bool_op_code(w.mode)] + ser_rect(w.rect)
}

pub open spec fn parse_wall_op(b: Seq<u8>, p: int) -> Option<(WallOp, int)> {
    match parse_u8(b, p) {
        Some((m, q)) => match bool_op_of(m) {
            Some(mode) => match parse_rect(b, q) {
                Some((rect, r)) => Some((WallOp { mode, rect }, r)),
                None => None,
            },
            None => None,
        },
        None => None,
    }
}

pub open spec fn ser_box(o: Box2) -> Seq<u8> {
    le32(o.id) + (ser_pair(o.center) + (ser_pair(o.size) + le32(o.rot)))
}

pub open spec fn parse_box(b: Seq<u8>, p: int) -> Option<(Box2, int)> {
    if avail(b, p, 24) {
        Some(
            (
                Box2 {
                    id: from_le32(b, p),
                    center: (from_le32(b, p + 4), from_le32(b, p + 8)),
                    size: (from_le32(b, p + 12), from_le32(b, p + 16)),
                    rot: from_le32(b, p + 20),
                },
                p + 24,
            ),
        )
    } else {
        None
    }
}

pub open spec fn ser_door(d: Door) -> Seq<u8> {
    le32(d.id) + (seq![door_kind_code(d.kind)] + (seq![door_kind_code(d.reveals_as)] + (
    ser_pair(d.center) + (ser_pair(d.size) + le32(d.rot)))))
}

/// A door record of format `version`: before v2 there is no `reveals_as` byte
/// and the door reveals as `Locked`.
pub open spec fn parse_door(b: Seq<u8>, p: int, version: u16) -> Option<(Door, int)> {
    match parse_u32(b, p) {
        Some((id, q1)) => match parse_u8(b, q1) {
            Some((k, q2)) => match door_kind_of(k) {
                Some(kind) => {
                    let rev: Option<(DoorKind, int)> = if version >= 2 {
                        match parse_u8(b, q2) {
                            Some((rk, q3)) => match door_kind_of(rk) {
                                Some(r) => Some((r, q3)),
                                None => None,
                            },
                            None => None,
                        }
                    } else {
                        Some((DoorKind::Locked, q2))
                    };
                    match rev {
                        Some((reveals_as, q3)) => match parse_pair(b, q3) {
                            Some((center, q4)) => match parse_pair(b, q4) {
                                Some((size, q5)) => match parse_u32(b, q5) {
                                    Some((rot, q6)) => Some(
                                        (Door { id, kind, reveals_as, center, size, rot }, q6),
                                    ),
                                    None => None,
                                },
                                None => None,
                            },
                            None => None,
                        },
                        None => None,
                    }
                },
                None => None,
            },
            None => None,
        },
        None => None,
    }
}

pub open spec fn ser_stair(s: StairNode) -> Seq<u8> {
    le32(s.id) + ser_pair(s.pos)
}

pub open spec fn parse_stair(b: Seq<u8>, p: int) -> Option<(StairNode, int)> {
    if avail(b, p, 12) {
        Some((StairNode { id: from_le32(b, p), pos: (from_le32(b, p + 4), from_le32(b, p + 8)) }, p + 12))
    } else {
        None
    }
}

pub open spec fn ser_trigger(t: Trigger) -> Seq<u8> {
    le32(t.id) + ser_rect(t.rect)
}

pub open spec fn parse_trigger(b: Seq<u8>, p: int) -> Option<(Trigger, int)> {
    match parse_u32(b, p) {
        Some((id, q)) => match parse_rect(b, q) {
            Some((rect, r)) => Some((Trigger { id, rect }, r)),
            None => None,
        },
        None => None,
    }
}

pub open spec fn ser_link(l: Link) -> Seq<u8> {
    let (k, af, aid, bf, bid) = link_fields(l);
    seq![k] + (seq![af] + (le32(aid) + (seq![bf] + le32(bid))))
}

pub open spec fn parse_link(b: Seq<u8>, p: int) -> Option<(Link, int)> {
    if avail(b, p, 11) {
        match link_of(b[p], b[p + 1], from_le32(b, p + 2), b[p + 6], from_le32(b, p + 7)) {
            Some(l) => Some((l, p + 11)),
            None => None,
        }
    } else {
        None
    }
}

pub open spec fn ser_item(it: ItemDefView) -> Seq<u8> {
    le32(it.id) + (seq![item_kind_code(it.kind)] + (ser_pair(it.pos) + (le32(it.rot) + ser_name(
        it.name,
    ))))
}

/// An item record of format `version`: before v6 there is no rotation and it
/// reads as 0.
pub open spec fn parse_item(b: Seq<u8>, p: int, version: u16) -> Option<(ItemDefView, int)> {
    match parse_u32(b, p) {
        Some((id, q1)) => match parse_u8(b, q1) {
            Some((k, q2)) => match item_kind_of(k) {
                Some(kind) => match parse_pair(b, q2) {
                    Some((pos, q3)) => {
                        let rot: Option<(u32, int)> = if version >= 6 {
                            parse_u32(b, q3)
                        } else {
                            Some((0u32, q3))
                        };
                        match rot {
                            Some((rot, q4)) => match parse_name(b, q4) {
                                Some((name, q5)) => Some(
                                    (ItemDefView { id, kind, name, pos, rot }, q5),
                                ),
                                None => None,
                            },
                            None => None,
                        }
                    },
                    None => None,
                },
                None => None,
            },
            None => None,
        },
        None => None,
    }
}

pub open spec fn ser_label(l: RoomLabelView) -> Seq<u8> {
    ser_pair(l.pos) + ser_name(l.name)
}

pub open spec fn parse_label(b: Seq<u8>, p: int) -> Option<(RoomLabelView, int)> {
    match parse_pair(b, p) {
        Some((pos, q)) => match parse_name(b, q) {
            Some((name, r)) => Some((RoomLabelView { name, pos }, r)),
            None => None,
        },
        None => None,
    }
}

pub open spec fn ser_region(r: RegionView) -> Seq<u8> {
    le32(r.id) + (ser_name(r.name) + (ser_rect(r.rect) + seq![region_state_code(r.initial)]))
}

pub open spec fn parse_region(b: Seq<u8>, p: int) -> Option<(RegionView, int)> {
    match parse_u32(b, p) {
        Some((id, q1)) => match parse_name(b, q1) {
            Some((name, q2)) => match parse_rect(b, q2) {
                Some((rect, q3)) => match parse_u8(b, q3) {
                    Some((s, q4)) => match region_state_of(s) {
                        Some(initial) => Some((RegionView { id, name, rect, initial }, q4)),
                        None => None,
                    },
                    None => None,
                },
                None => None,
            },
            None => None,
        },
        None => None,
    }
}

// ---------------------------------------------------------------------------
// Each record reads back where it was written.
// ---------------------------------------------------------------------------

pub proof fn lemma_parse_rect(b: Seq<u8>, p: int, r: Rect)
    requires
        0 <= p,
        p + 16 <= b.len(),
        b.subrange(p, p + 16) == ser_rect(r),
    ensures
        parse_rect(b, p) == Some((r, p + 16)),
{
    lemma_peel_u32(b, p, r.x, le32(r.y) + (le32(r.w) + le32(r.h)));
    lemma_peel_u32(b, p + 4, r.y, le32(r.w) + le32(r.h));
    lemma_peel_u32(b, p + 8, r.w, le32(r.h));
    lemma_parse_u32(b, p + 12, r.h);
}

pub proof fn lemma_parse_wall_op(b: Seq<u8>, p: int, w: WallOp)
    requires
        0 <= p,
        p + 17 <= b.len(),
        b.subrange(p, p + 17) == ser_wall_op(w),
    ensures
        parse_wall_op(b, p) == Some((w, p + 17)),
{
    lemma_peel_u8(b, p, bool_op_code(w.mode), ser_rect(w.rect));
    lemma_parse_rect(b, p + 1, w.rect);
}

pub proof fn lemma_parse_box(b: Seq<u8>, p: int, o: Box2)
    requires
        0 <= p,
        p + 24 <= b.len(),
        b.subrange(p, p + 24) == ser_box(o),
    ensures
        parse_box(b, p) == Some((o, p + 24)),
{
    lemma_peel_u32(b, p, o.id, ser_pair(o.center) + (ser_pair(o.size) + le32(o.rot)));
    lemma_peel_pair(b, p + 4, o.center, ser_pair(o.size) + le32(o.rot));
    lemma_peel_pair(b, p + 12, o.size, le32(o.rot));
    lemma_parse_u32(b, p + 20, o.rot);
}

pub proof fn lemma_parse_door(b: Seq<u8>, p: int, d: Door)
    requires
        0 <= p,
        p + 26 <= b.len(),
        b.subrange(p, p + 26) == ser_door(d),
    ensures
        parse_door(b, p, VERSION) == Some((d, p + 26)),
{
    let tail = ser_pair(d.center) + (ser_pair(d.size) + le32(d.rot));
    lemma_peel_u32(b, p, d.id, seq![door_kind_code(d.kind)] + (seq![door_kind_code(d.reveals_as)] + tail));
    lemma_peel_u8(b, p + 4, door_kind_code(d.kind), seq![door_kind_code(d.reveals_as)] + tail);
    lemma_peel_u8(b, p + 5, door_kind_code(d.reveals_as), tail);
    lemma_peel_pair(b, p + 6, d.center, ser_pair(d.size) + le32(d.rot));
    lemma_peel_pair(b, p + 14, d.size, le32(d.rot));
    lemma_parse_u32(b, p + 22, d.rot);
}

pub proof fn lemma_parse_stair(b: Seq<u8>, p: int, st: StairNode)
    requires
        0 <= p,
        p + 12 <= b.len(),
        b.subrange(p, p + 12) == ser_stair(st),
    ensures
        parse_stair(b, p) == Some((st, p + 12)),
{
    lemma_peel_u32(b, p, st.id, ser_pair(st.pos));
    lemma_le32(st.pos.0);
    lemma_le32(st.pos.1);
    lemma_parse_pair(b, p + 4, st.pos);
}

pub proof fn lemma_parse_trigger(b: Seq<u8>, p: int, t: Trigger)
    requires
        0 <= p,
        p + 20 <= b.len(),
        b.subrange(p, p + 20) == ser_trigger(t),
    ensures
        parse_trigger(b, p) == Some((t, p + 20)),
{
    lemma_peel_u32(b, p, t.id, ser_rect(t.rect));
    lemma_parse_rect(b, p + 4, t.rect);
}

pub proof fn lemma_parse_link(b: Seq<u8>, p: int, l: Link)
    requires
        0 <= p,
        p + 11 <= b.len(),
        b.subrange(p, p + 11) == ser_link(l),
    ensures
        parse_link(b, p) == Some((l, p + 11)),
{
    let (k, af, aid, bf, bid) = link_fields(l);
    lemma_peel_u8(b, p, k, seq![af] + (le32(aid) + (seq![bf] + le32(bid))));
    lemma_peel_u8(b, p + 1, af, le32(aid) + (seq![bf] + le32(bid)));
    lemma_peel_u32(b, p + 2, aid, seq![bf] + le32(bid));
    lemma_peel_u8(b, p + 6, bf, le32(bid));
    lemma_le32(bid);
    lemma_parse_u32(b, p + 7, bid);
}

/// An item as it reads back: its name cut to the bytes its field keeps.
pub open spec fn stored_item(it: ItemDefView) -> ItemDefView {
    ItemDefView { id: it.id, kind: it.kind, name: stored_name(it.name), pos: it.pos, rot: it.rot }
}

/// A label as it reads back: its name cut to the bytes its field keeps.
pub open spec fn stored_label(l: RoomLabelView) -> RoomLabelView {
    RoomLabelView { name: stored_name(l.name), pos: l.pos }
}

/// A region as it reads back: its name cut to the bytes its field keeps.
pub open spec fn stored_region(r: RegionView) -> RegionView {
    RegionView { id: r.id, name: stored_name(r.name), rect: r.rect, initial: r.initial }
}

pub proof fn lemma_parse_item(b: Seq<u8>, p: int, it: ItemDefView)
    requires
        0 <= p,
        p + ser_item(it).len() <= b.len(),
        b.subrange(p, p + ser_item(it).len()) == ser_item(it),
    ensures
        parse_item(b, p, VERSION) == Some((stored_item(it), p + ser_item(it).len())),
{
    let n = ser_name(it.name);
    lemma_peel_u32(b, p, it.id, seq![item_kind_code(it.kind)] + (ser_pair(it.pos) + (le32(it.rot) + n)));
    lemma_peel_u8(b, p + 4, item_kind_code(it.kind), ser_pair(it.pos) + (le32(it.rot) + n));
    lemma_peel_pair(b, p + 5, it.pos, le32(it.rot) + n);
    lemma_peel_u32(b, p + 13, it.rot, n);
    lemma_parse_any_name(b, p + 17, it.name);
}

pub proof fn lemma_parse_label(b: Seq<u8>, p: int, l: RoomLabelView)
    requires
        0 <= p,
        p + ser_label(l).len() <= b.len(),
        b.subrange(p, p + ser_label(l).len()) == ser_label(l),
    ensures
        parse_label(b, p) == Some((stored_label(l), p + ser_label(l).len())),
{
    lemma_peel_pair(b, p, l.pos, ser_name(l.name));
    lemma_parse_any_name(b, p + 8, l.name);
}

pub proof fn lemma_parse_region(b: Seq<u8>, p: int, r: RegionView)
    requires
        0 <= p,
        p + ser_region(r).len() <= b.len(),
        b.subrange(p, p + ser_region(r).len()) == ser_region(r),
    ensures
        parse_region(b, p) == Some((stored_region(r), p + ser_region(r).len())),
{
    let n = ser_name(r.name);
    let tail = ser_rect(r.rect) + seq![region_state_code(r.initial)];
    lemma_peel_u32(b, p, r.id, n + tail);
    lemma_peel_any_name(b, p + 4, r.name, tail);
    let q = p + 4 + n.len();
    lemma_subrange_concat(b, q, ser_rect(r.rect), seq![region_state_code(r.initial)]);
    lemma_parse_rect(b, q, r.rect);
    assert(b.subrange(q + 16, q + 17)[0] == b[q + 16]);
}

// ---------------------------------------------------------------------------
// Record writers and readers.
// ---------------------------------------------------------------------------

fn write_rect(out: &mut Vec<u8>, r: Rect)
    ensures
        final(out)@ == old(out)@ + ser_rect(r),
{
    put_f32(out, r.x);
    put_f32(out, r.y);
    put_f32(out, r.w);
    put_f32(out, r.h);
    assert(final(out)@ =~= old(out)@ + ser_rect(r));
}

fn read_rect(c: &mut Cursor) -> (r: Option<Rect>)
    ensures
        final(c).bytes == old(c).bytes,
        match parse_rect(old(c).bytes@, old(c).pos as int) {
            Some((v, q)) => r == Some(v) && final(c).pos == q,
            None => r is None,
        },
{
    if c.bytes.len() < 16 || c.pos > c.bytes.len() - 16 {
        return None;
    }
    let x = c.float_bits().unwrap();
    let y = c.float_bits().unwrap();
    let w = c.float_bits().unwrap();
    let h = c.float_bits().unwrap();
    Some(Rect { x, y, w, h })
}

fn write_wall_op(out: &mut Vec<u8>, w: WallOp)
    ensures
        final(out)@ == old(out)@ + ser_wall_op(w),
{
    put_u8(
        out,
        match w.mode {
            BoolOp::Add => 0,
            BoolOp::Sub => 1,
        },
    );
    write_rect(out, w.rect);
    assert(final(out)@ =~= old(out)@ + ser_wall_op(w));
}

fn read_wall_op(c: &mut Cursor) -> (r: Option<WallOp>)
    ensures
        final(c).bytes == old(c).bytes,
        match parse_wall_op(old(c).bytes@, old(c).pos as int) {
            Some((v, q)) => r == Some(v) && final(c).pos == q,
            None => r is None,
        },
{
    let mode = match c.u8() {
        Some(0) => BoolOp::Add,
        Some(1) => BoolOp::Sub,
        _ => return None,
    };
    let rect = match read_rect(c) {
        Some(r) => r,
        None => return None,
    };
    Some(WallOp { mode, rect })
}

fn write_box(out: &mut Vec<u8>, o: &Box2)
    ensures
        final(out)@ == old(out)@ + ser_box(*o),
{
    put_u32(out, o.id);
    put_pair(out, o.center);
    put_pair(out, o.size);
    put_f32(out, o.rot);
    assert(final(out)@ =~= old(out)@ + ser_box(*o));
}

fn read_box(c: &mut Cursor) -> (r: Option<Box2>)
    ensures
        final(c).bytes == old(c).bytes,
        match parse_box(old(c).bytes@, old(c).pos as int) {
            Some((v, q)) => r == Some(v) && final(c).pos == q,
            None => r is None,
        },
{
    if c.bytes.len() < 24 || c.pos > c.bytes.len() - 24 {
        return None;
    }
    let id = c.u32().unwrap();
    let center = c.pair().unwrap();
    let size = c.pair().unwrap();
    let rot = c.float_bits().unwrap();
    Some(Box2 { id, center, size, rot })
}

fn door_kind_to_u8(k: DoorKind) -> (r: u8)
    ensures
        r == door_kind_code(k),
{
    match k {
        DoorKind::Locked => 0,
        DoorKind::Unlocked => 1,
        DoorKind::Unknown => 2,
    }
}

fn door_kind_from_u8(v: u8) -> (r: Option<DoorKind>)
    ensures
        r == door_kind_of(v),
{
    match v {
        0 => Some(DoorKind::Locked),
        1 => Some(DoorKind::Unlocked),
        2 => Some(DoorKind::Unknown),
        _ => None,
    }
}

fn write_door(out: &mut Vec<u8>, d: &Door)
    ensures
        final(out)@ == old(out)@ + ser_door(*d),
{
    put_u32(out, d.id);
    put_u8(out, door_kind_to_u8(d.kind));
    put_u8(out, door_kind_to_u8(d.reveals_as));
    put_pair(out, d.center);
    put_pair(out, d.size);
    put_f32(out, d.rot);
    assert(final(out)@ =~= old(out)@ + ser_door(*d));
}

fn read_door(c: &mut Cursor, version: u16) -> (r: Option<Door>)
    ensures
        final(c).bytes == old(c).bytes,
        match parse_door(old(c).bytes@, old(c).pos as int, version) {
            Some((v, q)) => r == Some(v) && final(c).pos == q,
            None => r is None,
        },
{
    let id = match c.u32() {
        Some(v) => v,
        None => return None,
    };
    let kind = match c.u8() {
        Some(k) => match door_kind_from_u8(k) {
            Some(k) => k,
            None => return None,
        },
        None => return None,
    };
    // v1 had no reveals_as; it reads as Locked.
    let reveals_as = if version >= 2 {
        match c.u8() {
            Some(k) => match door_kind_from_u8(k) {
                Some(k) => k,
                None => return None,
            },
            None => return None,
        }
    } else {
        DoorKind::Locked
    };
    let center = match c.pair() {
        Some(v) => v,
        None => return None,
    };
    let size = match c.pair() {
        Some(v) => v,
        None => return None,
    };
    let rot = match c.float_bits() {
        Some(v) => v,
        None => return None,
    };
    Some(Door { id, kind, reveals_as, center, size, rot })
}

fn write_stair(out: &mut Vec<u8>, st: &StairNode)
    ensures
        final(out)@ == old(out)@ + ser_stair(*st),
{
    put_u32(out, st.id);
    put_pair(out, st.pos);
    assert(final(out)@ =~= old(out)@ + ser_stair(*st));
}

fn read_stair(c: &mut Cursor) -> (r: Option<StairNode>)
    ensures
        final(c).bytes == old(c).bytes,
        match parse_stair(old(c).bytes@, old(c).pos as int) {
            Some((v, q)) => r == Some(v) && final(c).pos == q,
            None => r is None,
        },
{
    if c.bytes.len() < 12 || c.pos > c.bytes.len() - 12 {
        return None;
    }
    let id = c.u32().unwrap();
    let pos = c.pair().unwrap();
    Some(StairNode { id, pos })
}

fn write_trigger(out: &mut Vec<u8>, t: &Trigger)
    ensures
        final(out)@ == old(out)@ + ser_trigger(*t),
{
    put_u32(out, t.id);
    write_rect(out, t.rect);
    assert(final(out)@ =~= old(out)@ + ser_trigger(*t));
}

fn read_trigger(c: &mut Cursor) -> (r: Option<Trigger>)
    ensures
        final(c).bytes == old(c).bytes,
        match parse_trigger(old(c).bytes@, old(c).pos as int) {
            Some((v, q)) => r == Some(v) && final(c).pos == q,
            None => r is None,
        },
{
    let id = match c.u32() {
        Some(v) => v,
        None => return None,
    };
    let rect = match read_rect(c) {
        Some(r) => r,
        None => return None,
    };
    Some(Trigger { id, rect })
}

fn write_link(out: &mut Vec<u8>, link: &Link)
    ensures
        final(out)@ == old(out)@ + ser_link(*link),
{
    let (k, af, aid, bf, bid) = match *link {
        Link::Stair { a_floor, a_id, b_floor, b_id } => (0u8, a_floor, a_id, b_floor, b_id),
        Link::KeyDoor { item_floor, item_id, door_floor, door_id } => (
            1u8,
            item_floor,
            item_id,
            door_floor,
            door_id,
        ),
        Link::DoorRegion { door_floor, door_id, region_floor, region_id } => (
            2u8,
            door_floor,
            door_id,
            region_floor,
            region_id,
        ),
        Link::TriggerRegion { trigger_floor, trigger_id, region_floor, region_id } => (
            3u8,
            trigger_floor,
            trigger_id,
            region_floor,
            region_id,
        ),
        Link::ItemRegion { item_floor, item_id, region_floor, region_id } => (
            4u8,
            item_floor,
            item_id,
            region_floor,
            region_id,
        ),
    };
    put_u8(out, k);
    put_u8(out, af);
    put_u32(out, aid);
    put_u8(out, bf);
    put_u32(out, bid);
    assert(final(out)@ =~= old(out)@ + ser_link(*link));
}

fn read_link(c: &mut Cursor) -> (r: Option<Link>)
    ensures
        final(c).bytes == old(c).bytes,
        match parse_link(old(c).bytes@, old(c).pos as int) {
            Some((v, q)) => r == Some(v) && final(c).pos == q,
            None => r is None,
        },
{
    if c.bytes.len() < 11 || c.pos > c.bytes.len() - 11 {
        return None;
    }
    let kind = c.u8().unwrap();
    let af = c.u8().unwrap();
    let aid = c.u32().unwrap();
    let bf = c.u8().unwrap();
    let bid = c.u32().unwrap();
    match kind {
        0 => Some(Link::Stair { a_floor: af, a_id: aid, b_floor: bf, b_id: bid }),
        1 => Some(Link::KeyDoor { item_floor: af, item_id: aid, door_floor: bf, door_id: bid }),
        2 => Some(
            Link::DoorRegion { door_floor: af, door_id: aid, region_floor: bf, region_id: bid },
        ),
        3 => Some(
            Link::TriggerRegion {
                trigger_floor: af,
                trigger_id: aid,
                region_floor: bf,
                region_id: bid,
            },
        ),
        4 => Some(
            Link::ItemRegion { item_floor: af, item_id: aid, region_floor: bf, region_id: bid },
        ),
        _ => None,
    }
}

fn write_item(out: &mut Vec<u8>, it: &ItemDef)
    ensures
        final(out)@ == old(out)@ + ser_item(it@),
{
    put_u32(out, it.id);
    put_u8(out, it.kind.to_u8());
    put_pair(out, it.pos);
    put_f32(out, it.rot);
    put_name(out, &it.name);
    assert(final(out)@ =~= old(out)@ + ser_item(it@));
}

fn read_item(c: &mut Cursor, version: u16) -> (r: Option<ItemDef>)
    ensures
        final(c).bytes == old(c).bytes,
        match parse_item(old(c).bytes@, old(c).pos as int, version) {
            Some((v, q)) => r matches Some(it) && it@ == v && final(c).pos == q,
            None => r is None,
        },
{
    let id = match c.u32() {
        Some(v) => v,
        None => return None,
    };
    let kind = match c.u8() {
        Some(k) => match ItemKind::from_u8(k) {
            Some(k) => k,
            None => return None,
        },
        None => return None,
    };
    let pos = match c.pair() {
        Some(v) => v,
        None => return None,
    };
    // v6 added item rotation.
    let rot = if version >= 6 {
        match c.float_bits() {
            Some(v) => v,
            None => return None,
        }
    } else {
        0
    };
    let name = match c.name() {
        Some(n) => n,
        None => return None,
    };
    Some(ItemDef { id, kind, name, pos, rot })
}

fn write_label(out: &mut Vec<u8>, l: &RoomLabel)
    ensures
        final(out)@ == old(out)@ + ser_label(l@),
{
    put_pair(out, l.pos);
    put_name(out, &l.name);
    assert(final(out)@ =~= old(out)@ + ser_label(l@));
}

fn read_label(c: &mut Cursor) -> (r: Option<RoomLabel>)
    ensures
        final(c).bytes == old(c).bytes,
        match parse_label(old(c).bytes@, old(c).pos as int) {
            Some((v, q)) => r matches Some(l) && l@ == v && final(c).pos == q,
            None => r is None,
        },
{
    let pos = match c.pair() {
        Some(v) => v,
        None => return None,
    };
    let name = match c.name() {
        Some(n) => n,
        None => return None,
    };
    Some(RoomLabel { name, pos })
}

fn write_region(out: &mut Vec<u8>, r: &Region)
    ensures
        final(out)@ == old(out)@ + ser_region(r@),
{
    put_u32(out, r.id);
    put_name(out, &r.name);
    write_rect(out, r.rect);
    put_u8(out, r.initial.to_u8());
    assert(final(out)@ =~= old(out)@ + ser_region(r@));
}

fn read_region(c: &mut Cursor) -> (r: Option<Region>)
    ensures
        final(c).bytes == old(c).bytes,
        match parse_region(old(c).bytes@, old(c).pos as int) {
            Some((v, q)) => r matches Some(g) && g@ == v && final(c).pos == q,
            None => r is None,
        },
{
    let id = match c.u32() {
        Some(v) => v,
        None => return None,
    };
    let name = match c.name() {
        Some(n) => n,
        None => return None,
    };
    let rect = match read_rect(c) {
        Some(r) => r,
        None => return None,
    };
    let initial = match c.u8() {
        Some(s) => match RegionState::from_u8(s) {
            Some(s) => s,
            None => return None,
        },
        None => return None,
    };
    Some(Region { id, name, rect, initial })
}

// ---------------------------------------------------------------------------
// Record lists: a `u32` count and the records.
// ---------------------------------------------------------------------------

pub open spec fn wall_op_ser() -> spec_fn(WallOp) -> Seq<u8> {
    |x: WallOp| ser_wall_op(x)
}

pub open spec fn wall_op_parser() -> spec_fn(Seq<u8>, int) -> Option<(WallOp, int)> {
    |b: Seq<u8>, p: int| parse_wall_op(b, p)
}

pub proof fn lemma_wall_op_decodes(x: WallOp)
    ensures
        decodes(wall_op_parser(), wall_op_ser(), x),
{
    assert forall|b: Seq<u8>, p: int|
        0 <= p && p + ser_wall_op(x).len() <= b.len() && b.subrange(p, p + ser_wall_op(x).len()) == ser_wall_op(x) implies
        #[trigger] wall_op_parser()(b, p) == Some((x, p + ser_wall_op(x).len())) by {
        lemma_parse_wall_op(b, p, x);
    }
}

fn write_wall_ops(out: &mut Vec<u8>, xs: &Vec<WallOp>)
    ensures
        final(out)@ == old(out)@ + ser_counted(xs@, wall_op_ser()),
{
    let ghost start = out@;
    let ghost all = xs@;
    put_count(out, xs.len());
    let mut i: usize = 0;
    while i < xs.len()
        invariant
            i <= xs.len(),
            all == xs@,
            all.len() == xs.len(),
            out@ == start + le32(xs.len() as u32) + ser_seq(all.take(i as int), wall_op_ser()),
        decreases xs.len() - i,
    {
        proof {
            lemma_ser_seq_take(all, i as int, wall_op_ser());
        }
        write_wall_op(out, xs[i]);
        i = i + 1;
        assert(out@ =~= start + le32(xs.len() as u32) + ser_seq(all.take(i as int), wall_op_ser()));
    }
    assert(all.take(xs.len() as int) =~= all);
    assert(out@ =~= old(out)@ + ser_counted(all, wall_op_ser()));
}

fn read_wall_ops(c: &mut Cursor) -> (r: Option<Vec<WallOp>>)
    ensures
        final(c).bytes == old(c).bytes,
        match parse_counted(old(c).bytes@, old(c).pos as int, wall_op_parser()) {
            Some((xs, q)) => r matches Some(v) && v@ == xs && final(c).pos == q,
            None => r is None,
        },
{
    let ghost b = c.bytes@;
    let n = match c.u32() {
        Some(n) => n,
        None => return None,
    };
    let ghost q0 = c.pos as int;
    let mut v: Vec<WallOp> = Vec::new();
    let mut i: u32 = 0;
    while i < n
        invariant
            i <= n,
            c.bytes == old(c).bytes,
            b == old(c).bytes@,
            parse_u32(b, old(c).pos as int) == Some((n, q0)),
            parse_rep(b, q0, i as nat, wall_op_parser()) == Some((v@, c.pos as int)),
        decreases n - i,
    {
        let ghost before = v@;
        let x = match read_wall_op(c) {
            Some(x) => x,
            None => {
                proof {
                    lemma_parse_rep_step_fails(b, q0, i as nat, n as nat, wall_op_parser());
                }
                return None;
            },
        };
        v.push(x);
        i = i + 1;
        assert(v@ =~= before.push(x));
    }
    Some(v)
}

pub open spec fn box_ser() -> spec_fn(Box2) -> Seq<u8> {
    |x: Box2| ser_box(x)
}

pub open spec fn box_parser() -> spec_fn(Seq<u8>, int) -> Option<(Box2, int)> {
    |b: Seq<u8>, p: int| parse_box(b, p)
}

pub proof fn lemma_box_decodes(x: Box2)
    ensures
        decodes(box_parser(), box_ser(), x),
{
    assert forall|b: Seq<u8>, p: int|
        0 <= p && p + ser_box(x).len() <= b.len() && b.subrange(p, p + ser_box(x).len()) == ser_box(x) implies
        #[trigger] box_parser()(b, p) == Some((x, p + ser_box(x).len())) by {
        lemma_parse_box(b, p, x);
    }
}

fn write_boxs(out: &mut Vec<u8>, xs: &Vec<Box2>)
    ensures
        final(out)@ == old(out)@ + ser_counted(xs@, box_ser()),
{
    let ghost start = out@;
    let ghost all = xs@;
    put_count(out, xs.len());
    let mut i: usize = 0;
    while i < xs.len()
        invariant
            i <= xs.len(),
            all == xs@,
            all.len() == xs.len(),
            out@ == start + le32(xs.len() as u32) + ser_seq(all.take(i as int), box_ser()),
        decreases xs.len() - i,
    {
        proof {
            lemma_ser_seq_take(all, i as int, box_ser());
        }
        write_box(out, &xs[i]);
        i = i + 1;
        assert(out@ =~= start + le32(xs.len() as u32) + ser_seq(all.take(i as int), box_ser()));
    }
    assert(all.take(xs.len() as int) =~= all);
    assert(out@ =~= old(out)@ + ser_counted(all, box_ser()));
}

fn read_boxs(c: &mut Cursor) -> (r: Option<Vec<Box2>>)
    ensures
        final(c).bytes == old(c).bytes,
        match parse_counted(old(c).bytes@, old(c).pos as int, box_parser()) {
            Some((xs, q)) => r matches Some(v) && v@ == xs && final(c).pos == q,
            None => r is None,
        },
{
    let ghost b = c.bytes@;
    let n = match c.u32() {
        Some(n) => n,
        None => return None,
    };
    let ghost q0 = c.pos as int;
    let mut v: Vec<Box2> = Vec::new();
    let mut i: u32 = 0;
    while i < n
        invariant
            i <= n,
            c.bytes == old(c).bytes,
            b == old(c).bytes@,
            parse_u32(b, old(c).pos as int) == Some((n, q0)),
            parse_rep(b, q0, i as nat, box_parser()) == Some((v@, c.pos as int)),
        decreases n - i,
    {
        let ghost before = v@;
        let x = match read_box(c) {
            Some(x) => x,
            None => {
                proof {
                    lemma_parse_rep_step_fails(b, q0, i as nat, n as nat, box_parser());
                }
                return None;
            },
        };
        v.push(x);
        i = i + 1;
        assert(v@ =~= before.push(x));
    }
    Some(v)
}

pub open spec fn door_ser() -> spec_fn(Door) -> Seq<u8> {
    |x: Door| ser_door(x)
}

pub open spec fn door_parser(version: u16) -> spec_fn(Seq<u8>, int) -> Option<(Door, int)> {
    |b: Seq<u8>, p: int| parse_door(b, p, version)
}

pub proof fn lemma_door_decodes(x: Door)
    ensures
        decodes(door_parser(VERSION), door_ser(), x),
{
    assert forall|b: Seq<u8>, p: int|
        0 <= p && p + ser_door(x).len() <= b.len() && b.subrange(p, p + ser_door(x).len()) == ser_door(x) implies
        #[trigger] door_parser(VERSION)(b, p) == Some((x, p + ser_door(x).len())) by {
        lemma_parse_door(b, p, x);
    }
}

fn write_doors(out: &mut Vec<u8>, xs: &Vec<Door>)
    ensures
        final(out)@ == old(out)@ + ser_counted(xs@, door_ser()),
{
    let ghost start = out@;
    let ghost all = xs@;
    put_count(out, xs.len());
    let mut i: usize = 0;
    while i < xs.len()
        invariant
            i <= xs.len(),
            all == xs@,
            all.len() == xs.len(),
            out@ == start + le32(xs.len() as u32) + ser_seq(all.take(i as int), door_ser()),
        decreases xs.len() - i,
    {
        proof {
            lemma_ser_seq_take(all, i as int, door_ser());
        }
        write_door(out, &xs[i]);
        i = i + 1;
        assert(out@ =~= start + le32(xs.len() as u32) + ser_seq(all.take(i as int), door_ser()));
    }
    assert(all.take(xs.len() as int) =~= all);
    assert(out@ =~= old(out)@ + ser_counted(all, door_ser()));
}

fn read_doors(c: &mut Cursor, version: u16) -> (r: Option<Vec<Door>>)
    ensures
        final(c).bytes == old(c).bytes,
        match parse_counted(old(c).bytes@, old(c).pos as int, door_parser(version)) {
            Some((xs, q)) => r matches Some(v) && v@ == xs && final(c).pos == q,
            None => r is None,
        },
{
    let ghost b = c.bytes@;
    let n = match c.u32() {
        Some(n) => n,
        None => return None,
    };
    let ghost q0 = c.pos as int;
    let mut v: Vec<Door> = Vec::new();
    let mut i: u32 = 0;
    while i < n
        invariant
            i <= n,
            c.bytes == old(c).bytes,
            b == old(c).bytes@,
            parse_u32(b, old(c).pos as int) == Some((n, q0)),
            parse_rep(b, q0, i as nat, door_parser(version)) == Some((v@, c.pos as int)),
        decreases n - i,
    {
        let ghost before = v@;
        let x = match read_door(c, version) {
            Some(x) => x,
            None => {
                proof {
                    lemma_parse_rep_step_fails(b, q0, i as nat, n as nat, door_parser(version));
                }
                return None;
            },
        };
        v.push(x);
        i = i + 1;
        assert(v@ =~= before.push(x));
    }
    Some(v)
}

pub open spec fn stair_ser() -> spec_fn(StairNode) -> Seq<u8> {
    |x: StairNode| ser_stair(x)
}

pub open spec fn stair_parser() -> spec_fn(Seq<u8>, int) -> Option<(StairNode, int)> {
    |b: Seq<u8>, p: int| parse_stair(b, p)
}

pub proof fn lemma_stair_decodes(x: StairNode)
    ensures
        decodes(stair_parser(), stair_ser(), x),
{
    assert forall|b: Seq<u8>, p: int|
        0 <= p && p + ser_stair(x).len() <= b.len() && b.subrange(p, p + ser_stair(x).len()) == ser_stair(x) implies
        #[trigger] stair_parser()(b, p) == Some((x, p + ser_stair(x).len())) by {
        lemma_parse_stair(b, p, x);
    }
}

fn write_stairs(out: &mut Vec<u8>, xs: &Vec<StairNode>)
    ensures
        final(out)@ == old(out)@ + ser_counted(xs@, stair_ser()),
{
    let ghost start = out@;
    let ghost all = xs@;
    put_count(out, xs.len());
    let mut i: usize = 0;
    while i < xs.len()
        invariant
            i <= xs.len(),
            all == xs@,
            all.len() == xs.len(),
            out@ == start + le32(xs.len() as u32) + ser_seq(all.take(i as int), stair_ser()),
        decreases xs.len() - i,
    {
        proof {
            lemma_ser_seq_take(all, i as int, stair_ser());
        }
        write_stair(out, &xs[i]);
        i = i + 1;
        assert(out@ =~= start + le32(xs.len() as u32) + ser_seq(all.take(i as int), stair_ser()));
    }
    assert(all.take(xs.len() as int) =~= all);
    assert(out@ =~= old(out)@ + ser_counted(all, stair_ser()));
}

fn read_stairs(c: &mut Cursor) -> (r: Option<Vec<StairNode>>)
    ensures
        final(c).bytes == old(c).bytes,
        match parse_counted(old(c).bytes@, old(c).pos as int, stair_parser()) {
            Some((xs, q)) => r matches Some(v) && v@ == xs && final(c).pos == q,
            None => r is None,
        },
{
    let ghost b = c.bytes@;
    let n = match c.u32() {
        Some(n) => n,
        None => return None,
    };
    let ghost q0 = c.pos as int;
    let mut v: Vec<StairNode> = Vec::new();
    let mut i: u32 = 0;
    while i < n
        invariant
            i <= n,
            c.bytes == old(c).bytes,
            b == old(c).bytes@,
            parse_u32(b, old(c).pos as int) == Some((n, q0)),
            parse_rep(b, q0, i as nat, stair_parser()) == Some((v@, c.pos as int)),
        decreases n - i,
    {
        let ghost before = v@;
        let x = match read_stair(c) {
            Some(x) => x,
            None => {
                proof {
                    lemma_parse_rep_step_fails(b, q0, i as nat, n as nat, stair_parser());
                }
                return None;
            },
        };
        v.push(x);
        i = i + 1;
        assert(v@ =~= before.push(x));
    }
    Some(v)
}

pub open spec fn trigger_ser() -> spec_fn(Trigger) -> Seq<u8> {
    |x: Trigger| ser_trigger(x)
}

pub open spec fn trigger_parser() -> spec_fn(Seq<u8>, int) -> Option<(Trigger, int)> {
    |b: Seq<u8>, p: int| parse_trigger(b, p)
}

pub proof fn lemma_trigger_decodes(x: Trigger)
    ensures
        decodes(trigger_parser(), trigger_ser(), x),
{
    assert forall|b: Seq<u8>, p: int|
        0 <= p && p + ser_trigger(x).len() <= b.len() && b.subrange(p, p + ser_trigger(x).len()) == ser_trigger(x) implies
        #[trigger] trigger_parser()(b, p) == Some((x, p + ser_trigger(x).len())) by {
        lemma_parse_trigger(b, p, x);
    }
}

fn write_triggers(out: &mut Vec<u8>, xs: &Vec<Trigger>)
    ensures
        final(out)@ == old(out)@ + ser_counted(xs@, trigger_ser()),
{
    let ghost start = out@;
    let ghost all = xs@;
    put_count(out, xs.len());
    let mut i: usize = 0;
    while i < xs.len()
        invariant
            i <= xs.len(),
            all == xs@,
            all.len() == xs.len(),
            out@ == start + le32(xs.len() as u32) + ser_seq(all.take(i as int), trigger_ser()),
        decreases xs.len() - i,
    {
        proof {
            lemma_ser_seq_take(all, i as int, trigger_ser());
        }
        write_trigger(out, &xs[i]);
        i = i + 1;
        assert(out@ =~= start + le32(xs.len() as u32) + ser_seq(all.take(i as int), trigger_ser()));
    }
    assert(all.take(xs.len() as int) =~= all);
    assert(out@ =~= old(out)@ + ser_counted(all, trigger_ser()));
}

fn read_triggers(c: &mut Cursor) -> (r: Option<Vec<Trigger>>)
    ensures
        final(c).bytes == old(c).bytes,
        match parse_counted(old(c).bytes@, old(c).pos as int, trigger_parser()) {
            Some((xs, q)) => r matches Some(v) && v@ == xs && final(c).pos == q,
            None => r is None,
        },
{
    let ghost b = c.bytes@;
    let n = match c.u32() {
        Some(n) => n,
        None => return None,
    };
    let ghost q0 = c.pos as int;
    let mut v: Vec<Trigger> = Vec::new();
    let mut i: u32 = 0;
    while i < n
        invariant
            i <= n,
            c.bytes == old(c).bytes,
            b == old(c).bytes@,
            parse_u32(b, old(c).pos as int) == Some((n, q0)),
            parse_rep(b, q0, i as nat, trigger_parser()) == Some((v@, c.pos as int)),
        decreases n - i,
    {
        let ghost before = v@;
        let x = match read_trigger(c) {
            Some(x) => x,
            None => {
                proof {
                    lemma_parse_rep_step_fails(b, q0, i as nat, n as nat, trigger_parser());
                }
                return None;
            },
        };
        v.push(x);
        i = i + 1;
        assert(v@ =~= before.push(x));
    }
    Some(v)
}

pub open spec fn link_ser() -> spec_fn(Link) -> Seq<u8> {
    |x: Link| ser_link(x)
}

pub open spec fn link_parser() -> spec_fn(Seq<u8>, int) -> Option<(Link, int)> {
    |b: Seq<u8>, p: int| parse_link(b, p)
}

pub proof fn lemma_link_decodes(x: Link)
    ensures
        decodes(link_parser(), link_ser(), x),
{
    assert forall|b: Seq<u8>, p: int|
        0 <= p && p + ser_link(x).len() <= b.len() && b.subrange(p, p + ser_link(x).len()) == ser_link(x) implies
        #[trigger] link_parser()(b, p) == Some((x, p + ser_link(x).len())) by {
        lemma_parse_link(b, p, x);
    }
}

fn write_links(out: &mut Vec<u8>, xs: &Vec<Link>)
    ensures
        final(out)@ == old(out)@ + ser_counted(xs@, link_ser()),
{
    let ghost start = out@;
    let ghost all = xs@;
    put_count(out, xs.len());
    let mut i: usize = 0;
    while i < xs.len()
        invariant
            i <= xs.len(),
            all == xs@,
            all.len() == xs.len(),
            out@ == start + le32(xs.len() as u32) + ser_seq(all.take(i as int), link_ser()),
        decreases xs.len() - i,
    {
        proof {
            lemma_ser_seq_take(all, i as int, link_ser());
        }
        write_link(out, &xs[i]);
        i = i + 1;
        assert(out@ =~= start + le32(xs.len() as u32) + ser_seq(all.take(i as int), link_ser()));
    }
    assert(all.take(xs.len() as int) =~= all);
    assert(out@ =~= old(out)@ + ser_counted(all, link_ser()));
}

fn read_links(c: &mut Cursor) -> (r: Option<Vec<Link>>)
    ensures
        final(c).bytes == old(c).bytes,
        match parse_counted(old(c).bytes@, old(c).pos as int, link_parser()) {
            Some((xs, q)) => r matches Some(v) && v@ == xs && final(c).pos == q,
            None => r is None,
        },
{
    let ghost b = c.bytes@;
    let n = match c.u32() {
        Some(n) => n,
        None => return None,
    };
    let ghost q0 = c.pos as int;
    let mut v: Vec<Link> = Vec::new();
    let mut i: u32 = 0;
    while i < n
        invariant
            i <= n,
            c.bytes == old(c).bytes,
            b == old(c).bytes@,
            parse_u32(b, old(c).pos as int) == Some((n, q0)),
            parse_rep(b, q0, i as nat, link_parser()) == Some((v@, c.pos as int)),
        decreases n - i,
    {
        let ghost before = v@;
        let x = match read_link(c) {
            Some(x) => x,
            None => {
                proof {
                    lemma_parse_rep_step_fails(b, q0, i as nat, n as nat, link_parser());
                }
                return None;
            },
        };
        v.push(x);
        i = i + 1;
        assert(v@ =~= before.push(x));
    }
    Some(v)
}

pub open spec fn item_ser() -> spec_fn(ItemDefView) -> Seq<u8> {
    |x: ItemDefView| ser_item(x)
}

pub open spec fn item_parser(version: u16) -> spec_fn(Seq<u8>, int) -> Option<(ItemDefView, int)> {
    |b: Seq<u8>, p: int| parse_item(b, p, version)
}

fn write_items(out: &mut Vec<u8>, xs: &Vec<ItemDef>)
    ensures
        final(out)@ == old(out)@ + ser_counted(xs@.map_values(|v: ItemDef| v@), item_ser()),
{
    let ghost start = out@;
    let ghost all = xs@.map_values(|v: ItemDef| v@);
    put_count(out, xs.len());
    let mut i: usize = 0;
    while i < xs.len()
        invariant
            i <= xs.len(),
            all == xs@.map_values(|v: ItemDef| v@),
            all.len() == xs.len(),
            out@ == start + le32(xs.len() as u32) + ser_seq(all.take(i as int), item_ser()),
        decreases xs.len() - i,
    {
        proof {
            lemma_ser_seq_take(all, i as int, item_ser());
        }
        write_item(out, &xs[i]);
        i = i + 1;
        assert(out@ =~= start + le32(xs.len() as u32) + ser_seq(all.take(i as int), item_ser()));
    }
    assert(all.take(xs.len() as int) =~= all);
    assert(out@ =~= old(out)@ + ser_counted(all, item_ser()));
}

fn read_items(c: &mut Cursor, version: u16) -> (r: Option<Vec<ItemDef>>)
    ensures
        final(c).bytes == old(c).bytes,
        match parse_counted(old(c).bytes@, old(c).pos as int, item_parser(version)) {
            Some((xs, q)) => r matches Some(v) && v@.map_values(|e: ItemDef| e@) == xs && final(c).pos == q,
            None => r is None,
        },
{
    let ghost b = c.bytes@;
    let n = match c.u32() {
        Some(n) => n,
        None => return None,
    };
    let ghost q0 = c.pos as int;
    let mut v: Vec<ItemDef> = Vec::new();
    let mut i: u32 = 0;
    while i < n
        invariant
            i <= n,
            c.bytes == old(c).bytes,
            b == old(c).bytes@,
            parse_u32(b, old(c).pos as int) == Some((n, q0)),
            parse_rep(b, q0, i as nat, item_parser(version)) == Some((v@.map_values(|e: ItemDef| e@), c.pos as int)),
        decreases n - i,
    {
        let ghost before = v@.map_values(|e: ItemDef| e@);
        let x = match read_item(c, version) {
            Some(x) => x,
            None => {
                proof {
                    lemma_parse_rep_step_fails(b, q0, i as nat, n as nat, item_parser(version));
                }
                return None;
            },
        };
        v.push(x);
        i = i + 1;
        assert(v@.map_values(|e: ItemDef| e@) =~= before.push(x@));
    }
    Some(v)
}

pub open spec fn label_ser() -> spec_fn(RoomLabelView) -> Seq<u8> {
    |x: RoomLabelView| ser_label(x)
}

pub open spec fn label_parser() -> spec_fn(Seq<u8>, int) -> Option<(RoomLabelView, int)> {
    |b: Seq<u8>, p: int| parse_label(b, p)
}

fn write_labels(out: &mut Vec<u8>, xs: &Vec<RoomLabel>)
    ensures
        final(out)@ == old(out)@ + ser_counted(xs@.map_values(|v: RoomLabel| v@), label_ser()),
{
    let ghost start = out@;
    let ghost all = xs@.map_values(|v: RoomLabel| v@);
    put_count(out, xs.len());
    let mut i: usize = 0;
    while i < xs.len()
        invariant
            i <= xs.len(),
            all == xs@.map_values(|v: RoomLabel| v@),
            all.len() == xs.len(),
            out@ == start + le32(xs.len() as u32) + ser_seq(all.take(i as int), label_ser()),
        decreases xs.len() - i,
    {
        proof {
            lemma_ser_seq_take(all, i as int, label_ser());
        }
        write_label(out, &xs[i]);
        i = i + 1;
        assert(out@ =~= start + le32(xs.len() as u32) + ser_seq(all.take(i as int), label_ser()));
    }
    assert(all.take(xs.len() as int) =~= all);
    assert(out@ =~= old(out)@ + ser_counted(all, label_ser()));
}

fn read_labels(c: &mut Cursor) -> (r: Option<Vec<RoomLabel>>)
    ensures
        final(c).bytes == old(c).bytes,
        match parse_counted(old(c).bytes@, old(c).pos as int, label_parser()) {
            Some((xs, q)) => r matches Some(v) && v@.map_values(|e: RoomLabel| e@) == xs && final(c).pos == q,
            None => r is None,
        },
{
    let ghost b = c.bytes@;
    let n = match c.u32() {
        Some(n) => n,
        None => return None,
    };
    let ghost q0 = c.pos as int;
    let mut v: Vec<RoomLabel> = Vec::new();
    let mut i: u32 = 0;
    while i < n
        invariant
            i <= n,
            c.bytes == old(c).bytes,
            b == old(c).bytes@,
            parse_u32(b, old(c).pos as int) == Some((n, q0)),
            parse_rep(b, q0, i as nat, label_parser()) == Some((v@.map_values(|e: RoomLabel| e@), c.pos as int)),
        decreases n - i,
    {
        let ghost before = v@.map_values(|e: RoomLabel| e@);
        let x = match read_label(c) {
            Some(x) => x,
            None => {
                proof {
                    lemma_parse_rep_step_fails(b, q0, i as nat, n as nat, label_parser());
                }
                return None;
            },
        };
        v.push(x);
        i = i + 1;
        assert(v@.map_values(|e: RoomLabel| e@) =~= before.push(x@));
    }
    Some(v)
}

pub open spec fn region_ser() -> spec_fn(RegionView) -> Seq<u8> {
    |x: RegionView| ser_region(x)
}

pub open spec fn region_parser() -> spec_fn(Seq<u8>, int) -> Option<(RegionView, int)> {
    |b: Seq<u8>, p: int| parse_region(b, p)
}

fn write_regions(out: &mut Vec<u8>, xs: &Vec<Region>)
    ensures
        final(out)@ == old(out)@ + ser_counted(xs@.map_values(|v: Region| v@), region_ser()),
{
    let ghost start = out@;
    let ghost all = xs@.map_values(|v: Region| v@);
    put_count(out, xs.len());
    let mut i: usize = 0;
    while i < xs.len()
        invariant
            i <= xs.len(),
            all == xs@.map_values(|v: Region| v@),
            all.len() == xs.len(),
            out@ == start + le32(xs.len() as u32) + ser_seq(all.take(i as int), region_ser()),
        decreases xs.len() - i,
    {
        proof {
            lemma_ser_seq_take(all, i as int, region_ser());
        }
        write_region(out, &xs[i]);
        i = i + 1;
        assert(out@ =~= start + le32(xs.len() as u32) + ser_seq(all.take(i as int), region_ser()));
    }
    assert(all.take(xs.len() as int) =~= all);
    assert(out@ =~= old(out)@ + ser_counted(all, region_ser()));
}

fn read_regions(c: &mut Cursor) -> (r: Option<Vec<Region>>)
    ensures
        final(c).bytes == old(c).bytes,
        match parse_counted(old(c).bytes@, old(c).pos as int, region_parser()) {
            Some((xs, q)) => r matches Some(v) && v@.map_values(|e: Region| e@) == xs && final(c).pos == q,
            None => r is None,
        },
{
    let ghost b = c.bytes@;
    let n = match c.u32() {
        Some(n) => n,
        None => return None,
    };
    let ghost q0 = c.pos as int;
    let mut v: Vec<Region> = Vec::new();
    let mut i: u32 = 0;
    while i < n
        invariant
            i <= n,
            c.bytes == old(c).bytes,
            b == old(c).bytes@,
            parse_u32(b, old(c).pos as int) == Some((n, q0)),
            parse_rep(b, q0, i as nat, region_parser()) == Some((v@.map_values(|e: Region| e@), c.pos as int)),
        decreases n - i,
    {
        let ghost before = v@.map_values(|e: Region| e@);
        let x = match read_region(c) {
            Some(x) => x,
            None => {
                proof {
                    lemma_parse_rep_step_fails(b, q0, i as nat, n as nat, region_parser());
                }
                return None;
            },
        };
        v.push(x);
        i = i + 1;
        assert(v@.map_values(|e: Region| e@) =~= before.push(x@));
    }
    Some(v)
}

// ---------------------------------------------------------------------------
// Floors.
// ---------------------------------------------------------------------------

#[derive(PartialEq, Eq, Debug)]
pub struct Floor {
    pub frame: Frame,
    pub walls: Vec<WallOp>,
    /// Interior-wall partitions (v3): walls placed inside rooms. Rendered dim on
    /// both lines and blocking, unlike room walls.
    pub partitions: Vec<WallOp>,
    pub obstacles: Vec<Box2>,
    pub doors: Vec<Door>,
    pub stairs: Vec<StairNode>,
    pub items: Vec<ItemDef>,
    /// Room name labels (v4).
    pub labels: Vec<RoomLabel>,
    /// Fog-of-war regions (v5).
    pub regions: Vec<Region>,
    /// Reveal triggers (v5).
    pub triggers: Vec<Trigger>,
    pub links: Vec<Link>,
}

#[verifier::ext_equal]
pub struct FloorView {
    pub frame: Frame,
    pub walls: Seq<WallOp>,
    pub partitions: Seq<WallOp>,
    pub obstacles: Seq<Box2>,
    pub doors: Seq<Door>,
    pub stairs: Seq<StairNode>,
    pub items: Seq<ItemDefView>,
    pub labels: Seq<RoomLabelView>,
    pub regions: Seq<RegionView>,
    pub triggers: Seq<Trigger>,
    pub links: Seq<Link>,
}

impl View for Floor {
    type V = FloorView;

    open spec fn view(&self) -> FloorView {
        FloorView {
            frame: self.frame,
            walls: self.walls@,
            partitions: self.partitions@,
            obstacles: self.obstacles@,
            doors: self.doors@,
            stairs: self.stairs@,
            items: self.items@.map_values(|v: ItemDef| v@),
            labels: self.labels@.map_values(|v: RoomLabel| v@),
            regions: self.regions@.map_values(|v: Region| v@),
            triggers: self.triggers@,
            links: self.links@,
        }
    }
}

impl Clone for Floor {
    fn clone(&self) -> (r: Floor)
        ensures
            r@ == self@,
    {
        let r = Floor {
            frame: self.frame,
            walls: self.walls.clone(),
            partitions: self.partitions.clone(),
            obstacles: self.obstacles.clone(),
            doors: self.doors.clone(),
            stairs: self.stairs.clone(),
            items: self.items.clone(),
            labels: self.labels.clone(),
            regions: self.regions.clone(),
            triggers: self.triggers.clone(),
            links: self.links.clone(),
        };
        proof {
            assert(r.walls@ =~= self.walls@);
            assert(r.partitions@ =~= self.partitions@);
            assert(r.obstacles@ =~= self.obstacles@);
            assert(r.doors@ =~= self.doors@);
            assert(r.stairs@ =~= self.stairs@);
            assert(r@.items =~= self@.items);
            assert(r@.labels =~= self@.labels);
            assert(r@.regions =~= self@.regions);
            assert(r.triggers@ =~= self.triggers@);
            assert(r.links@ =~= self.links@);
        }
        r
    }
}

/// A floor with no objects, framed as floor `index`.
pub open spec fn empty_floor(index: int) -> FloorView {
    FloorView {
        frame: floor_frame_bits(index),
        walls: seq![],
        partitions: seq![],
        obstacles: seq![],
        doors: seq![],
        stairs: seq![],
        items: seq![],
        labels: seq![],
        regions: seq![],
        triggers: seq![],
        links: seq![],
    }
}

impl Floor {
    pub fn new(index: usize) -> (r: Floor)
        requires
            index < NUM_FLOORS,
        ensures
            r@ == empty_floor(index as int),
    {
        let r = Floor {
            frame: floor_frame(index),
            walls: Vec::new(),
            partitions: Vec::new(),
            obstacles: Vec::new(),
            doors: Vec::new(),
            stairs: Vec::new(),
            items: Vec::new(),
            labels: Vec::new(),
            regions: Vec::new(),
            triggers: Vec::new(),
            links: Vec::new(),
        };
        assert(r@ =~= empty_floor(index as int));
        r
    }

    /// Whether the floor holds no authored object (links aside).
    pub fn is_empty(&self) -> (r: bool)
        ensures
            r == (self.walls@.len() == 0 && self.partitions@.len() == 0
                && self.obstacles@.len() == 0 && self.doors@.len() == 0 && self.stairs@.len()
                == 0 && self.items@.len() == 0 && self.labels@.len() == 0
                && self.regions@.len() == 0 && self.triggers@.len() == 0),
    {
        self.walls.is_empty() && self.partitions.is_empty() && self.obstacles.is_empty()
            && self.doors.is_empty() && self.stairs.is_empty() && self.items.is_empty()
            && self.labels.is_empty() && self.regions.is_empty() && self.triggers.is_empty()
    }
}

pub open spec fn ser_frame(fr: Frame) -> Seq<u8> {
    le32(fr.0) + (le32(fr.1) + (le32(fr.2) + le32(fr.3)))
}

pub open spec fn parse_frame(b: Seq<u8>, p: int) -> Option<(Frame, int)> {
    if avail(b, p, 16) {
        Some(((from_le32(b, p), from_le32(b, p + 4), from_le32(b, p + 8), from_le32(b, p + 12)), p + 16))
    } else {
        None
    }
}

/// Bytes of a floor in the current format.
#[verifier::opaque]
pub open spec fn ser_floor(f: FloorView) -> Seq<u8> {
    ser_frame(f.frame) + ser_counted(f.walls, wall_op_ser()) + ser_counted(f.partitions, wall_op_ser())
        + ser_counted(f.obstacles, box_ser()) + ser_counted(f.doors, door_ser()) + ser_counted(
        f.stairs,
        stair_ser(),
    ) + ser_counted(f.items, item_ser()) + ser_counted(f.labels, label_ser()) + ser_counted(
        f.regions,
        region_ser(),
    ) + ser_counted(f.triggers, trigger_ser()) + ser_counted(f.links, link_ser())
}

/// A counted list that a format version may lack: absent lists read as empty.
pub open spec fn parse_counted_since<T>(
    b: Seq<u8>,
    p: int,
    present: bool,
    f: spec_fn(Seq<u8>, int) -> Option<(T, int)>,
) -> Option<(Seq<T>, int)> {
    if present {
        parse_counted(b, p, f)
    } else {
        Some((seq![], p))
    }
}

/// A floor of format `version`.
#[verifier::opaque]
pub open spec fn parse_floor(b: Seq<u8>, p: int, version: u16) -> Option<(FloorView, int)> {
    match parse_frame(b, p) {
        None => None,
        Some((frame, p1)) => match parse_counted(b, p1, wall_op_parser()) {
            None => None,
            Some((walls, p2)) => match parse_counted_since(b, p2, version >= 3, wall_op_parser()) {
                None => None,
                Some((partitions, p3)) => match parse_counted(b, p3, box_parser()) {
                    None => None,
                    Some((obstacles, p4)) => match parse_counted(b, p4, door_parser(version)) {
                        None => None,
                        Some((doors, p5)) => match parse_counted(b, p5, stair_parser()) {
                            None => None,
                            Some((stairs, p6)) => match parse_counted(b, p6, item_parser(version)) {
                                None => None,
                                Some((items, p7)) => match parse_counted_since(
                                    b,
                                    p7,
                                    version >= 4,
                                    label_parser(),
                                ) {
                                    None => None,
                                    Some((labels, p8)) => match parse_counted_since(
                                        b,
                                        p8,
                                        version >= 5,
                                        region_parser(),
                                    ) {
                                        None => None,
                                        Some((regions, p9)) => match parse_counted_since(
                                            b,
                                            p9,
                                            version >= 5,
                                            trigger_parser(),
                                        ) {
                                            None => None,
                                            Some((triggers, p10)) => match parse_counted(
                                                b,
                                                p10,
                                                link_parser(),
                                            ) {
                                                None => None,
                                                Some((links, p11)) => Some(
                                                    (
                                                        FloorView {
                                                            frame,
                                                            walls,
                                                            partitions,
                                                            obstacles,
                                                            doors,
                                                            stairs,
                                                            items,
                                                            labels,
                                                            regions,
                                                            triggers,
                                                            links,
                                                        },
                                                        p11,
                                                    ),
                                                ),
                                            },
                                        },
                                    },
                                },
                            },
                        },
                    },
                },
            },
        },
    }
}

/// Whether every list of the floor has a count that fits its `u32` and every
/// name fits its record.
pub open spec fn floor_fits(f: FloorView) -> bool {
    &&& f.walls.len() <= u32::MAX
    &&& f.partitions.len() <= u32::MAX
    &&& f.obstacles.len() <= u32::MAX
    &&& f.doors.len() <= u32::MAX
    &&& f.stairs.len() <= u32::MAX
    &&& f.items.len() <= u32::MAX
    &&& f.labels.len() <= u32::MAX
    &&& f.regions.len() <= u32::MAX
    &&& f.triggers.len() <= u32::MAX
    &&& f.links.len() <= u32::MAX
    &&& forall|i: int| 0 <= i < f.items.len() ==> name_fits(#[trigger] f.items[i].name)
    &&& forall|i: int| 0 <= i < f.labels.len() ==> name_fits(#[trigger] f.labels[i].name)
    &&& forall|i: int| 0 <= i < f.regions.len() ==> name_fits(#[trigger] f.regions[i].name)
}

fn write_floor(out: &mut Vec<u8>, floor: &Floor)
    ensures
        final(out)@ == old(out)@ + ser_floor(floor@),
{
    proof {
        reveal(ser_floor);
    }
    let mut buf: Vec<u8> = Vec::new();
    put_f32(&mut buf, floor.frame.0);
    put_f32(&mut buf, floor.frame.1);
    put_f32(&mut buf, floor.frame.2);
    put_f32(&mut buf, floor.frame.3);
    assert(buf@ =~= ser_frame(floor.frame));
    write_wall_ops(&mut buf, &floor.walls);
    write_wall_ops(&mut buf, &floor.partitions);
    write_boxs(&mut buf, &floor.obstacles);
    write_doors(&mut buf, &floor.doors);
    write_stairs(&mut buf, &floor.stairs);
    write_items(&mut buf, &floor.items);
    write_labels(&mut buf, &floor.labels);
    write_regions(&mut buf, &floor.regions);
    write_triggers(&mut buf, &floor.triggers);
    write_links(&mut buf, &floor.links);
    out.append(&mut buf);
}

fn read_floor(c: &mut Cursor, version: u16) -> (r: Option<Floor>)
    ensures
        final(c).bytes == old(c).bytes,
        match parse_floor(old(c).bytes@, old(c).pos as int, version) {
            Some((v, q)) => r matches Some(f) && f@ == v && final(c).pos == q,
            None => r is None,
        },
{
    proof {
        reveal(parse_floor);
    }
    let frame = match read_rect(c) {
        Some(r) => (r.x, r.y, r.w, r.h),
        None => return None,
    };
    let walls = match read_wall_ops(c) {
        Some(v) => v,
        None => return None,
    };
    // v3 added interior-wall partitions.
    let partitions = if version >= 3 {
        match read_wall_ops(c) {
            Some(v) => v,
            None => return None,
        }
    } else {
        Vec::new()
    };
    let obstacles = match read_boxs(c) {
        Some(v) => v,
        None => return None,
    };
    let doors = match read_doors(c, version) {
        Some(v) => v,
        None => return None,
    };
    let stairs = match read_stairs(c) {
        Some(v) => v,
        None => return None,
    };
    let items = match read_items(c, version) {
        Some(v) => v,
        None => return None,
    };
    // v4 added room name labels.
    let labels = if version >= 4 {
        match read_labels(c) {
            Some(v) => v,
            None => return None,
        }
    } else {
        Vec::new()
    };
    // v5 added fog-of-war regions and reveal triggers.
    let regions = if version >= 5 {
        match read_regions(c) {
            Some(v) => v,
            None => return None,
        }
    } else {
        Vec::new()
    };
    let triggers = if version >= 5 {
        match read_triggers(c) {
            Some(v) => v,
            None => return None,
        }
    } else {
        Vec::new()
    };
    let links = match read_links(c) {
        Some(v) => v,
        None => return None,
    };
    let f = Floor {
        frame,
        walls,
        partitions,
        obstacles,
        doors,
        stairs,
        items,
        labels,
        regions,
        triggers,
        links,
    };
    proof {
        assert(f.items@.map_values(|v: ItemDef| v@) =~= items@.map_values(|v: ItemDef| v@));
        assert(f.labels@.map_values(|v: RoomLabel| v@) =~= labels@.map_values(|v: RoomLabel| v@));
        assert(f.regions@.map_values(|v: Region| v@) =~= regions@.map_values(|v: Region| v@));
    }
    Some(f)
}

pub proof fn lemma_parse_frame(b: Seq<u8>, p: int, fr: Frame)
    requires
        0 <= p,
        p + 16 <= b.len(),
        b.subrange(p, p + 16) == ser_frame(fr),
    ensures
        parse_frame(b, p) == Some((fr, p + 16)),
{
    lemma_parse_rect(b, p, Rect { x: fr.0, y: fr.1, w: fr.2, h: fr.3 });
}

/// A current-format floor is its frame and its lists, one after another.
proof fn lemma_parse_floor_parts(b: Seq<u8>, p: int, f: FloorView, q1: int, q2: int, q3: int, q4: int, q5: int, q6: int, q7: int, q8: int, q9: int, q10: int, q11: int)
    requires
        parse_frame(b, p) == Some((f.frame, q1)),
        parse_counted(b, q1, wall_op_parser()) == Some((f.walls, q2)),
        parse_counted(b, q2, wall_op_parser()) == Some((f.partitions, q3)),
        parse_counted(b, q3, box_parser()) == Some((f.obstacles, q4)),
        parse_counted(b, q4, door_parser(VERSION)) == Some((f.doors, q5)),
        parse_counted(b, q5, stair_parser()) == Some((f.stairs, q6)),
        parse_counted(b, q6, item_parser(VERSION)) == Some((f.items, q7)),
        parse_counted(b, q7, label_parser()) == Some((f.labels, q8)),
        parse_counted(b, q8, region_parser()) == Some((f.regions, q9)),
        parse_counted(b, q9, trigger_parser()) == Some((f.triggers, q10)),
        parse_counted(b, q10, link_parser()) == Some((f.links, q11)),
    ensures
        parse_floor(b, p, VERSION) == Some((f, q11)),
{
    reveal(parse_floor);
    assert(f =~= FloorView {
        frame: f.frame,
        walls: f.walls,
        partitions: f.partitions,
        obstacles: f.obstacles,
        doors: f.doors,
        stairs: f.stairs,
        items: f.items,
        labels: f.labels,
        regions: f.regions,
        triggers: f.triggers,
        links: f.links,
    });
}

/// A floor as it reads back: every name cut to the bytes its field keeps.
pub open spec fn stored_floor(f: FloorView) -> FloorView {
    FloorView {
        frame: f.frame,
        walls: f.walls,
        partitions: f.partitions,
        obstacles: f.obstacles,
        doors: f.doors,
        stairs: f.stairs,
        items: f.items.map_values(|it: ItemDefView| stored_item(it)),
        labels: f.labels.map_values(|l: RoomLabelView| stored_label(l)),
        regions: f.regions.map_values(|r: RegionView| stored_region(r)),
        triggers: f.triggers,
        links: f.links,
    }
}

/// Whether every list of the floor has a count that fits its `u32`.
pub open spec fn floor_counts_fit(f: FloorView) -> bool {
    &&& f.walls.len() <= u32::MAX
    &&& f.partitions.len() <= u32::MAX
    &&& f.obstacles.len() <= u32::MAX
    &&& f.doors.len() <= u32::MAX
    &&& f.stairs.len() <= u32::MAX
    &&& f.items.len() <= u32::MAX
    &&& f.labels.len() <= u32::MAX
    &&& f.regions.len() <= u32::MAX
    &&& f.triggers.len() <= u32::MAX
    &&& f.links.len() <= u32::MAX
}

/// A floor whose names fit reads back as itself.
proof fn lemma_stored_floor_fits(f: FloorView)
    requires
        floor_fits(f),
    ensures
        stored_floor(f) == f,
{
    assert forall|i: int| 0 <= i < f.items.len() implies stored_item(#[trigger] f.items[i]) == f.items[i] by {
        lemma_stored_name_fits(f.items[i].name);
    }
    assert forall|i: int| 0 <= i < f.labels.len() implies stored_label(#[trigger] f.labels[i]) == f.labels[i] by {
        lemma_stored_name_fits(f.labels[i].name);
    }
    assert forall|i: int| 0 <= i < f.regions.len() implies stored_region(#[trigger] f.regions[i]) == f.regions[i] by {
        lemma_stored_name_fits(f.regions[i].name);
    }
    assert(stored_floor(f).items =~= f.items);
    assert(stored_floor(f).labels =~= f.labels);
    assert(stored_floor(f).regions =~= f.regions);
    assert(stored_floor(f) =~= f);
}

pub proof fn lemma_item_decodes_as(x: ItemDefView)
    ensures
        decodes_as(item_parser(VERSION), item_ser(), x, stored_item(x)),
{
    assert forall|b: Seq<u8>, p: int|
        0 <= p && p + ser_item(x).len() <= b.len() && b.subrange(p, p + ser_item(x).len()) == ser_item(x) implies
        #[trigger] item_parser(VERSION)(b, p) == Some((stored_item(x), p + ser_item(x).len())) by {
        lemma_parse_item(b, p, x);
    }
}

pub proof fn lemma_label_decodes_as(x: RoomLabelView)
    ensures
        decodes_as(label_parser(), label_ser(), x, stored_label(x)),
{
    assert forall|b: Seq<u8>, p: int|
        0 <= p && p + ser_label(x).len() <= b.len() && b.subrange(p, p + ser_label(x).len()) == ser_label(x) implies
        #[trigger] label_parser()(b, p) == Some((stored_label(x), p + ser_label(x).len())) by {
        lemma_parse_label(b, p, x);
    }
}

pub proof fn lemma_region_decodes_as(x: RegionView)
    ensures
        decodes_as(region_parser(), region_ser(), x, stored_region(x)),
{
    assert forall|b: Seq<u8>, p: int|
        0 <= p && p + ser_region(x).len() <= b.len() && b.subrange(p, p + ser_region(x).len()) == ser_region(x) implies
        #[trigger] region_parser()(b, p) == Some((stored_region(x), p + ser_region(x).len())) by {
        lemma_parse_region(b, p, x);
    }
}

/// A floor reads back where it was written, with every name cut to the
/// bytes its field keeps, when its lists fit their counts.
#[verifier::rlimit(100)]
pub proof fn lemma_parse_floor_stored(b: Seq<u8>, p: int, f: FloorView)
    requires
        floor_counts_fit(f),
        0 <= p,
        p + ser_floor(f).len() <= b.len(),
        b.subrange(p, p + ser_floor(f).len()) == ser_floor(f),
    ensures
        parse_floor(b, p, VERSION) == Some((stored_floor(f), p + ser_floor(f).len())),
{
    let s0 = ser_frame(f.frame);
    let s1 = ser_counted(f.walls, wall_op_ser());
    let s2 = ser_counted(f.partitions, wall_op_ser());
    let s3 = ser_counted(f.obstacles, box_ser());
    let s4 = ser_counted(f.doors, door_ser());
    let s5 = ser_counted(f.stairs, stair_ser());
    let s6 = ser_counted(f.items, item_ser());
    let s7 = ser_counted(f.labels, label_ser());
    let s8 = ser_counted(f.regions, region_ser());
    let s9 = ser_counted(f.triggers, trigger_ser());
    let s10 = ser_counted(f.links, link_ser());
    let l0 = s0;
    let l1 = l0 + s1;
    let l2 = l1 + s2;
    let l3 = l2 + s3;
    let l4 = l3 + s4;
    let l5 = l4 + s5;
    let l6 = l5 + s6;
    let l7 = l6 + s7;
    let l8 = l7 + s8;
    let l9 = l8 + s9;
    let l10 = l9 + s10;
    assert(l10 == ser_floor(f)) by {
        reveal(ser_floor);
    }
    lemma_subrange_concat(b, p, l9, s10);
    lemma_subrange_concat(b, p, l8, s9);
    lemma_subrange_concat(b, p, l7, s8);
    lemma_subrange_concat(b, p, l6, s7);
    lemma_subrange_concat(b, p, l5, s6);
    lemma_subrange_concat(b, p, l4, s5);
    lemma_subrange_concat(b, p, l3, s4);
    lemma_subrange_concat(b, p, l2, s3);
    lemma_subrange_concat(b, p, l1, s2);
    lemma_subrange_concat(b, p, l0, s1);
    lemma_parse_frame(b, p, f.frame);
    assert(parse_counted(b, p + l0.len(), wall_op_parser()) == Some((f.walls, p + l1.len()))) by {
        assert forall|i: int| 0 <= i < f.walls.len() implies #[trigger] decodes(wall_op_parser(), wall_op_ser(), f.walls[i]) by {
            lemma_wall_op_decodes(f.walls[i]);
        }
        lemma_parse_counted_ser(b, p + l0.len(), f.walls, wall_op_parser(), wall_op_ser());
    }
    assert(parse_counted(b, p + l1.len(), wall_op_parser()) == Some((f.partitions, p + l2.len()))) by {
        assert forall|i: int| 0 <= i < f.partitions.len() implies #[trigger] decodes(wall_op_parser(), wall_op_ser(), f.partitions[i]) by {
            lemma_wall_op_decodes(f.partitions[i]);
        }
        lemma_parse_counted_ser(b, p + l1.len(), f.partitions, wall_op_parser(), wall_op_ser());
    }
    assert(parse_counted(b, p + l2.len(), box_parser()) == Some((f.obstacles, p + l3.len()))) by {
        assert forall|i: int| 0 <= i < f.obstacles.len() implies #[trigger] decodes(box_parser(), box_ser(), f.obstacles[i]) by {
            lemma_box_decodes(f.obstacles[i]);
        }
        lemma_parse_counted_ser(b, p + l2.len(), f.obstacles, box_parser(), box_ser());
    }
    assert(parse_counted(b, p + l3.len(), door_parser(VERSION)) == Some((f.doors, p + l4.len()))) by {
        assert forall|i: int| 0 <= i < f.doors.len() implies #[trigger] decodes(door_parser(VERSION), door_ser(), f.doors[i]) by {
            lemma_door_decodes(f.doors[i]);
        }
        lemma_parse_counted_ser(b, p + l3.len(), f.doors, door_parser(VERSION), door_ser());
    }
    assert(parse_counted(b, p + l4.len(), stair_parser()) == Some((f.stairs, p + l5.len()))) by {
        assert forall|i: int| 0 <= i < f.stairs.len() implies #[trigger] decodes(stair_parser(), stair_ser(), f.stairs[i]) by {
            lemma_stair_decodes(f.stairs[i]);
        }
        lemma_parse_counted_ser(b, p + l4.len(), f.stairs, stair_parser(), stair_ser());
    }
    assert(parse_counted(b, p + l5.len(), item_parser(VERSION)) == Some((stored_floor(f).items, p + l6.len()))) by {
        assert forall|i: int| 0 <= i < f.items.len() implies #[trigger] decodes_as(item_parser(VERSION), item_ser(), f.items[i], stored_floor(f).items[i]) by {
            lemma_item_decodes_as(f.items[i]);
        }
        lemma_parse_counted_ser_as(b, p + l5.len(), f.items, stored_floor(f).items, item_parser(VERSION), item_ser());
    }
    assert(parse_counted(b, p + l6.len(), label_parser()) == Some((stored_floor(f).labels, p + l7.len()))) by {
        assert forall|i: int| 0 <= i < f.labels.len() implies #[trigger] decodes_as(label_parser(), label_ser(), f.labels[i], stored_floor(f).labels[i]) by {
            lemma_label_decodes_as(f.labels[i]);
        }
        lemma_parse_counted_ser_as(b, p + l6.len(), f.labels, stored_floor(f).labels, label_parser(), label_ser());
    }
    assert(parse_counted(b, p + l7.len(), region_parser()) == Some((stored_floor(f).regions, p + l8.len()))) by {
        assert forall|i: int| 0 <= i < f.regions.len() implies #[trigger] decodes_as(region_parser(), region_ser(), f.regions[i], stored_floor(f).regions[i]) by {
            lemma_region_decodes_as(f.regions[i]);
        }
        lemma_parse_counted_ser_as(b, p + l7.len(), f.regions, stored_floor(f).regions, region_parser(), region_ser());
    }
    assert(parse_counted(b, p + l8.len(), trigger_parser()) == Some((f.triggers, p + l9.len()))) by {
        assert forall|i: int| 0 <= i < f.triggers.len() implies #[trigger] decodes(trigger_parser(), trigger_ser(), f.triggers[i]) by {
            lemma_trigger_decodes(f.triggers[i]);
        }
        lemma_parse_counted_ser(b, p + l8.len(), f.triggers, trigger_parser(), trigger_ser());
    }
    assert(parse_counted(b, p + l9.len(), link_parser()) == Some((f.links, p + l10.len()))) by {
        assert forall|i: int| 0 <= i < f.links.len() implies #[trigger] decodes(link_parser(), link_ser(), f.links[i]) by {
            lemma_link_decodes(f.links[i]);
        }
        lemma_parse_counted_ser(b, p + l9.len(), f.links, link_parser(), link_ser());
    }
    lemma_parse_floor_parts(b, p, stored_floor(f), p + l0.len(), p + l1.len(), p + l2.len(), p + l3.len(), p + l4.len(), p + l5.len(), p + l6.len(), p + l7.len(), p + l8.len(), p + l9.len(), p + l10.len());
}

// ---------------------------------------------------------------------------
// The scene.
// ---------------------------------------------------------------------------

#[derive(Clone, PartialEq, Eq, Debug)]
pub struct Scene {
    pub version: u16,
    pub floors: [Floor; NUM_FLOORS],
}

#[verifier::ext_equal]
pub struct SceneView {
    pub version: u16,
    pub floors: Seq<FloorView>,
}

impl View for Scene {
    type V = SceneView;

    open spec fn view(&self) -> SceneView {
        SceneView { version: self.version, floors: self.floors@.map_values(|f: Floor| f@) }
    }
}

/// The scene a fresh editor starts from: the current version and three empty
/// floors.
pub open spec fn default_scene() -> SceneView {
    SceneView { version: VERSION, floors: seq![empty_floor(0), empty_floor(1), empty_floor(2)] }
}

impl Default for Scene {
    fn default() -> (r: Scene)
        ensures
            r@ == default_scene(),
    {
        let r = Scene { version: VERSION, floors: [Floor::new(0), Floor::new(1), Floor::new(2)] };
        assert(r@.floors =~= default_scene().floors);
        r
    }
}

/// `"IRSC"`.
pub open spec fn scene_magic() -> Seq<u8> {
    seq![0x49u8, 0x52u8, 0x53u8, 0x43u8]
}

/// Bytes of a scene: always in the current format, whatever version it was
/// read from.
pub open spec fn ser_scene(s: SceneView) -> Seq<u8> {
    scene_magic() + le16(VERSION) + seq![NUM_FLOORS as u8, 0u8] + ser_floor(s.floors[0])
        + ser_floor(s.floors[1]) + ser_floor(s.floors[2])
}

/// The scene a byte string holds, with the position after it: the magic, a
/// version, a floor count that must be `NUM_FLOORS`, a reserved byte, then
/// the floors in the format of that version.
pub open spec fn parse_scene(b: Seq<u8>) -> Option<(SceneView, int)> {
    if avail(b, 0, 4) && b.subrange(0, 4) == scene_magic() {
        match parse_u16(b, 4) {
            None => None,
            Some((version, p1)) => if !avail(b, p1, 2) || b[p1] != NUM_FLOORS as u8 {
                None
            } else {
                match parse_floor(b, p1 + 2, version) {
                    None => None,
                    Some((f0, p2)) => match parse_floor(b, p2, version) {
                        None => None,
                        Some((f1, p3)) => match parse_floor(b, p3, version) {
                            None => None,
                            Some((f2, p4)) => Some(
                                (SceneView { version, floors: seq![f0, f1, f2] }, p4),
                            ),
                        },
                    },
                }
            },
        }
    } else {
        None
    }
}

/// Whether every floor of the scene fits its format.
pub open spec fn scene_fits(s: SceneView) -> bool {
    &&& s.floors.len() == NUM_FLOORS
    &&& forall|i: int| 0 <= i < NUM_FLOORS ==> floor_fits(#[trigger] s.floors[i])
}

impl Scene {
    /// The scene's bytes in the current format.
    pub fn to_bytes(&self) -> (out: Vec<u8>)
        ensures
            out@ == ser_scene(self@),
    {
        let mut out: Vec<u8> = Vec::new();
        put_u8(&mut out, 0x49);
        put_u8(&mut out, 0x52);
        put_u8(&mut out, 0x53);
        put_u8(&mut out, 0x43);
        assert(out@ =~= scene_magic());
        // Always write the current format version, even for a scene loaded from
        // an older one, so the bytes match what we emit below.
        put_u16(&mut out, VERSION);
        put_u8(&mut out, NUM_FLOORS as u8);
        put_u8(&mut out, 0);
        assert(out@ =~= scene_magic() + le16(VERSION) + seq![NUM_FLOORS as u8, 0u8]);
        write_floor(&mut out, &self.floors[0]);
        write_floor(&mut out, &self.floors[1]);
        write_floor(&mut out, &self.floors[2]);
        out
    }

    /// The scene `bytes` hold, in any format version; `None` when the magic,
    /// the floor count or any record is wrong or cut short.
    pub fn from_bytes(bytes: &[u8]) -> (r: Option<Scene>)
        ensures
            match parse_scene(bytes@) {
                Some((v, _)) => r matches Some(s) && s@ == v,
                None => r is None,
            },
    {
        let mut c = Cursor { bytes, pos: 0 };
        let magic = match c.take(4) {
            Some(m) => m,
            None => return None,
        };
        if !(magic[0] == 0x49 && magic[1] == 0x52 && magic[2] == 0x53 && magic[3] == 0x43) {
            proof {
                assert(magic@ != scene_magic()) by {
                    if magic@ == scene_magic() {
                        assert(magic@[0] == 0x49 && magic@[1] == 0x52);
                        assert(magic@[2] == 0x53 && magic@[3] == 0x43);
                    }
                }
            }
            return None;
        }
        assert(magic@ =~= scene_magic());
        let version = match c.u16() {
            Some(v) => v,
            None => return None,
        };
        let floor_count = match c.u8() {
            Some(v) => v,
            None => return None,
        };
        match c.u8() {
            Some(_) => {},
            None => return None,
        }
        if floor_count as usize != NUM_FLOORS {
            return None;
        }
        let f0 = match read_floor(&mut c, version) {
            Some(f) => f,
            None => return None,
        };
        let f1 = match read_floor(&mut c, version) {
            Some(f) => f,
            None => return None,
        };
        let f2 = match read_floor(&mut c, version) {
            Some(f) => f,
            None => return None,
        };
        let s = Scene { version, floors: [f0, f1, f2] };
        assert(s@.floors =~= seq![f0@, f1@, f2@]);
        Some(s)
    }
}

/// Saving writes the magic and the current format version, whatever version
/// the scene was loaded from.
pub proof fn lemma_scene_bytes_header(s: SceneView)
    ensures
        ser_scene(s).subrange(0, 4) == scene_magic(),
        from_le16(ser_scene(s), 4) == VERSION,
{
    let b = ser_scene(s);
    let head = scene_magic() + le16(VERSION) + seq![NUM_FLOORS as u8, 0u8];
    assert(b.subrange(0, 8) =~= head) by {
        assert(b =~= head + (ser_floor(s.floors[0]) + ser_floor(s.floors[1]) + ser_floor(
            s.floors[2],
        )));
    }
    assert(b.subrange(0, 4) =~= scene_magic());
    lemma_le16(VERSION);
    assert(b[4] == le16(VERSION)[0] && b[5] == le16(VERSION)[1]) by {
        assert(b.subrange(0, 8)[4] == b[4]);
        assert(b.subrange(0, 8)[5] == b[5]);
    }
}

// ---------------------------------------------------------------------------
// Reading only looks at the bytes it consumes.
// ---------------------------------------------------------------------------

proof fn lemma_fixed_records_read_within(b: Seq<u8>, c: Seq<u8>, p: int)
    ensures
        reads_within(box_parser(), b, c, p),
        reads_within(stair_parser(), b, c, p),
        reads_within(link_parser(), b, c, p),
        reads_within(wall_op_parser(), b, c, p),
        reads_within(trigger_parser(), b, c, p),
{
}

proof fn lemma_door_reads_within(b: Seq<u8>, c: Seq<u8>, p: int, version: u16)
    ensures
        reads_within(door_parser(version), b, c, p),
{
}

proof fn lemma_item_reads_within(b: Seq<u8>, c: Seq<u8>, p: int, version: u16)
    ensures
        reads_within(item_parser(version), b, c, p),
{
    if let Some((_, q1)) = parse_u32(b, p) {
        if let Some((_, q2)) = parse_u8(b, q1) {
            if let Some((_, q3)) = parse_pair(b, q2) {
                lemma_parse_name_stable(b, c, q3);
                lemma_parse_name_stable(b, c, q3 + 4);
            }
        }
    }
}

proof fn lemma_label_reads_within(b: Seq<u8>, c: Seq<u8>, p: int)
    ensures
        reads_within(label_parser(), b, c, p),
{
    if let Some((_, q)) = parse_pair(b, p) {
        lemma_parse_name_stable(b, c, q);
    }
}

proof fn lemma_region_reads_within(b: Seq<u8>, c: Seq<u8>, p: int)
    ensures
        reads_within(region_parser(), b, c, p),
{
    if let Some((_, q1)) = parse_u32(b, p) {
        lemma_parse_name_stable(b, c, q1);
    }
}

proof fn lemma_records_read_within(b: Seq<u8>, c: Seq<u8>, p: int, version: u16)
    ensures
        reads_within(wall_op_parser(), b, c, p),
        reads_within(box_parser(), b, c, p),
        reads_within(door_parser(version), b, c, p),
        reads_within(stair_parser(), b, c, p),
        reads_within(item_parser(version), b, c, p),
        reads_within(label_parser(), b, c, p),
        reads_within(region_parser(), b, c, p),
        reads_within(trigger_parser(), b, c, p),
        reads_within(link_parser(), b, c, p),
{
    lemma_fixed_records_read_within(b, c, p);
    lemma_door_reads_within(b, c, p, version);
    lemma_item_reads_within(b, c, p, version);
    lemma_label_reads_within(b, c, p);
    lemma_region_reads_within(b, c, p);
}

/// Every record parser of format `version` reads only the bytes it consumes.
proof fn lemma_records_prefix_stable(version: u16)
    ensures
        prefix_stable(wall_op_parser()),
        prefix_stable(box_parser()),
        prefix_stable(door_parser(version)),
        prefix_stable(stair_parser()),
        prefix_stable(item_parser(version)),
        prefix_stable(label_parser()),
        prefix_stable(region_parser()),
        prefix_stable(trigger_parser()),
        prefix_stable(link_parser()),
{
    assert forall|b: Seq<u8>, c: Seq<u8>, p: int|
        #![trigger reads_within(wall_op_parser(), b, c, p)]
        #![trigger reads_within(box_parser(), b, c, p)]
        #![trigger reads_within(door_parser(version), b, c, p)]
        #![trigger reads_within(stair_parser(), b, c, p)]
        #![trigger reads_within(item_parser(version), b, c, p)]
        #![trigger reads_within(label_parser(), b, c, p)]
        #![trigger reads_within(region_parser(), b, c, p)]
        #![trigger reads_within(trigger_parser(), b, c, p)]
        #![trigger reads_within(link_parser(), b, c, p)]
        reads_within(wall_op_parser(), b, c, p) && reads_within(box_parser(), b, c, p)
            && reads_within(door_parser(version), b, c, p) && reads_within(stair_parser(), b, c, p)
            && reads_within(item_parser(version), b, c, p) && reads_within(label_parser(), b, c, p)
            && reads_within(region_parser(), b, c, p) && reads_within(trigger_parser(), b, c, p)
            && reads_within(link_parser(), b, c, p) by {
        lemma_records_read_within(b, c, p, version);
    }
}

/// A scene as it reads back from its bytes: at the current format version,
/// with every name cut to the bytes its field keeps.
pub open spec fn stored_scene(s: SceneView) -> SceneView {
    SceneView { version: VERSION, floors: s.floors.map_values(|f: FloorView| stored_floor(f)) }
}

/// Whether the scene has its floors and every list fits its `u32` count.
pub open spec fn scene_counts_fit(s: SceneView) -> bool {
    &&& s.floors.len() == NUM_FLOORS
    &&& forall|i: int| 0 <= i < NUM_FLOORS ==> floor_counts_fit(#[trigger] s.floors[i])
}

/// Any scene whose lists fit their counts reads back from its bytes, at the
/// current format version and with every name cut to the bytes its field
/// keeps, and the read consumes every byte.
pub proof fn lemma_scene_reads_back(s: SceneView)
    requires
        scene_counts_fit(s),
    ensures
        parse_scene(ser_scene(s)) == Some((stored_scene(s), ser_scene(s).len() as int)),
{
    let b = ser_scene(s);
    let h = scene_magic() + le16(VERSION) + seq![NUM_FLOORS as u8, 0u8];
    let a0 = ser_floor(s.floors[0]);
    let a1 = ser_floor(s.floors[1]);
    let a2 = ser_floor(s.floors[2]);
    assert(b.subrange(0, b.len() as int) =~= b);
    lemma_subrange_concat(b, 0, h + a0 + a1, a2);
    lemma_subrange_concat(b, 0, h + a0, a1);
    lemma_subrange_concat(b, 0, h, a0);
    lemma_scene_bytes_header(s);
    lemma_le16(VERSION);
    assert(b.subrange(0, 8) =~= h);
    assert(b[6] == h[6]) by {
        assert(b.subrange(0, 8)[6] == b[6]);
    }
    assert(parse_u16(b, 4) == Some((VERSION, 6int)));
    assert(floor_counts_fit(s.floors[0]));
    assert(floor_counts_fit(s.floors[1]));
    assert(floor_counts_fit(s.floors[2]));
    lemma_parse_floor_stored(b, 8, s.floors[0]);
    lemma_parse_floor_stored(b, 8 + a0.len() as int, s.floors[1]);
    lemma_parse_floor_stored(b, (8 + a0.len() + a1.len()) as int, s.floors[2]);
    assert(seq![stored_floor(s.floors[0]), stored_floor(s.floors[1]), stored_floor(s.floors[2])]
        =~= stored_scene(s).floors);
}

/// A scene reads back from its bytes as itself, at the current format version,
/// and the read consumes every byte. This holds when every list fits its `u32`
/// count and every name fits its `u16` length.
pub proof fn lemma_scene_round_trip(s: SceneView)
    requires
        scene_fits(s),
    ensures
        parse_scene(ser_scene(s)) == Some(
            (SceneView { version: VERSION, floors: s.floors }, ser_scene(s).len() as int),
        ),
{
    lemma_scene_reads_back(s);
    assert forall|i: int| 0 <= i < NUM_FLOORS implies #[trigger] floor_counts_fit(s.floors[i]) by {
        assert(floor_fits(s.floors[i]));
    }
    assert forall|i: int| 0 <= i < NUM_FLOORS implies stored_floor(#[trigger] s.floors[i]) == s.floors[i] by {
        lemma_stored_floor_fits(s.floors[i]);
    }
    assert(stored_scene(s).floors =~= s.floors);
}


/// A list that a format version may lack reads only the bytes it consumes.
proof fn lemma_parse_counted_since_stable<T>(
    b: Seq<u8>,
    c: Seq<u8>,
    p: int,
    present: bool,
    f: spec_fn(Seq<u8>, int) -> Option<(T, int)>,
)
    requires
        prefix_stable(f),
        0 <= p <= b.len(),
        parse_counted_since(b, p, present, f) is Some,
    ensures
        parse_counted_since(b + c, p, present, f) == parse_counted_since(b, p, present, f),
        p <= parse_counted_since(b, p, present, f).unwrap().1 <= b.len(),
{
    if present {
        lemma_parse_counted_stable(b, c, p, f);
    }
}

/// A floor reads the same when more bytes follow, and ends within its input.
proof fn lemma_parse_floor_stable(b: Seq<u8>, c: Seq<u8>, p: int, version: u16)
    requires
        parse_floor(b, p, version) is Some,
    ensures
        parse_floor(b + c, p, version) == parse_floor(b, p, version),
        p <= parse_floor(b, p, version).unwrap().1 <= b.len(),
{
    reveal(parse_floor);
    lemma_records_prefix_stable(version);
    let (_, p1) = parse_frame(b, p).unwrap();
    assert(parse_frame(b + c, p) == parse_frame(b, p));
    lemma_parse_counted_stable(b, c, p1, wall_op_parser());
    let (_, p2) = parse_counted(b, p1, wall_op_parser()).unwrap();
    lemma_parse_counted_since_stable(b, c, p2, version >= 3, wall_op_parser());
    let (_, p3) = parse_counted_since(b, p2, version >= 3, wall_op_parser()).unwrap();
    lemma_parse_counted_stable(b, c, p3, box_parser());
    let (_, p4) = parse_counted(b, p3, box_parser()).unwrap();
    lemma_parse_counted_stable(b, c, p4, door_parser(version));
    let (_, p5) = parse_counted(b, p4, door_parser(version)).unwrap();
    lemma_parse_counted_stable(b, c, p5, stair_parser());
    let (_, p6) = parse_counted(b, p5, stair_parser()).unwrap();
    lemma_parse_counted_stable(b, c, p6, item_parser(version));
    let (_, p7) = parse_counted(b, p6, item_parser(version)).unwrap();
    lemma_parse_counted_since_stable(b, c, p7, version >= 4, label_parser());
    let (_, p8) = parse_counted_since(b, p7, version >= 4, label_parser()).unwrap();
    lemma_parse_counted_since_stable(b, c, p8, version >= 5, region_parser());
    let (_, p9) = parse_counted_since(b, p8, version >= 5, region_parser()).unwrap();
    lemma_parse_counted_since_stable(b, c, p9, version >= 5, trigger_parser());
    let (_, p10) = parse_counted_since(b, p9, version >= 5, trigger_parser()).unwrap();
    lemma_parse_counted_stable(b, c, p10, link_parser());
}

/// Bytes after a scene are ignored: a scene reads the same with anything
/// appended, and the read ends within the bytes before them.
pub proof fn lemma_scene_ignores_trailing_bytes(b: Seq<u8>, c: Seq<u8>)
    requires
        parse_scene(b) is Some,
    ensures
        parse_scene(b + c) == parse_scene(b),
        parse_scene(b).unwrap().1 <= b.len(),
{
    assert((b + c).subrange(0, 4) =~= b.subrange(0, 4));
    assert(parse_u16(b + c, 4) == parse_u16(b, 4));
    let (version, p1) = parse_u16(b, 4).unwrap();
    assert((b + c)[p1] == b[p1]);
    lemma_parse_floor_stable(b, c, p1 + 2, version);
    let (_, p2) = parse_floor(b, p1 + 2, version).unwrap();
    lemma_parse_floor_stable(b, c, p2, version);
    let (_, p3) = parse_floor(b, p2, version).unwrap();
    lemma_parse_floor_stable(b, c, p3, version);
}

/// Input that does not start with the scene magic is refused.
pub proof fn lemma_scene_needs_magic(b: Seq<u8>)
    requires
        b.len() < 4 || b.subrange(0, 4) != scene_magic(),
    ensures
        parse_scene(b) is None,
{
}

/// A scene file cut short is refused: no proper prefix of a scene's bytes
/// reads as a scene, for every scene whose lists fit their counts.
pub proof fn lemma_truncated_scene_refused(s: SceneView, n: int)
    requires
        scene_counts_fit(s),
        0 <= n < ser_scene(s).len(),
    ensures
        parse_scene(ser_scene(s).subrange(0, n)) is None,
{
    let b = ser_scene(s);
    let t = b.subrange(0, n);
    lemma_scene_reads_back(s);
    if parse_scene(t) is Some {
        lemma_scene_ignores_trailing_bytes(t, b.subrange(n, b.len() as int));
        assert(t + b.subrange(n, b.len() as int) =~= b);
    }
}

// ---------------------------------------------------------------------------
// Files of older format versions.
// ---------------------------------------------------------------------------

/// A door record as a writer of format `version` lays it out: before v2 there
/// is no `reveals_as` byte.
pub open spec fn ser_door_at(d: Door, version: u16) -> Seq<u8> {
    if version >= 2 {
        ser_door(d)
    } else {
        le32(d.id) + (seq![door_kind_code(d.kind)] + (ser_pair(d.center) + (ser_pair(d.size) + le32(
            d.rot,
        ))))
    }
}

pub open spec fn door_ser_at(version: u16) -> spec_fn(Door) -> Seq<u8> {
    |x: Door| ser_door_at(x, version)
}

/// A door as a file of format `version` holds it: before v2 it reveals as
/// `Locked`.
pub open spec fn door_at(d: Door, version: u16) -> Door {
    if version >= 2 {
        d
    } else {
        Door { id: d.id, kind: d.kind, reveals_as: DoorKind::Locked, center: d.center, size: d.size, rot: d.rot }
    }
}

/// An item record as a writer of format `version` lays it out: before v6
/// there is no rotation.
pub open spec fn ser_item_at(it: ItemDefView, version: u16) -> Seq<u8> {
    if version >= 6 {
        ser_item(it)
    } else {
        le32(it.id) + (seq![item_kind_code(it.kind)] + (ser_pair(it.pos) + ser_name(it.name)))
    }
}

pub open spec fn item_ser_at(version: u16) -> spec_fn(ItemDefView) -> Seq<u8> {
    |x: ItemDefView| ser_item_at(x, version)
}

/// An item as a file of format `version` holds it: before v6 its rotation
/// is 0.
pub open spec fn item_at(it: ItemDefView, version: u16) -> ItemDefView {
    if version >= 6 {
        it
    } else {
        ItemDefView { id: it.id, kind: it.kind, name: it.name, pos: it.pos, rot: 0 }
    }
}

/// A counted list that a format version has, or nothing.
pub open spec fn ser_counted_since<T>(xs: Seq<T>, present: bool, g: spec_fn(T) -> Seq<u8>) -> Seq<u8> {
    if present {
        ser_counted(xs, g)
    } else {
        seq![]
    }
}

/// The bytes a writer of format `version` gives a floor: v3 added partitions,
/// v4 labels, v5 regions and triggers; v2 the doors' `reveals_as` byte and v6
/// the items' rotation.
pub open spec fn ser_floor_at(f: FloorView, version: u16) -> Seq<u8> {
    ser_frame(f.frame) + ser_counted(f.walls, wall_op_ser()) + ser_counted_since(
        f.partitions,
        version >= 3,
        wall_op_ser(),
    ) + ser_counted(f.obstacles, box_ser()) + ser_counted(f.doors, door_ser_at(version))
        + ser_counted(f.stairs, stair_ser()) + ser_counted(f.items, item_ser_at(version))
        + ser_counted_since(f.labels, version >= 4, label_ser()) + ser_counted_since(
        f.regions,
        version >= 5,
        region_ser(),
    ) + ser_counted_since(f.triggers, version >= 5, trigger_ser()) + ser_counted(
        f.links,
        link_ser(),
    )
}

/// What a file of format `version` holds of a floor: the lists that version
/// lacks are empty, doors before v2 reveal as `Locked`, items before v6 have
/// rotation 0.
pub open spec fn floor_at(f: FloorView, version: u16) -> FloorView {
    FloorView {
        frame: f.frame,
        walls: f.walls,
        partitions: if version >= 3 { f.partitions } else { seq![] },
        obstacles: f.obstacles,
        doors: f.doors.map_values(|d: Door| door_at(d, version)),
        stairs: f.stairs,
        items: f.items.map_values(|it: ItemDefView| item_at(it, version)),
        labels: if version >= 4 { f.labels } else { seq![] },
        regions: if version >= 5 { f.regions } else { seq![] },
        triggers: if version >= 5 { f.triggers } else { seq![] },
        links: f.links,
    }
}

proof fn lemma_parse_door_at(b: Seq<u8>, p: int, d: Door, version: u16)
    requires
        0 <= p,
        p + ser_door_at(d, version).len() <= b.len(),
        b.subrange(p, p + ser_door_at(d, version).len()) == ser_door_at(d, version),
    ensures
        parse_door(b, p, version) == Some((door_at(d, version), p + ser_door_at(d, version).len())),
{
    let tail = ser_pair(d.center) + (ser_pair(d.size) + le32(d.rot));
    lemma_le32(d.id);
    lemma_le32(d.rot);
    lemma_le32(d.center.0);
    lemma_le32(d.center.1);
    lemma_le32(d.size.0);
    lemma_le32(d.size.1);
    if version >= 2 {
        lemma_peel_u32(b, p, d.id, seq![door_kind_code(d.kind)] + (seq![door_kind_code(d.reveals_as)] + tail));
        lemma_peel_u8(b, p + 4, door_kind_code(d.kind), seq![door_kind_code(d.reveals_as)] + tail);
        lemma_peel_u8(b, p + 5, door_kind_code(d.reveals_as), tail);
        lemma_peel_pair(b, p + 6, d.center, ser_pair(d.size) + le32(d.rot));
        lemma_peel_pair(b, p + 14, d.size, le32(d.rot));
        lemma_parse_u32(b, p + 22, d.rot);
    } else {
        lemma_peel_u32(b, p, d.id, seq![door_kind_code(d.kind)] + tail);
        lemma_peel_u8(b, p + 4, door_kind_code(d.kind), tail);
        lemma_peel_pair(b, p + 5, d.center, ser_pair(d.size) + le32(d.rot));
        lemma_peel_pair(b, p + 13, d.size, le32(d.rot));
        lemma_parse_u32(b, p + 21, d.rot);
    }
}

proof fn lemma_parse_item_at(b: Seq<u8>, p: int, it: ItemDefView, version: u16)
    requires
        name_fits(it.name),
        0 <= p,
        p + ser_item_at(it, version).len() <= b.len(),
        b.subrange(p, p + ser_item_at(it, version).len()) == ser_item_at(it, version),
    ensures
        parse_item(b, p, version) == Some((item_at(it, version), p + ser_item_at(it, version).len())),
{
    let n = ser_name(it.name);
    lemma_stored_name_fits(it.name);
    if version >= 6 {
        lemma_peel_u32(b, p, it.id, seq![item_kind_code(it.kind)] + (ser_pair(it.pos) + (le32(it.rot) + n)));
        lemma_peel_u8(b, p + 4, item_kind_code(it.kind), ser_pair(it.pos) + (le32(it.rot) + n));
        lemma_peel_pair(b, p + 5, it.pos, le32(it.rot) + n);
        lemma_peel_u32(b, p + 13, it.rot, n);
        lemma_parse_any_name(b, p + 17, it.name);
    } else {
        lemma_peel_u32(b, p, it.id, seq![item_kind_code(it.kind)] + (ser_pair(it.pos) + n));
        lemma_peel_u8(b, p + 4, item_kind_code(it.kind), ser_pair(it.pos) + n);
        lemma_peel_pair(b, p + 5, it.pos, n);
        lemma_parse_any_name(b, p + 13, it.name);
    }
}

proof fn lemma_parse_floor_parts_at(
    b: Seq<u8>,
    p: int,
    g: FloorView,
    version: u16,
    q1: int,
    q2: int,
    q3: int,
    q4: int,
    q5: int,
    q6: int,
    q7: int,
    q8: int,
    q9: int,
    q10: int,
    q11: int,
)
    requires
        parse_frame(b, p) == Some((g.frame, q1)),
        parse_counted(b, q1, wall_op_parser()) == Some((g.walls, q2)),
        parse_counted_since(b, q2, version >= 3, wall_op_parser()) == Some((g.partitions, q3)),
        parse_counted(b, q3, box_parser()) == Some((g.obstacles, q4)),
        parse_counted(b, q4, door_parser(version)) == Some((g.doors, q5)),
        parse_counted(b, q5, stair_parser()) == Some((g.stairs, q6)),
        parse_counted(b, q6, item_parser(version)) == Some((g.items, q7)),
        parse_counted_since(b, q7, version >= 4, label_parser()) == Some((g.labels, q8)),
        parse_counted_since(b, q8, version >= 5, region_parser()) == Some((g.regions, q9)),
        parse_counted_since(b, q9, version >= 5, trigger_parser()) == Some((g.triggers, q10)),
        parse_counted(b, q10, link_parser()) == Some((g.links, q11)),
    ensures
        parse_floor(b, p, version) == Some((g, q11)),
{
    reveal(parse_floor);
    assert(g =~= FloorView {
        frame: g.frame,
        walls: g.walls,
        partitions: g.partitions,
        obstacles: g.obstacles,
        doors: g.doors,
        stairs: g.stairs,
        items: g.items,
        labels: g.labels,
        regions: g.regions,
        triggers: g.triggers,
        links: g.links,
    });
}

/// A list a version may lack reads back where a writer of that version put
/// it (or nothing).
proof fn lemma_parse_counted_since_ser<T>(
    b: Seq<u8>,
    p: int,
    xs: Seq<T>,
    present: bool,
    f: spec_fn(Seq<u8>, int) -> Option<(T, int)>,
    g: spec_fn(T) -> Seq<u8>,
)
    requires
        xs.len() <= u32::MAX,
        forall|i: int| 0 <= i < xs.len() ==> #[trigger] decodes(f, g, xs[i]),
        0 <= p,
        p + ser_counted_since(xs, present, g).len() <= b.len(),
        b.subrange(p, p + ser_counted_since(xs, present, g).len()) == ser_counted_since(xs, present, g),
    ensures
        parse_counted_since(b, p, present, f) == Some(
            (if present { xs } else { seq![] }, p + ser_counted_since(xs, present, g).len()),
        ),
{
    if present {
        lemma_parse_counted_ser(b, p, xs, f, g);
    }
}

/// A floor written in the layout of format `version` reads back, at that
/// version, as what such a file holds of it ([`floor_at`]): the bytes of a
/// v1-v5 writer are read as that version's layout, not the current one.
#[verifier::rlimit(100)]
pub proof fn lemma_parse_floor_at(b: Seq<u8>, p: int, f: FloorView, version: u16)
    requires
        floor_fits(f),
        0 <= p,
        p + ser_floor_at(f, version).len() <= b.len(),
        b.subrange(p, p + ser_floor_at(f, version).len()) == ser_floor_at(f, version),
    ensures
        parse_floor(b, p, version) == Some((floor_at(f, version), p + ser_floor_at(f, version).len())),
{
    let g = floor_at(f, version);
    let s0 = ser_frame(f.frame);
    let s1 = ser_counted(f.walls, wall_op_ser());
    let s2 = ser_counted_since(f.partitions, version >= 3, wall_op_ser());
    let s3 = ser_counted(f.obstacles, box_ser());
    let s4 = ser_counted(f.doors, door_ser_at(version));
    let s5 = ser_counted(f.stairs, stair_ser());
    let s6 = ser_counted(f.items, item_ser_at(version));
    let s7 = ser_counted_since(f.labels, version >= 4, label_ser());
    let s8 = ser_counted_since(f.regions, version >= 5, region_ser());
    let s9 = ser_counted_since(f.triggers, version >= 5, trigger_ser());
    let s10 = ser_counted(f.links, link_ser());
    let l0 = s0;
    let l1 = l0 + s1;
    let l2 = l1 + s2;
    let l3 = l2 + s3;
    let l4 = l3 + s4;
    let l5 = l4 + s5;
    let l6 = l5 + s6;
    let l7 = l6 + s7;
    let l8 = l7 + s8;
    let l9 = l8 + s9;
    let l10 = l9 + s10;
    assert(l10 == ser_floor_at(f, version));
    lemma_subrange_concat(b, p, l9, s10);
    lemma_subrange_concat(b, p, l8, s9);
    lemma_subrange_concat(b, p, l7, s8);
    lemma_subrange_concat(b, p, l6, s7);
    lemma_subrange_concat(b, p, l5, s6);
    lemma_subrange_concat(b, p, l4, s5);
    lemma_subrange_concat(b, p, l3, s4);
    lemma_subrange_concat(b, p, l2, s3);
    lemma_subrange_concat(b, p, l1, s2);
    lemma_subrange_concat(b, p, l0, s1);
    lemma_parse_frame(b, p, f.frame);
    assert(parse_counted(b, p + l0.len(), wall_op_parser()) == Some((g.walls, p + l1.len()))) by {
        assert forall|i: int| 0 <= i < f.walls.len() implies #[trigger] decodes(wall_op_parser(), wall_op_ser(), f.walls[i]) by {
            lemma_wall_op_decodes(f.walls[i]);
        }
        lemma_parse_counted_ser(b, p + l0.len(), f.walls, wall_op_parser(), wall_op_ser());
    }
    assert(parse_counted_since(b, p + l1.len(), version >= 3, wall_op_parser()) == Some((g.partitions, p + l2.len()))) by {
        assert forall|i: int| 0 <= i < f.partitions.len() implies #[trigger] decodes(wall_op_parser(), wall_op_ser(), f.partitions[i]) by {
            lemma_wall_op_decodes(f.partitions[i]);
        }
        lemma_parse_counted_since_ser(b, p + l1.len(), f.partitions, version >= 3, wall_op_parser(), wall_op_ser());
    }
    assert(parse_counted(b, p + l2.len(), box_parser()) == Some((g.obstacles, p + l3.len()))) by {
        assert forall|i: int| 0 <= i < f.obstacles.len() implies #[trigger] decodes(box_parser(), box_ser(), f.obstacles[i]) by {
            lemma_box_decodes(f.obstacles[i]);
        }
        lemma_parse_counted_ser(b, p + l2.len(), f.obstacles, box_parser(), box_ser());
    }
    assert(parse_counted(b, p + l3.len(), door_parser(version)) == Some((g.doors, p + l4.len()))) by {
        assert forall|i: int| 0 <= i < f.doors.len() implies #[trigger] decodes_as(door_parser(version), door_ser_at(version), f.doors[i], g.doors[i]) by {
            let x = f.doors[i];
            assert forall|bb: Seq<u8>, pp: int|
                0 <= pp && pp + ser_door_at(x, version).len() <= bb.len() && bb.subrange(pp, pp + ser_door_at(x, version).len()) == ser_door_at(x, version) implies
                #[trigger] door_parser(version)(bb, pp) == Some((door_at(x, version), pp + ser_door_at(x, version).len())) by {
                lemma_parse_door_at(bb, pp, x, version);
            }
        }
        lemma_parse_counted_ser_as(b, p + l3.len(), f.doors, g.doors, door_parser(version), door_ser_at(version));
    }
    assert(parse_counted(b, p + l4.len(), stair_parser()) == Some((g.stairs, p + l5.len()))) by {
        assert forall|i: int| 0 <= i < f.stairs.len() implies #[trigger] decodes(stair_parser(), stair_ser(), f.stairs[i]) by {
            lemma_stair_decodes(f.stairs[i]);
        }
        lemma_parse_counted_ser(b, p + l4.len(), f.stairs, stair_parser(), stair_ser());
    }
    assert(parse_counted(b, p + l5.len(), item_parser(version)) == Some((g.items, p + l6.len()))) by {
        assert forall|i: int| 0 <= i < f.items.len() implies #[trigger] decodes_as(item_parser(version), item_ser_at(version), f.items[i], g.items[i]) by {
            let x = f.items[i];
            assert(name_fits(x.name));
            assert forall|bb: Seq<u8>, pp: int|
                0 <= pp && pp + ser_item_at(x, version).len() <= bb.len() && bb.subrange(pp, pp + ser_item_at(x, version).len()) == ser_item_at(x, version) implies
                #[trigger] item_parser(version)(bb, pp) == Some((item_at(x, version), pp + ser_item_at(x, version).len())) by {
                lemma_parse_item_at(bb, pp, x, version);
            }
        }
        lemma_parse_counted_ser_as(b, p + l5.len(), f.items, g.items, item_parser(version), item_ser_at(version));
    }
    assert(parse_counted_since(b, p + l6.len(), version >= 4, label_parser()) == Some((g.labels, p + l7.len()))) by {
        assert forall|i: int| 0 <= i < f.labels.len() implies #[trigger] decodes(label_parser(), label_ser(), f.labels[i]) by {
            let x = f.labels[i];
            assert(name_fits(x.name));
            assert forall|bb: Seq<u8>, pp: int|
                0 <= pp && pp + ser_label(x).len() <= bb.len() && bb.subrange(pp, pp + ser_label(x).len()) == ser_label(x) implies
                #[trigger] label_parser()(bb, pp) == Some((x, pp + ser_label(x).len())) by {
                lemma_parse_label(bb, pp, x);
                lemma_stored_name_fits(x.name);
            }
        }
        lemma_parse_counted_since_ser(b, p + l6.len(), f.labels, version >= 4, label_parser(), label_ser());
    }
    assert(parse_counted_since(b, p + l7.len(), version >= 5, region_parser()) == Some((g.regions, p + l8.len()))) by {
        assert forall|i: int| 0 <= i < f.regions.len() implies #[trigger] decodes(region_parser(), region_ser(), f.regions[i]) by {
            let x = f.regions[i];
            assert(name_fits(x.name));
            assert forall|bb: Seq<u8>, pp: int|
                0 <= pp && pp + ser_region(x).len() <= bb.len() && bb.subrange(pp, pp + ser_region(x).len()) == ser_region(x) implies
                #[trigger] region_parser()(bb, pp) == Some((x, pp + ser_region(x).len())) by {
                lemma_parse_region(bb, pp, x);
                lemma_stored_name_fits(x.name);
            }
        }
        lemma_parse_counted_since_ser(b, p + l7.len(), f.regions, version >= 5, region_parser(), region_ser());
    }
    assert(parse_counted_since(b, p + l8.len(), version >= 5, trigger_parser()) == Some((g.triggers, p + l9.len()))) by {
        assert forall|i: int| 0 <= i < f.triggers.len() implies #[trigger] decodes(trigger_parser(), trigger_ser(), f.triggers[i]) by {
            lemma_trigger_decodes(f.triggers[i]);
        }
        lemma_parse_counted_since_ser(b, p + l8.len(), f.triggers, version >= 5, trigger_parser(), trigger_ser());
    }
    assert(parse_counted(b, p + l9.len(), link_parser()) == Some((g.links, p + l10.len()))) by {
        assert forall|i: int| 0 <= i < f.links.len() implies #[trigger] decodes(link_parser(), link_ser(), f.links[i]) by {
            lemma_link_decodes(f.links[i]);
        }
        lemma_parse_counted_ser(b, p + l9.len(), f.links, link_parser(), link_ser());
    }
    lemma_parse_floor_parts_at(b, p, g, version, p + l0.len(), p + l1.len(), p + l2.len(), p + l3.len(), p + l4.len(), p + l5.len(), p + l6.len(), p + l7.len(), p + l8.len(), p + l9.len(), p + l10.len());
}


/// The bytes a writer of format `version` gives a scene: the magic, that
/// version, the floor count, a reserved byte, then each floor in that format.
pub open spec fn ser_scene_at(s: SceneView, version: u16) -> Seq<u8> {
    scene_magic() + le16(version) + seq![NUM_FLOORS as u8, 0u8] + ser_floor_at(s.floors[0], version)
        + ser_floor_at(s.floors[1], version) + ser_floor_at(s.floors[2], version)
}

/// What a file of format `version` holds of a scene.
pub open spec fn scene_at(s: SceneView, version: u16) -> SceneView {
    SceneView {
        version,
        floors: seq![floor_at(s.floors[0], version), floor_at(s.floors[1], version), floor_at(s.floors[2], version)],
    }
}

proof fn lemma_parse_scene_parts(b: Seq<u8>, version: u16, g0: FloorView, g1: FloorView, g2: FloorView, p2: int, p3: int, p4: int)
    requires
        b.len() >= 8,
        b.subrange(0, 8) == scene_magic() + le16(version) + seq![NUM_FLOORS as u8, 0u8],
        parse_floor(b, 8, version) == Some((g0, p2)),
        parse_floor(b, p2, version) == Some((g1, p3)),
        parse_floor(b, p3, version) == Some((g2, p4)),
    ensures
        parse_scene(b) == Some((SceneView { version, floors: seq![g0, g1, g2] }, p4)),
{
    let h = scene_magic() + le16(version) + seq![NUM_FLOORS as u8, 0u8];
    lemma_le16(version);
    assert(b.subrange(0, 4) =~= scene_magic()) by {
        assert(b.subrange(0, 4) =~= b.subrange(0, 8).subrange(0, 4));
        assert(h.subrange(0, 4) =~= scene_magic());
    }
    assert(b[4] == h[4] && b[5] == h[5] && b[6] == h[6]) by {
        assert(b.subrange(0, 8)[4] == b[4]);
        assert(b.subrange(0, 8)[5] == b[5]);
        assert(b.subrange(0, 8)[6] == b[6]);
    }
    assert(from_le16(b, 4) == from_le16(le16(version), 0));
    assert(parse_u16(b, 4) == Some((version, 6int)));
}

/// A scene written by a writer of any format version reads back as what that
/// version holds of it, with that version, and the read consumes every byte:
/// reading accepts every older format, not only the current one.
#[verifier::spinoff_prover]
#[verifier::rlimit(100)]
pub proof fn lemma_scene_reads_version(s: SceneView, version: u16)
    requires
        scene_fits(s),
    ensures
        parse_scene(ser_scene_at(s, version)) == Some((scene_at(s, version), ser_scene_at(s, version).len() as int)),
{
    let b = ser_scene_at(s, version);
    let h = scene_magic() + le16(version) + seq![NUM_FLOORS as u8, 0u8];
    let a0 = ser_floor_at(s.floors[0], version);
    let a1 = ser_floor_at(s.floors[1], version);
    let a2 = ser_floor_at(s.floors[2], version);
    assert(b == h + a0 + a1 + a2);
    assert(b.subrange(0, b.len() as int) =~= b);
    lemma_subrange_concat(b, 0, h + a0 + a1, a2);
    lemma_subrange_concat(b, 0, h + a0, a1);
    lemma_subrange_concat(b, 0, h, a0);
    lemma_le16(version);
    assert(floor_fits(s.floors[0]));
    assert(floor_fits(s.floors[1]));
    assert(floor_fits(s.floors[2]));
    lemma_parse_floor_at(b, 8, s.floors[0], version);
    lemma_parse_floor_at(b, 8 + a0.len() as int, s.floors[1], version);
    lemma_parse_floor_at(b, (8 + a0.len() + a1.len()) as int, s.floors[2], version);
    lemma_parse_scene_parts(
        b,
        version,
        floor_at(s.floors[0], version),
        floor_at(s.floors[1], version),
        floor_at(s.floors[2], version),
        8 + a0.len() as int,
        (8 + a0.len() + a1.len()) as int,
        b.len() as int,
    );
}

} // verus!
