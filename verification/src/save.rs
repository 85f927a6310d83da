//! Per-slot player save: progress that lives outside the authored scene.
//!
//! `scene.bin` is the map; this is the player's state within it: which floor and
//! where they are, what they've picked up, which doors they've revealed or
//! unlocked, their inventory, how long they've played and when they saved.
//! Positions and the play time are single-precision floats, carried as their
//! IEEE-754 bit patterns.
//!
//! Layout (little-endian):
//!
//! ```text
//! magic  "IRSV"
//! u16    version
//! u8     player_floor
//! f32    player_x, player_y
//! u32    collected_count -> u32 id*
//! u32    revealed_count  -> { u8 floor, u32 door_id }*
//! u32    unlocked_count  -> { u8 floor, u32 door_id }*
//! u32    inventory_count -> { u32 id, u8 kind, u16 name_len, name }*
//! u32    item_box_count  -> { u32 id, u8 kind, u16 name_len, name }*   (v2)
//! f32    play_time (seconds)
//! u64    saved_at (unix seconds, UTC; 0 if unavailable)
//! ```

use vstd::prelude::*;
use crate::calendar::{
    civil_of, day_number, lemma_civil, lemma_day_number_unique, lemma_epoch_year,
    push_zero_padded, valid_date, zero_padded,
};
use crate::scene::{item_kind_code, item_kind_of, ItemDef, ItemDefView, ItemKind};
use crate::wire::{
    avail, decodes, from_le32, le16, le32, le64, lemma_le16, lemma_parse_counted_ser,
    lemma_parse_rep_step_fails, lemma_parse_u32, lemma_parse_u64,
    lemma_peel_u32, lemma_peel_u8, lemma_ser_seq_take, lemma_subrange_concat, name_fits,
    parse_counted, parse_name, parse_pair, parse_rep, parse_u16, parse_u32, parse_u64,
    parse_u8, put_count, put_f32, put_name, put_pair, put_u16, put_u32, put_u64, put_u8,
    ser_counted, ser_name, ser_pair, ser_seq, Cursor, decodes_as, lemma_ser_seq_fixed, lemma_parse_counted_ser_as,
    lemma_parse_any_name, lemma_stored_name_fits, stored_name, prefix_stable, reads_within, lemma_parse_counted_stable,
    lemma_parse_name_stable,
};

verus! {

/// v1 had no item box; v2 adds it. Reading still accepts v1.
pub const VERSION: u16 = 2;

#[derive(PartialEq, Eq, Debug)]
pub struct PlayerSave {
    pub player_floor: usize,
    /// The player position, as `f32` bit patterns.
    pub player: (u32, u32),
    pub collected: Vec<u32>,
    pub revealed: Vec<(usize, u32)>,
    pub unlocked: Vec<(usize, u32)>,
    pub inventory: Vec<ItemDef>,
    pub item_box: Vec<ItemDef>,
    /// Seconds played, as an `f32` bit pattern.
    pub play_time: u32,
    pub saved_at: u64,
}

#[verifier::ext_equal]
pub struct PlayerSaveView {
    pub player_floor: usize,
    pub player: (u32, u32),
    pub collected: Seq<u32>,
    pub revealed: Seq<(usize, u32)>,
    pub unlocked: Seq<(usize, u32)>,
    pub inventory: Seq<ItemDefView>,
    pub item_box: Seq<ItemDefView>,
    pub play_time: u32,
    pub saved_at: u64,
}

impl View for PlayerSave {
    type V = PlayerSaveView;

    open spec fn view(&self) -> PlayerSaveView {
        PlayerSaveView {
            player_floor: self.player_floor,
            player: self.player,
            collected: self.collected@,
            revealed: self.revealed@,
            unlocked: self.unlocked@,
            inventory: self.inventory@.map_values(|v: ItemDef| v@),
            item_box: self.item_box@.map_values(|v: ItemDef| v@),
            play_time: self.play_time,
            saved_at: self.saved_at,
        }
    }
}

/// A copy of a list of door references.
fn copy_door_refs(v: &Vec<(usize, u32)>) -> (r: Vec<(usize, u32)>)
    ensures
        r@ == v@,
{
    let mut r: Vec<(usize, u32)> = Vec::new();
    for i in 0..v.len()
        invariant
            r@ == v@.take(i as int),
    {
        r.push(v[i]);
        assert(v@.take(i as int).push(v@[i as int]) =~= v@.take(i + 1));
    }
    assert(v@.take(v.len() as int) =~= v@);
    r
}

impl Clone for PlayerSave {
    fn clone(&self) -> (r: PlayerSave)
        ensures
            r@ == self@,
    {
        let r = PlayerSave {
            player_floor: self.player_floor,
            player: self.player,
            collected: self.collected.clone(),
            revealed: copy_door_refs(&self.revealed),
            unlocked: copy_door_refs(&self.unlocked),
            inventory: self.inventory.clone(),
            item_box: self.item_box.clone(),
            play_time: self.play_time,
            saved_at: self.saved_at,
        };
        proof {
            assert(r.collected@ =~= self.collected@);
            assert forall|i: int| 0 <= i < self.inventory.len() implies r.inventory[i]@
                == self.inventory[i]@ by {
                assert(cloned(self.inventory[i], r.inventory[i]));
            }
            assert forall|i: int| 0 <= i < self.item_box.len() implies r.item_box[i]@
                == self.item_box[i]@ by {
                assert(cloned(self.item_box[i], r.item_box[i]));
            }
            assert(r@.inventory =~= self@.inventory);
            assert(r@.item_box =~= self@.item_box);
        }
        r
    }
}

// ---------------------------------------------------------------------------
// Records.
// ---------------------------------------------------------------------------

/// A door on a floor; the floor is stored in one byte.
pub open spec fn ser_door_ref(d: (usize, u32)) -> Seq<u8> {
    seq![d.0 as u8] + le32(d.1)
}

pub open spec fn parse_door_ref(b: Seq<u8>, p: int) -> Option<((usize, u32), int)> {
    if avail(b, p, 5) {
        Some(((b[p] as usize, from_le32(b, p + 1)), p + 5))
    } else {
        None
    }
}

/// An inventory item: its id, kind and name; the position is not stored.
pub open spec fn ser_save_item(it: ItemDefView) -> Seq<u8> {
    le32(it.id) + (seq![item_kind_code(it.kind)] + ser_name(it.name))
}

/// An inventory item record; it reads at position (0, 0) with rotation 0.
pub open spec fn parse_save_item(b: Seq<u8>, p: int) -> Option<(ItemDefView, int)> {
    match parse_u32(b, p) {
        Some((id, q1)) => match parse_u8(b, q1) {
            Some((k, q2)) => match item_kind_of(k) {
                Some(kind) => match parse_name(b, q2) {
                    Some((name, q3)) => Some(
                        (ItemDefView { id, kind, name, pos: (0u32, 0u32), rot: 0u32 }, q3),
                    ),
                    None => None,
                },
                None => None,
            },
            None => None,
        },
        None => None,
    }
}

/// A door reference as it reads back: its floor kept to the byte stored.
pub open spec fn stored_door_ref(d: (usize, u32)) -> (usize, u32) {
    ((d.0 as u8) as usize, d.1)
}

/// An inventory item as it reads back: its name cut to the bytes its field
/// keeps, at position (0, 0) with rotation 0.
pub open spec fn stored_save_item(it: ItemDefView) -> ItemDefView {
    ItemDefView { id: it.id, kind: it.kind, name: stored_name(it.name), pos: (0u32, 0u32), rot: 0u32 }
}

pub proof fn lemma_parse_door_ref(b: Seq<u8>, p: int, d: (usize, u32))
    requires
        0 <= p,
        p + 5 <= b.len(),
        b.subrange(p, p + 5) == ser_door_ref(d),
    ensures
        parse_door_ref(b, p) == Some((stored_door_ref(d), p + 5)),
{
    lemma_peel_u8(b, p, d.0 as u8, le32(d.1));
    lemma_parse_u32(b, p + 1, d.1);
}

pub proof fn lemma_parse_save_item(b: Seq<u8>, p: int, it: ItemDefView)
    requires
        0 <= p,
        p + ser_save_item(it).len() <= b.len(),
        b.subrange(p, p + ser_save_item(it).len()) == ser_save_item(it),
    ensures
        parse_save_item(b, p) == Some((stored_save_item(it), p + ser_save_item(it).len())),
{
    lemma_peel_u32(b, p, it.id, seq![item_kind_code(it.kind)] + ser_name(it.name));
    lemma_peel_u8(b, p + 4, item_kind_code(it.kind), ser_name(it.name));
    lemma_parse_any_name(b, p + 5, it.name);
}

fn write_door_ref(out: &mut Vec<u8>, d: (usize, u32))
    ensures
        final(out)@ == old(out)@ + ser_door_ref(d),
{
    put_u8(out, d.0 as u8);
    put_u32(out, d.1);
    assert(final(out)@ =~= old(out)@ + ser_door_ref(d));
}

fn read_door_ref(c: &mut Cursor) -> (r: Option<(usize, u32)>)
    ensures
        final(c).bytes == old(c).bytes,
        match parse_door_ref(old(c).bytes@, old(c).pos as int) {
            Some((v, q)) => r == Some(v) && final(c).pos == q,
            None => r is None,
        },
{
    if c.bytes.len() < 5 || c.pos > c.bytes.len() - 5 {
        return None;
    }
    let floor = c.u8().unwrap();
    let id = c.u32().unwrap();
    Some((floor as usize, id))
}

fn write_id(out: &mut Vec<u8>, id: u32)
    ensures
        final(out)@ == old(out)@ + le32(id),
{
    put_u32(out, id);
}

fn read_id(c: &mut Cursor) -> (r: Option<u32>)
    ensures
        final(c).bytes == old(c).bytes,
        match parse_u32(old(c).bytes@, old(c).pos as int) {
            Some((v, q)) => r == Some(v) && final(c).pos == q,
            None => r is None,
        },
{
    c.u32()
}

fn write_save_item(out: &mut Vec<u8>, it: &ItemDef)
    ensures
        final(out)@ == old(out)@ + ser_save_item(it@),
{
    put_u32(out, it.id);
    put_u8(out, it.kind.to_u8());
    put_name(out, &it.name);
    assert(final(out)@ =~= old(out)@ + ser_save_item(it@));
}

fn read_save_item(c: &mut Cursor) -> (r: Option<ItemDef>)
    ensures
        final(c).bytes == old(c).bytes,
        match parse_save_item(old(c).bytes@, old(c).pos as int) {
            Some((v, q)) => r matches Some(it) && it@ == v && final(c).pos == q,
            None => r is None,
        },
{
    let id = match c.u32() {
        Some(v) => v,
        None => return None,
    };
    let kind = match c.u8() {
        Some(k) => match ItemKind::from_u8(k) {
            Some(k) => k,
            None => return None,
        },
        None => return None,
    };
    let name = match c.name() {
        Some(n) => n,
        None => return None,
    };
    Some(ItemDef { id, kind, name, pos: (0, 0), rot: 0 })
}

// ---------------------------------------------------------------------------
// Record lists.
// ---------------------------------------------------------------------------

pub open spec fn id_ser() -> spec_fn(u32) -> Seq<u8> {
    |x: u32| le32(x)
}

pub open spec fn id_parser() -> spec_fn(Seq<u8>, int) -> Option<(u32, int)> {
    |b: Seq<u8>, p: int| parse_u32(b, p)
}

pub proof fn lemma_id_decodes(x: u32)
    ensures
        decodes(id_parser(), id_ser(), x),
{
    assert forall|b: Seq<u8>, p: int|
        0 <= p && p + le32(x).len() <= b.len() && b.subrange(p, p + le32(x).len()) == le32(x) implies
        #[trigger] id_parser()(b, p) == Some((x, p + le32(x).len())) by {
        lemma_parse_u32(b, p, x);
    }
}

fn write_ids(out: &mut Vec<u8>, xs: &Vec<u32>)
    ensures
        final(out)@ == old(out)@ + ser_counted(xs@, id_ser()),
{
    let ghost start = out@;
    let ghost all = xs@;
    put_count(out, xs.len());
    let mut i: usize = 0;
    while i < xs.len()
        invariant
            i <= xs.len(),
            all == xs@,
            all.len() == xs.len(),
            out@ == start + le32(xs.len() as u32) + ser_seq(all.take(i as int), id_ser()),
        decreases xs.len() - i,
    {
        proof {
            lemma_ser_seq_take(all, i as int, id_ser());
        }
        write_id(out, xs[i]);
        i = i + 1;
        assert(out@ =~= start + le32(xs.len() as u32) + ser_seq(all.take(i as int), id_ser()));
    }
    assert(all.take(xs.len() as int) =~= all);
    assert(out@ =~= old(out)@ + ser_counted(all, id_ser()));
}

fn read_ids(c: &mut Cursor) -> (r: Option<Vec<u32>>)
    ensures
        final(c).bytes == old(c).bytes,
        match parse_counted(old(c).bytes@, old(c).pos as int, id_parser()) {
            Some((xs, q)) => r matches Some(v) && v@ == xs && final(c).pos == q,
            None => r is None,
        },
{
    let ghost b = c.bytes@;
    let n = match c.u32() {
        Some(n) => n,
        None => return None,
    };
    let ghost q0 = c.pos as int;
    let mut v: Vec<u32> = Vec::new();
    let mut i: u32 = 0;
    while i < n
        invariant
            i <= n,
            c.bytes == old(c).bytes,
            b == old(c).bytes@,
            parse_u32(b, old(c).pos as int) == Some((n, q0)),
            parse_rep(b, q0, i as nat, id_parser()) == Some((v@, c.pos as int)),
        decreases n - i,
    {
        let ghost before = v@;
        let x = match read_id(c) {
            Some(x) => x,
            None => {
                proof {
                    lemma_parse_rep_step_fails(b, q0, i as nat, n as nat, id_parser());
                }
                return None;
            },
        };
        v.push(x);
        i = i + 1;
        assert(v@ =~= before.push(x));
    }
    Some(v)
}

pub open spec fn door_ref_ser() -> spec_fn((usize, u32)) -> Seq<u8> {
    |x: (usize, u32)| ser_door_ref(x)
}

pub open spec fn door_ref_parser() -> spec_fn(Seq<u8>, int) -> Option<((usize, u32), int)> {
    |b: Seq<u8>, p: int| parse_door_ref(b, p)
}

pub proof fn lemma_door_ref_decodes_as(x: (usize, u32))
    ensures
        decodes_as(door_ref_parser(), door_ref_ser(), x, stored_door_ref(x)),
{
    assert forall|b: Seq<u8>, p: int|
        0 <= p && p + ser_door_ref(x).len() <= b.len() && b.subrange(p, p + ser_door_ref(x).len()) == ser_door_ref(x) implies
        #[trigger] door_ref_parser()(b, p) == Some((stored_door_ref(x), p + ser_door_ref(x).len())) by {
        lemma_parse_door_ref(b, p, x);
    }
}

fn write_door_refs(out: &mut Vec<u8>, xs: &Vec<(usize, u32)>)
    ensures
        final(out)@ == old(out)@ + ser_counted(xs@, door_ref_ser()),
{
    let ghost start = out@;
    let ghost all = xs@;
    put_count(out, xs.len());
    let mut i: usize = 0;
    while i < xs.len()
        invariant
            i <= xs.len(),
            all == xs@,
            all.len() == xs.len(),
            out@ == start + le32(xs.len() as u32) + ser_seq(all.take(i as int), door_ref_ser()),
        decreases xs.len() - i,
    {
        proof {
            lemma_ser_seq_take(all, i as int, door_ref_ser());
        }
        write_door_ref(out, xs[i]);
        i = i + 1;
        assert(out@ =~= start + le32(xs.len() as u32) + ser_seq(all.take(i as int), door_ref_ser()));
    }
    assert(all.take(xs.len() as int) =~= all);
    assert(out@ =~= old(out)@ + ser_counted(all, door_ref_ser()));
}

fn read_door_refs(c: &mut Cursor) -> (r: Option<Vec<(usize, u32)>>)
    ensures
        final(c).bytes == old(c).bytes,
        match parse_counted(old(c).bytes@, old(c).pos as int, door_ref_parser()) {
            Some((xs, q)) => r matches Some(v) && v@ == xs && final(c).pos == q,
            None => r is None,
        },
{
    let ghost b = c.bytes@;
    let n = match c.u32() {
        Some(n) => n,
        None => return None,
    };
    let ghost q0 = c.pos as int;
    let mut v: Vec<(usize, u32)> = Vec::new();
    let mut i: u32 = 0;
    while i < n
        invariant
            i <= n,
            c.bytes == old(c).bytes,
            b == old(c).bytes@,
            parse_u32(b, old(c).pos as int) == Some((n, q0)),
            parse_rep(b, q0, i as nat, door_ref_parser()) == Some((v@, c.pos as int)),
        decreases n - i,
    {
        let ghost before = v@;
        let x = match read_door_ref(c) {
            Some(x) => x,
            None => {
                proof {
                    lemma_parse_rep_step_fails(b, q0, i as nat, n as nat, door_ref_parser());
                }
                return None;
            },
        };
        v.push(x);
        i = i + 1;
        assert(v@ =~= before.push(x));
    }
    Some(v)
}

pub open spec fn save_item_ser() -> spec_fn(ItemDefView) -> Seq<u8> {
    |x: ItemDefView| ser_save_item(x)
}

pub open spec fn save_item_parser() -> spec_fn(Seq<u8>, int) -> Option<(ItemDefView, int)> {
    |b: Seq<u8>, p: int| parse_save_item(b, p)
}

pub proof fn lemma_save_item_decodes_as(x: ItemDefView)
    ensures
        decodes_as(save_item_parser(), save_item_ser(), x, stored_save_item(x)),
{
    assert forall|b: Seq<u8>, p: int|
        0 <= p && p + ser_save_item(x).len() <= b.len() && b.subrange(p, p + ser_save_item(x).len()) == ser_save_item(x) implies
        #[trigger] save_item_parser()(b, p) == Some((stored_save_item(x), p + ser_save_item(x).len())) by {
        lemma_parse_save_item(b, p, x);
    }
}

fn write_save_items(out: &mut Vec<u8>, xs: &Vec<ItemDef>)
    ensures
        final(out)@ == old(out)@ + ser_counted(xs@.map_values(|v: ItemDef| v@), save_item_ser()),
{
    let ghost start = out@;
    let ghost all = xs@.map_values(|v: ItemDef| v@);
    put_count(out, xs.len());
    let mut i: usize = 0;
    while i < xs.len()
        invariant
            i <= xs.len(),
            all == xs@.map_values(|v: ItemDef| v@),
            all.len() == xs.len(),
            out@ == start + le32(xs.len() as u32) + ser_seq(all.take(i as int), save_item_ser()),
        decreases xs.len() - i,
    {
        proof {
            lemma_ser_seq_take(all, i as int, save_item_ser());
        }
        write_save_item(out, &xs[i]);
        i = i + 1;
        assert(out@ =~= start + le32(xs.len() as u32) + ser_seq(all.take(i as int), save_item_ser()));
    }
    assert(all.take(xs.len() as int) =~= all);
    assert(out@ =~= old(out)@ + ser_counted(all, save_item_ser()));
}

fn read_save_items(c: &mut Cursor) -> (r: Option<Vec<ItemDef>>)
    ensures
        final(c).bytes == old(c).bytes,
        match parse_counted(old(c).bytes@, old(c).pos as int, save_item_parser()) {
            Some((xs, q)) => r matches Some(v) && v@.map_values(|e: ItemDef| e@) == xs && final(c).pos == q,
            None => r is None,
        },
{
    let ghost b = c.bytes@;
    let n = match c.u32() {
        Some(n) => n,
        None => return None,
    };
    let ghost q0 = c.pos as int;
    let mut v: Vec<ItemDef> = Vec::new();
    let mut i: u32 = 0;
    while i < n
        invariant
            i <= n,
            c.bytes == old(c).bytes,
            b == old(c).bytes@,
            parse_u32(b, old(c).pos as int) == Some((n, q0)),
            parse_rep(b, q0, i as nat, save_item_parser()) == Some((v@.map_values(|e: ItemDef| e@), c.pos as int)),
        decreases n - i,
    {
        let ghost before = v@.map_values(|e: ItemDef| e@);
        let x = match read_save_item(c) {
            Some(x) => x,
            None => {
                proof {
                    lemma_parse_rep_step_fails(b, q0, i as nat, n as nat, save_item_parser());
                }
                return None;
            },
        };
        v.push(x);
        i = i + 1;
        assert(v@.map_values(|e: ItemDef| e@) =~= before.push(x@));
    }
    Some(v)
}

// ---------------------------------------------------------------------------
// The save.
// ---------------------------------------------------------------------------

/// `"IRSV"`.
pub open spec fn save_magic() -> Seq<u8> {
    seq![0x49u8, 0x52u8, 0x53u8, 0x56u8]
}

/// Bytes of a save in the current format. Floors are stored in one byte.
#[verifier::opaque]
pub open spec fn ser_save(s: PlayerSaveView) -> Seq<u8> {
    save_magic() + le16(VERSION) + seq![s.player_floor as u8] + ser_pair(s.player) + ser_counted(
        s.collected,
        id_ser(),
    ) + ser_counted(s.revealed, door_ref_ser()) + ser_counted(s.unlocked, door_ref_ser())
        + ser_counted(s.inventory, save_item_ser()) + ser_counted(s.item_box, save_item_ser())
        + le32(s.play_time) + le64(s.saved_at)
}

/// The save a byte string holds, with the position after it. A v1 save has no
/// item box and reads with an empty one.
#[verifier::opaque]
pub open spec fn parse_save(b: Seq<u8>) -> Option<(PlayerSaveView, int)> {
    if !(avail(b, 0, 4) && b.subrange(0, 4) == save_magic()) {
        None
    } else {
        match parse_u16(b, 4) {
            None => None,
            Some((version, p1)) => match parse_u8(b, p1) {
                None => None,
                Some((floor, p2)) => match parse_pair(b, p2) {
                    None => None,
                    Some((player, p3)) => match parse_counted(b, p3, id_parser()) {
                        None => None,
                        Some((collected, p4)) => match parse_counted(b, p4, door_ref_parser()) {
                            None => None,
                            Some((revealed, p5)) => match parse_counted(b, p5, door_ref_parser()) {
                                None => None,
                                Some((unlocked, p6)) => match parse_counted(
                                    b,
                                    p6,
                                    save_item_parser(),
                                ) {
                                    None => None,
                                    Some((inventory, p7)) => {
                                        let boxed: Option<(Seq<ItemDefView>, int)> = if version
                                            >= 2 {
                                            parse_counted(b, p7, save_item_parser())
                                        } else {
                                            Some((seq![], p7))
                                        };
                                        match boxed {
                                            None => None,
                                            Some((item_box, p8)) => match parse_u32(b, p8) {
                                                None => None,
                                                Some((play_time, p9)) => match parse_u64(b, p9) {
                                                    None => None,
                                                    Some((saved_at, p10)) => Some(
                                                        (
                                                            PlayerSaveView {
                                                                player_floor: floor as usize,
                                                                player,
                                                                collected,
                                                                revealed,
                                                                unlocked,
                                                                inventory,
                                                                item_box,
                                                                play_time,
                                                                saved_at,
                                                            },
                                                            p10,
                                                        ),
                                                    ),
                                                },
                                            },
                                        }
                                    },
                                },
                            },
                        },
                    },
                },
            },
        }
    }
}

/// Whether a save reads back whole: floors fit their byte, counts fit their
/// `u32`, names fit their record, and inventory items sit at (0, 0) with no
/// rotation (the format does not store them).
pub open spec fn save_fits(s: PlayerSaveView) -> bool {
    &&& s.player_floor < 256
    &&& s.collected.len() <= u32::MAX
    &&& s.revealed.len() <= u32::MAX
    &&& s.unlocked.len() <= u32::MAX
    &&& s.inventory.len() <= u32::MAX
    &&& s.item_box.len() <= u32::MAX
    &&& forall|i: int| 0 <= i < s.revealed.len() ==> (#[trigger] s.revealed[i]).0 < 256
    &&& forall|i: int| 0 <= i < s.unlocked.len() ==> (#[trigger] s.unlocked[i]).0 < 256
    &&& forall|i: int|
        0 <= i < s.inventory.len() ==> {
            let it = #[trigger] s.inventory[i];
            name_fits(it.name) && it.pos == (0u32, 0u32) && it.rot == 0
        }
    &&& forall|i: int|
        0 <= i < s.item_box.len() ==> {
            let it = #[trigger] s.item_box[i];
            name_fits(it.name) && it.pos == (0u32, 0u32) && it.rot == 0
        }
}

impl PlayerSave {
    /// The save's bytes in the current format.
    pub fn to_bytes(&self) -> (out: Vec<u8>)
        ensures
            out@ == ser_save(self@),
    {
        proof {
            reveal(ser_save);
        }
        let mut out: Vec<u8> = Vec::new();
        put_u8(&mut out, 0x49);
        put_u8(&mut out, 0x52);
        put_u8(&mut out, 0x53);
        put_u8(&mut out, 0x56);
        assert(out@ =~= save_magic());
        put_u16(&mut out, VERSION);
        put_u8(&mut out, self.player_floor as u8);
        put_pair(&mut out, self.player);
        write_ids(&mut out, &self.collected);
        write_door_refs(&mut out, &self.revealed);
        write_door_refs(&mut out, &self.unlocked);
        write_save_items(&mut out, &self.inventory);
        write_save_items(&mut out, &self.item_box);
        put_f32(&mut out, self.play_time);
        put_u64(&mut out, self.saved_at);
        out
    }

    /// The save `bytes` hold, in either format version; `None` when the magic
    /// or any record is wrong or cut short.
    pub fn from_bytes(bytes: &[u8]) -> (r: Option<PlayerSave>)
        ensures
            match parse_save(bytes@) {
                Some((v, _)) => r matches Some(s) && s@ == v,
                None => r is None,
            },
    {
        proof {
            reveal(parse_save);
        }
        let mut c = Cursor { bytes, pos: 0 };
        let magic = match c.take(4) {
            Some(m) => m,
            None => return None,
        };
        if !(magic[0] == 0x49 && magic[1] == 0x52 && magic[2] == 0x53 && magic[3] == 0x56) {
            proof {
                assert(magic@ != save_magic()) by {
                    if magic@ == save_magic() {
                        assert(magic@[0] == 0x49 && magic@[1] == 0x52);
                        assert(magic@[2] == 0x53 && magic@[3] == 0x56);
                    }
                }
            }
            return None;
        }
        assert(magic@ =~= save_magic());
        let version = match c.u16() {
            Some(v) => v,
            None => return None,
        };
        let player_floor = match c.u8() {
            Some(v) => v as usize,
            None => return None,
        };
        let player = match c.pair() {
            Some(v) => v,
            None => return None,
        };
        let collected = match read_ids(&mut c) {
            Some(v) => v,
            None => return None,
        };
        let revealed = match read_door_refs(&mut c) {
            Some(v) => v,
            None => return None,
        };
        let unlocked = match read_door_refs(&mut c) {
            Some(v) => v,
            None => return None,
        };
        let inventory = match read_save_items(&mut c) {
            Some(v) => v,
            None => return None,
        };
        // v2 added the item box.
        let item_box = if version >= 2 {
            match read_save_items(&mut c) {
                Some(v) => v,
                None => return None,
            }
        } else {
            Vec::new()
        };
        let play_time = match c.float_bits() {
            Some(v) => v,
            None => return None,
        };
        let saved_at = match c.u64() {
            Some(v) => v,
            None => return None,
        };
        let s = PlayerSave {
            player_floor,
            player,
            collected,
            revealed,
            unlocked,
            inventory,
            item_box,
            play_time,
            saved_at,
        };
        proof {
            assert(s.inventory@.map_values(|v: ItemDef| v@) =~= inventory@.map_values(
                |v: ItemDef| v@,
            ));
            assert(s.item_box@.map_values(|v: ItemDef| v@) =~= item_box@.map_values(
                |v: ItemDef| v@,
            ));
        }
        Some(s)
    }
}

/// A current-format save is its fields, one after another.
proof fn lemma_parse_save_parts(
    b: Seq<u8>,
    s: PlayerSaveView,
    q3: int,
    q4: int,
    q5: int,
    q6: int,
    q7: int,
    q8: int,
    q9: int,
    q10: int,
    q11: int,
)
    requires
        s.player_floor < 256,
        avail(b, 0, 4) && b.subrange(0, 4) == save_magic(),
        parse_u16(b, 4) == Some((VERSION, 6int)),
        parse_u8(b, 6) == Some((s.player_floor as u8, 7int)),
        parse_pair(b, 7) == Some((s.player, q3)),
        parse_counted(b, q3, id_parser()) == Some((s.collected, q4)),
        parse_counted(b, q4, door_ref_parser()) == Some((s.revealed, q5)),
        parse_counted(b, q5, door_ref_parser()) == Some((s.unlocked, q6)),
        parse_counted(b, q6, save_item_parser()) == Some((s.inventory, q7)),
        parse_counted(b, q7, save_item_parser()) == Some((s.item_box, q8)),
        parse_u32(b, q8) == Some((s.play_time, q9)),
        parse_u64(b, q9) == Some((s.saved_at, q10)),
        q11 == q10,
    ensures
        parse_save(b) == Some((s, q11)),
{
    reveal(parse_save);
    assert(s =~= PlayerSaveView {
        player_floor: (s.player_floor as u8) as usize,
        player: s.player,
        collected: s.collected,
        revealed: s.revealed,
        unlocked: s.unlocked,
        inventory: s.inventory,
        item_box: s.item_box,
        play_time: s.play_time,
        saved_at: s.saved_at,
    });
}

/// Where each field of a save stands in its bytes.
#[verifier::spinoff_prover]
#[verifier::rlimit(40)]
proof fn lemma_save_layout(s: PlayerSaveView)
    ensures
        ({
            let b = ser_save(s);
            let o4: int = 15 + ser_counted(s.collected, id_ser()).len() as int;
            let o5: int = o4 + ser_counted(s.revealed, door_ref_ser()).len();
            let o6: int = o5 + ser_counted(s.unlocked, door_ref_ser()).len();
            let o7: int = o6 + ser_counted(s.inventory, save_item_ser()).len();
            let o8: int = o7 + ser_counted(s.item_box, save_item_ser()).len();
            &&& b.len() == o8 + 12
            &&& b.subrange(0, 4) == save_magic()
            &&& b.subrange(4, 6) == le16(VERSION)
            &&& b[6] == s.player_floor as u8
            &&& b.subrange(7, 15) == ser_pair(s.player)
            &&& b.subrange(15, o4) == ser_counted(s.collected, id_ser())
            &&& b.subrange(o4, o5) == ser_counted(s.revealed, door_ref_ser())
            &&& b.subrange(o5, o6) == ser_counted(s.unlocked, door_ref_ser())
            &&& b.subrange(o6, o7) == ser_counted(s.inventory, save_item_ser())
            &&& b.subrange(o7, o8) == ser_counted(s.item_box, save_item_ser())
            &&& b.subrange(o8, o8 + 4) == le32(s.play_time)
            &&& b.subrange(o8 + 4, o8 + 12) == le64(s.saved_at)
        }),
{
    let b = ser_save(s);
    let s0 = save_magic();
    let s1 = le16(VERSION);
    let s2 = seq![s.player_floor as u8];
    let s3 = ser_pair(s.player);
    let s4 = ser_counted(s.collected, id_ser());
    let s5 = ser_counted(s.revealed, door_ref_ser());
    let s6 = ser_counted(s.unlocked, door_ref_ser());
    let s7 = ser_counted(s.inventory, save_item_ser());
    let s8 = ser_counted(s.item_box, save_item_ser());
    let s9 = le32(s.play_time);
    let s10 = le64(s.saved_at);
    let l0 = s0;
    let l1 = l0 + s1;
    let l2 = l1 + s2;
    let l3 = l2 + s3;
    let l4 = l3 + s4;
    let l5 = l4 + s5;
    let l6 = l5 + s6;
    let l7 = l6 + s7;
    let l8 = l7 + s8;
    let l9 = l8 + s9;
    let l10 = l9 + s10;
    assert(l10 == b) by {
        reveal(ser_save);
    }
    crate::wire::lemma_le32(s.play_time);
    crate::wire::lemma_le64(s.saved_at);
    assert(b.subrange(0, b.len() as int) =~= b);
    lemma_subrange_concat(b, 0, l9, s10);
    lemma_subrange_concat(b, 0, l8, s9);
    lemma_subrange_concat(b, 0, l7, s8);
    lemma_subrange_concat(b, 0, l6, s7);
    lemma_subrange_concat(b, 0, l5, s6);
    lemma_subrange_concat(b, 0, l4, s5);
    lemma_subrange_concat(b, 0, l3, s4);
    lemma_subrange_concat(b, 0, l2, s3);
    lemma_subrange_concat(b, 0, l1, s2);
    lemma_subrange_concat(b, 0, l0, s1);
    assert(b.subrange(6, 7)[0] == b[6]);
}

/// A save as it reads back: floors kept to the byte stored, names cut to
/// the bytes their fields keep, inventory items at (0, 0) with rotation 0.
pub open spec fn stored_save(s: PlayerSaveView) -> PlayerSaveView {
    PlayerSaveView {
        player_floor: (s.player_floor as u8) as usize,
        player: s.player,
        collected: s.collected,
        revealed: s.revealed.map_values(|d: (usize, u32)| stored_door_ref(d)),
        unlocked: s.unlocked.map_values(|d: (usize, u32)| stored_door_ref(d)),
        inventory: s.inventory.map_values(|it: ItemDefView| stored_save_item(it)),
        item_box: s.item_box.map_values(|it: ItemDefView| stored_save_item(it)),
        play_time: s.play_time,
        saved_at: s.saved_at,
    }
}

/// Whether every list of the save fits its `u32` count.
pub open spec fn save_counts_fit(s: PlayerSaveView) -> bool {
    &&& s.collected.len() <= u32::MAX
    &&& s.revealed.len() <= u32::MAX
    &&& s.unlocked.len() <= u32::MAX
    &&& s.inventory.len() <= u32::MAX
    &&& s.item_box.len() <= u32::MAX
}

/// Any save whose lists fit their counts reads back from its bytes as
/// [`stored_save`] of it, and the read consumes every byte.
pub proof fn lemma_save_reads_back(s: PlayerSaveView)
    requires
        save_counts_fit(s),
    ensures
        parse_save(ser_save(s)) == Some((stored_save(s), ser_save(s).len() as int)),
{
    let b = ser_save(s);
    let t = stored_save(s);
    lemma_save_layout(s);
    let o4: int = 15 + ser_counted(s.collected, id_ser()).len() as int;
    let o5: int = o4 + ser_counted(s.revealed, door_ref_ser()).len();
    let o6: int = o5 + ser_counted(s.unlocked, door_ref_ser()).len();
    let o7: int = o6 + ser_counted(s.inventory, save_item_ser()).len();
    let o8: int = o7 + ser_counted(s.item_box, save_item_ser()).len();
    lemma_le16(VERSION);
    assert(parse_u16(b, 4) == Some((VERSION, 6int))) by {
        assert(b.subrange(4, 6)[0] == b[4]);
        assert(b.subrange(4, 6)[1] == b[5]);
    }
    crate::wire::lemma_parse_pair(b, 7, s.player);
    assert(parse_counted(b, 15, id_parser()) == Some((s.collected, o4))) by {
        assert forall|i: int| 0 <= i < s.collected.len() implies #[trigger] decodes(
            id_parser(),
            id_ser(),
            s.collected[i],
        ) by {
            lemma_id_decodes(s.collected[i]);
        }
        lemma_parse_counted_ser(b, 15, s.collected, id_parser(), id_ser());
    }
    assert(parse_counted(b, o4, door_ref_parser()) == Some((t.revealed, o5))) by {
        assert forall|i: int| 0 <= i < s.revealed.len() implies #[trigger] decodes_as(
            door_ref_parser(),
            door_ref_ser(),
            s.revealed[i],
            t.revealed[i],
        ) by {
            lemma_door_ref_decodes_as(s.revealed[i]);
        }
        lemma_parse_counted_ser_as(b, o4, s.revealed, t.revealed, door_ref_parser(), door_ref_ser());
    }
    assert(parse_counted(b, o5, door_ref_parser()) == Some((t.unlocked, o6))) by {
        assert forall|i: int| 0 <= i < s.unlocked.len() implies #[trigger] decodes_as(
            door_ref_parser(),
            door_ref_ser(),
            s.unlocked[i],
            t.unlocked[i],
        ) by {
            lemma_door_ref_decodes_as(s.unlocked[i]);
        }
        lemma_parse_counted_ser_as(b, o5, s.unlocked, t.unlocked, door_ref_parser(), door_ref_ser());
    }
    assert(parse_counted(b, o6, save_item_parser()) == Some((t.inventory, o7))) by {
        assert forall|i: int| 0 <= i < s.inventory.len() implies #[trigger] decodes_as(
            save_item_parser(),
            save_item_ser(),
            s.inventory[i],
            t.inventory[i],
        ) by {
            lemma_save_item_decodes_as(s.inventory[i]);
        }
        lemma_parse_counted_ser_as(b, o6, s.inventory, t.inventory, save_item_parser(), save_item_ser());
    }
    assert(parse_counted(b, o7, save_item_parser()) == Some((t.item_box, o8))) by {
        assert forall|i: int| 0 <= i < s.item_box.len() implies #[trigger] decodes_as(
            save_item_parser(),
            save_item_ser(),
            s.item_box[i],
            t.item_box[i],
        ) by {
            lemma_save_item_decodes_as(s.item_box[i]);
        }
        lemma_parse_counted_ser_as(b, o7, s.item_box, t.item_box, save_item_parser(), save_item_ser());
    }
    lemma_parse_u32(b, o8, s.play_time);
    lemma_parse_u64(b, o8 + 4, s.saved_at);
    lemma_parse_save_parts(b, t, 15, o4, o5, o6, o7, o8, o8 + 4, o8 + 12, b.len() as int);
}

/// A save reads back from its bytes as itself, and the read consumes every
/// byte, when it fits its format (see [`save_fits`]).
pub proof fn lemma_save_round_trip(s: PlayerSaveView)
    requires
        save_fits(s),
    ensures
        parse_save(ser_save(s)) == Some((s, ser_save(s).len() as int)),
{
    lemma_save_reads_back(s);
    let t = stored_save(s);
    assert forall|i: int| 0 <= i < s.revealed.len() implies t.revealed[i] == s.revealed[i] by {
        assert(s.revealed[i].0 < 256);
    }
    assert forall|i: int| 0 <= i < s.unlocked.len() implies t.unlocked[i] == s.unlocked[i] by {
        assert(s.unlocked[i].0 < 256);
    }
    assert forall|i: int| 0 <= i < s.inventory.len() implies t.inventory[i] == s.inventory[i] by {
        lemma_stored_name_fits(s.inventory[i].name);
    }
    assert forall|i: int| 0 <= i < s.item_box.len() implies t.item_box[i] == s.item_box[i] by {
        lemma_stored_name_fits(s.item_box[i].name);
    }
    assert(t =~= s);
}

/// A counted list of fixed-width values standing at `o`: its count, then
/// value `i` at `o + 4 + w * i`.
proof fn lemma_counted_fixed_at<T>(b: Seq<u8>, o: int, xs: Seq<T>, g: spec_fn(T) -> Seq<u8>, w: int, i: int)
    requires
        0 <= w,
        forall|x: T| #[trigger] g(x).len() == w,
        0 <= o,
        o + ser_counted(xs, g).len() <= b.len(),
        b.subrange(o, o + ser_counted(xs, g).len()) == ser_counted(xs, g),
    ensures
        ser_counted(xs, g).len() == 4 + w * xs.len(),
        b.subrange(o, o + 4) == le32(xs.len() as u32),
        0 <= i < xs.len() ==> b.subrange(o + 4 + w * i, o + 4 + w * i + w) == g(xs[i]),
{
    crate::wire::lemma_le32(xs.len() as u32);
    lemma_ser_seq_fixed(xs, g, w, i);
    let c = ser_counted(xs, g);
    assert(b.subrange(o, o + 4) =~= c.subrange(0, 4));
    if 0 <= i < xs.len() {
        assert(w * i + w <= w * xs.len()) by (nonlinear_arith)
            requires
                0 <= i < xs.len(),
                0 <= w,
        ;
        assert(0 <= w * i) by (nonlinear_arith)
            requires
                0 <= i,
                0 <= w,
        ;
        let l = c.len() as int;
        let base = o + 4 + w * i;
        let sb = w * i;
        let ss = ser_seq(xs, g);
        assert(c == le32(xs.len() as u32) + ss);
        assert forall|k: int| 0 <= k < w implies #[trigger] b[base + k] == ss[sb + k] by {
            assert(b.subrange(o, o + l)[4 + sb + k] == b[base + k]);
            assert(c[4 + sb + k] == ss[sb + k]);
        }
        let lhs = b.subrange(base, base + w);
        let rhs = ss.subrange(sb, sb + w);
        assert forall|k: int| 0 <= k < w implies #[trigger] lhs[k] == rhs[k] by {
            assert(b[base + k] == ss[sb + k]);
        }
        assert(lhs =~= rhs);
    }
}

/// A door reference's bytes: the floor byte, then the little-endian id.
proof fn lemma_door_ref_bytes(b: Seq<u8>, q: int, d: (usize, u32))
    requires
        0 <= q,
        q + 5 <= b.len(),
        b.subrange(q, q + 5) == ser_door_ref(d),
    ensures
        b[q] == d.0 as u8,
        b.subrange(q + 1, q + 5) == le32(d.1),
{
    crate::wire::lemma_le32(d.1);
    assert(b[q] == b.subrange(q, q + 5)[0]);
    assert(b.subrange(q + 1, q + 5) =~= ser_door_ref(d).subrange(1, 5));
}

/// The door references of a save as they stand in its bytes: after the
/// header (magic, version, floor, position: 15 bytes) and the collected ids
/// (a `u32` count and one `u32` each), the revealed doors and then the unlocked
/// doors, each a `u32` count followed by, per door, its floor as one byte and
/// then its id as a little-endian `u32`.
#[verifier::spinoff_prover]
pub proof fn lemma_save_door_layout(s: PlayerSaveView)
    ensures
        ({
            let b = ser_save(s);
            let o: int = 19 + 4 * s.collected.len() as int;
            let o2: int = o + 4 + 5 * s.revealed.len();
            &&& b.subrange(15, 19) == le32(s.collected.len() as u32)
            &&& forall|i: int| 0 <= i < s.collected.len() ==> b.subrange(19 + 4 * i, 23 + 4 * i) == le32(#[trigger] s.collected[i])
            &&& b.subrange(o, o + 4) == le32(s.revealed.len() as u32)
            &&& forall|i: int| 0 <= i < s.revealed.len() ==> b[o + 4 + 5 * i] == (#[trigger] s.revealed[i]).0 as u8
                && b.subrange(o + 5 + 5 * i, o + 9 + 5 * i) == le32(s.revealed[i].1)
            &&& b.subrange(o2, o2 + 4) == le32(s.unlocked.len() as u32)
            &&& forall|i: int| 0 <= i < s.unlocked.len() ==> b[o2 + 4 + 5 * i] == (#[trigger] s.unlocked[i]).0 as u8
                && b.subrange(o2 + 5 + 5 * i, o2 + 9 + 5 * i) == le32(s.unlocked[i].1)
        }),
{
    let b = ser_save(s);
    lemma_save_layout(s);
    assert forall|x: u32| #[trigger] id_ser()(x).len() == 4 by {
        crate::wire::lemma_le32(x);
    }
    assert forall|x: (usize, u32)| #[trigger] door_ref_ser()(x).len() == 5 by {
        crate::wire::lemma_le32(x.1);
    }
    let o4: int = 15 + ser_counted(s.collected, id_ser()).len() as int;
    let o5: int = o4 + ser_counted(s.revealed, door_ref_ser()).len();
    lemma_counted_fixed_at(b, 15, s.collected, id_ser(), 4, 0);
    lemma_counted_fixed_at(b, o4, s.revealed, door_ref_ser(), 5, 0);
    lemma_counted_fixed_at(b, o5, s.unlocked, door_ref_ser(), 5, 0);
    assert forall|i: int| 0 <= i < s.collected.len() implies b.subrange(19 + 4 * i, 23 + 4 * i) == le32(#[trigger] s.collected[i]) by {
        lemma_counted_fixed_at(b, 15, s.collected, id_ser(), 4, i);
    }
    assert forall|i: int| 0 <= i < s.revealed.len() implies b[o4 + 4 + 5 * i] == (#[trigger] s.revealed[i]).0 as u8
        && b.subrange(o4 + 5 + 5 * i, o4 + 9 + 5 * i) == le32(s.revealed[i].1) by {
        lemma_counted_fixed_at(b, o4, s.revealed, door_ref_ser(), 5, i);
        lemma_door_ref_bytes(b, o4 + 4 + 5 * i, s.revealed[i]);
    }
    assert forall|i: int| 0 <= i < s.unlocked.len() implies b[o5 + 4 + 5 * i] == (#[trigger] s.unlocked[i]).0 as u8
        && b.subrange(o5 + 5 + 5 * i, o5 + 9 + 5 * i) == le32(s.unlocked[i].1) by {
        lemma_counted_fixed_at(b, o5, s.unlocked, door_ref_ser(), 5, i);
        lemma_door_ref_bytes(b, o5 + 4 + 5 * i, s.unlocked[i]);
    }
}

// ---------------------------------------------------------------------------
// Reading only looks at the bytes it consumes.
// ---------------------------------------------------------------------------

/// Each save record parser reads only the bytes it consumes.
proof fn lemma_save_records_prefix_stable()
    ensures
        prefix_stable(id_parser()),
        prefix_stable(door_ref_parser()),
        prefix_stable(save_item_parser()),
{
    assert forall|b: Seq<u8>, c: Seq<u8>, p: int| #[trigger] reads_within(save_item_parser(), b, c, p) by {
        if let Some((_, q1)) = parse_u32(b, p) {
            if let Some((_, q2)) = parse_u8(b, q1) {
                lemma_parse_name_stable(b, c, q2);
            }
        }
    }
    assert forall|b: Seq<u8>, c: Seq<u8>, p: int| #[trigger] reads_within(id_parser(), b, c, p) by {}
    assert forall|b: Seq<u8>, c: Seq<u8>, p: int| #[trigger] reads_within(door_ref_parser(), b, c, p) by {}
}

/// Bytes after a save are ignored: a save reads the same with anything
/// appended, and the read ends within the bytes before them.
pub proof fn lemma_save_ignores_trailing_bytes(b: Seq<u8>, c: Seq<u8>)
    requires
        parse_save(b) is Some,
    ensures
        parse_save(b + c) == parse_save(b),
        parse_save(b).unwrap().1 <= b.len(),
{
    reveal(parse_save);
    lemma_save_records_prefix_stable();
    assert((b + c).subrange(0, 4) =~= b.subrange(0, 4));
    let (version, p1) = parse_u16(b, 4).unwrap();
    assert(parse_u16(b + c, 4) == parse_u16(b, 4));
    let (_, p2) = parse_u8(b, p1).unwrap();
    assert(parse_u8(b + c, p1) == parse_u8(b, p1));
    let (_, p3) = parse_pair(b, p2).unwrap();
    assert(parse_pair(b + c, p2) == parse_pair(b, p2));
    lemma_parse_counted_stable(b, c, p3, id_parser());
    let (_, p4) = parse_counted(b, p3, id_parser()).unwrap();
    lemma_parse_counted_stable(b, c, p4, door_ref_parser());
    let (_, p5) = parse_counted(b, p4, door_ref_parser()).unwrap();
    lemma_parse_counted_stable(b, c, p5, door_ref_parser());
    let (_, p6) = parse_counted(b, p5, door_ref_parser()).unwrap();
    lemma_parse_counted_stable(b, c, p6, save_item_parser());
    let (_, p7) = parse_counted(b, p6, save_item_parser()).unwrap();
    let p8 = if version >= 2 {
        lemma_parse_counted_stable(b, c, p7, save_item_parser());
        parse_counted(b, p7, save_item_parser()).unwrap().1
    } else {
        p7
    };
    assert(parse_u32(b + c, p8) == parse_u32(b, p8));
    assert(parse_u64(b + c, p8 + 4) == parse_u64(b, p8 + 4));
}

/// Input that does not start with the save magic is refused.
pub proof fn lemma_save_needs_magic(b: Seq<u8>)
    requires
        b.len() < 4 || b.subrange(0, 4) != save_magic(),
    ensures
        parse_save(b) is None,
{
    reveal(parse_save);
}

/// A save file cut short is refused: no proper prefix of a save's bytes reads
/// as a save, for every save whose lists fit their counts.
pub proof fn lemma_truncated_save_refused(s: PlayerSaveView, n: int)
    requires
        save_counts_fit(s),
        0 <= n < ser_save(s).len(),
    ensures
        parse_save(ser_save(s).subrange(0, n)) is None,
{
    let b = ser_save(s);
    let t = b.subrange(0, n);
    lemma_save_reads_back(s);
    if parse_save(t) is Some {
        lemma_save_ignores_trailing_bytes(t, b.subrange(n, b.len() as int));
        assert(t + b.subrange(n, b.len() as int) =~= b);
    }
}

// ---------------------------------------------------------------------------
// Timestamps.
// ---------------------------------------------------------------------------

/// The calendar date `z` days after 1970-01-01, or before it for negative `z`
/// (Howard Hinnant's days-from-civil, inverted). The bound keeps the year
/// arithmetic within `i64`.
fn civil_from_days(z: i64) -> (r: (i64, u32, u32))
    requires
        -281474976710656 <= z <= 281474976710656,
    ensures
        valid_date(r.0 as int, r.1 as int, r.2 as int),
        day_number(r.0 as int, r.1 as int, r.2 as int) == z,
{
    proof {
        lemma_civil(z as int);
    }
    let z = z + 719_468;
    let era = (if z >= 0 { z } else { z - 146_096 }) / 146_097;
    proof {
        // Rounding the shifted negative count toward zero is flooring it.
        let zz = z as int;
        vstd::arithmetic::div_mod::lemma_fundamental_div_mod(zz, 146097);
        if zz < 0 {
            let q = zz / 146097;
            let r = zz % 146097;
            assert(-(zz - 146096) == -146097 * q + (146096 - r));
            vstd::arithmetic::div_mod::lemma_fundamental_div_mod_converse(
                -(zz - 146096),
                146097,
                -q,
                146096 - r,
            );
        }
        assert(era == zz / 146097);
    }
    let doe = z - era * 146_097;
    let yoe = (doe - doe / 1460 + doe / 36_524 - doe / 146_096) / 365;
    let y = yoe + era * 400;
    let doy = doe - (365 * yoe + yoe / 4 - yoe / 100);
    let mp = (5 * doy + 2) / 153;
    let d = (doy - (153 * mp + 2) / 5 + 1) as u32;
    let m = (if mp < 10 { mp + 3 } else { mp - 9 }) as u32;
    (if m <= 2 { y + 1 } else { y }, m, d)
}

/// `secs` after the Unix epoch as `YYYY-MM-DD HH:MM` in UTC, or `--` for 0.
pub open spec fn utc_stamp(secs: nat) -> Seq<char> {
    if secs == 0 {
        seq!['-', '-']
    } else {
        let date = civil_of((secs / 86400) as int);
        let rem = secs % 86400;
        zero_padded(date.0 as nat, 4) + seq!['-'] + zero_padded(date.1 as nat, 2) + seq!['-']
            + zero_padded(date.2 as nat, 2) + seq![' '] + zero_padded(rem / 3600, 2) + seq![':']
            + zero_padded((rem % 3600) / 60, 2)
    }
}

/// Formats unix seconds as `YYYY-MM-DD HH:MM` in UTC; `0` (no timestamp)
/// gives `--`.
pub fn format_unix_utc(secs: u64) -> (s: String)
    ensures
        s@ == utc_stamp(secs as nat),
{
    proof {
        reveal_strlit("--");
        reveal_strlit("-");
        reveal_strlit(" ");
        reveal_strlit(":");
    }
    if secs == 0 {
        return String::from_str("--");
    }
    let days = (secs / 86_400) as i64;
    let rem = secs % 86_400;
    let (hour, minute) = (rem / 3600, (rem % 3600) / 60);
    let (y, m, d) = civil_from_days(days);
    proof {
        lemma_epoch_year(y as int, m as int, d as int);
        let t = civil_of(days as int);
        assert(valid_date(t.0, t.1, t.2) && day_number(t.0, t.1, t.2) == days);
        lemma_day_number_unique(t.0, t.1, t.2, y as int, m as int, d as int);
    }
    let mut s = String::new();
    push_zero_padded(&mut s, y as u64, 4);
    s.append("-");
    push_zero_padded(&mut s, m as u64, 2);
    s.append("-");
    push_zero_padded(&mut s, d as u64, 2);
    s.append(" ");
    push_zero_padded(&mut s, hour, 2);
    s.append(":");
    push_zero_padded(&mut s, minute, 2);
    proof {
        assert(s@ =~= utc_stamp(secs as nat));
    }
    s
}


} // verus!
