//! Baking a [`Scene`](crate::scene::Scene) into the binary assets the running
//! map consumes: the nav grids, `stairs.bin` and `items.bin`, and the overlay
//! compositing.
//!
//! The nav algorithm: impassable geometry (walls + obstacles + locked doors) is
//! grown by a clearance, the exterior is flood-filled, and only then are
//! unlocked/unknown doors carved through.

use vstd::prelude::*;
use crate::raster::{clamp0, near, reachable, Mask};
use crate::scene::{item_kind_code, Link, Scene, SceneView, StairNode, NUM_FLOORS};
use crate::wire::{
    avail, decodes_as, le32, lemma_le32, lemma_parse_counted_ser_as, lemma_parse_u32, parse_counted,
    parse_pair, parse_u32, parse_u8, ser_counted, ser_seq,
};
use vstd::utf8::encode_utf8;

verus! {

pub const CELL_PX: u32 = 8;

pub const SOLID_CELL_PX: u32 = 2;

pub const CLEARANCE_CELLS: i32 = 2;

pub const DOOR_DILATION_CELLS: i32 = 1;

/// Before the exterior flood-fill, the geometry is closed by this much so that
/// doorways and corridor mouths don't let the "outside" leak into the rooms. The
/// radius must exceed half the widest opening but stay under the gap to the map
/// frame.
pub const SEAL_CELLS: i32 = 16;

pub const OVERLAY_WIDTH: i32 = 2048;

/// An RGBA overlay image.
#[derive(Clone, PartialEq, Eq, Debug)]
pub struct OverlayBytes {
    pub rgba: Vec<u8>,
    pub w: i32,
    pub h: i32,
}

/// Every baked asset: per floor an overlay, the nav grid (locked doors block),
/// the open nav grid (locked doors do not block) and the solid grid; and the
/// stair and item tables.
#[derive(Clone, PartialEq, Eq, Debug)]
pub struct BakedBytes {
    pub overlays: [OverlayBytes; 3],
    pub nav: [Vec<u8>; 3],
    pub nav_open: [Vec<u8>; 3],
    pub solid: [Vec<u8>; 3],
    pub stairs: Vec<u8>,
    pub items: Vec<u8>,
}

/// A table with no records: a zero count.
pub fn empty_bin() -> (r: Vec<u8>)
    ensures
        r@ == le32(0),
{
    let mut r = Vec::new();
    crate::wire::put_u32(&mut r, 0);
    r
}

/// The bits of `a` with the bits of `b` set over the part they share.
pub open spec fn or_bits(a: Seq<bool>, b: Seq<bool>) -> Seq<bool> {
    Seq::new(a.len(), |i: int| a[i] || (i < b.len() && b[i]))
}

/// A copy of `a` with every bit of `b` set over the bytes they share.
pub fn or(a: &Mask, b: &Mask) -> (r: Mask)
    ensures
        r.w == a.w,
        r.h == a.h,
        r@ == or_bits(a@, b@),
{
    let mut out = a.clone();
    out.or_with(b);
    assert(out@ =~= or_bits(a@, b@));
    out
}

/// The impassable geometry the walk grid is built around: walls and obstacles,
/// and the locked doors when they count.
pub open spec fn walk_base_bits(
    walls: Seq<bool>,
    obstacles: Seq<bool>,
    locked: Seq<bool>,
    include_locked: bool,
) -> Seq<bool> {
    if include_locked {
        or_bits(or_bits(walls, obstacles), locked)
    } else {
        or_bits(walls, obstacles)
    }
}

/// Whether every cell of `base` within the seal radius of `(x, y)` has geometry
/// within the seal radius of it: the geometry closed by the seal radius.
pub open spec fn sealed_cell(base: Mask, x: int, y: int) -> bool {
    forall|xx: int, yy: int|
        base.in_bounds(xx, yy) && x - SEAL_CELLS <= xx <= x + SEAL_CELLS && y - SEAL_CELLS <= yy
            <= y + SEAL_CELLS ==> #[trigger] near(base, xx, yy, SEAL_CELLS as int)
}

/// `walk` is the walk grid built from the impassable geometry `base` and its
/// unsealed complement `open`: a cell of the `w` x `h` grid is walkable when it
/// is at least the clearance away from geometry and not reachable from the
/// border through `open` (not exterior), or when it is a door cell.
pub open spec fn walk_from(
    walk: Mask,
    base: Mask,
    open: Mask,
    walls: Mask,
    obstacles: Mask,
    locked: Mask,
    doors: spec_fn(int, int) -> bool,
    include_locked: bool,
    w: i32,
    h: i32,
) -> bool {
    &&& base.w == walls.w
    &&& base.h == walls.h
    &&& base@ == walk_base_bits(walls@, obstacles@, locked@, include_locked)
    &&& open.w == walls.w
    &&& open.h == walls.h
    &&& forall|x: int, y: int| #[trigger] open.cell(x, y) == (base.in_bounds(x, y) && !sealed_cell(base, x, y))
    &&& walk.w == clamp0(w)
    &&& walk.h == clamp0(h)
    &&& forall|x: int, y: int|
        #[trigger] walk.cell(x, y) == (walk.in_bounds(x, y) && ((base.in_bounds(x, y) && !near(
            base,
            x,
            y,
            CLEARANCE_CELLS as int,
        ) && !reachable(open, x, y)) || doors(x, y)))
}

/// The walk grid for the given geometry and door cells, as [`walk_from`]
/// describes it for some geometry mask and open mask of the walls' size.
pub open spec fn walk_spec(
    walk: Mask,
    walls: Mask,
    obstacles: Mask,
    locked: Mask,
    doors: spec_fn(int, int) -> bool,
    include_locked: bool,
    w: i32,
    h: i32,
) -> bool {
    exists|base: Mask, open: Mask|
        #[trigger] walk_from(walk, base, open, walls, obstacles, locked, doors, include_locked, w, h)
}

/// The walkable grid: free space (geometry grown by the clearance) that is not
/// exterior, plus the carved door cells. The exterior is flood-filled on the
/// geometry closed by the seal radius, so it cannot leak through doorways into
/// the rooms, while navigation still uses the unsealed free space.
pub fn build_walk(
    walls: &Mask,
    obstacles: &Mask,
    locked: &Mask,
    doors: &Mask,
    include_locked: bool,
    w: i32,
    h: i32,
) -> (walk: Mask)
    requires
        walls.wf(),
        doors.wf(),
        clamp0(w) * clamp0(h) <= 0x8000_0000,
    ensures
        walk.wf(),
        walk.padding_clear(),
        walk_spec(walk, *walls, *obstacles, *locked, |x: int, y: int| doors.cell(x, y), include_locked, w, h),
{
    let mut base = or(walls, obstacles);
    if include_locked {
        base = or(&base, locked);
    }
    assert(base@ == walk_base_bits(walls@, obstacles@, locked@, include_locked));
    assert(base.wf());
    let free = base.dilate(CLEARANCE_CELLS).not();
    let grown = base.dilate(SEAL_CELLS);
    let sealed = grown.erode(SEAL_CELLS);
    let open = sealed.not();
    proof {
        assert forall|x: int, y: int| #[trigger] open.cell(x, y) == (base.in_bounds(x, y) && !sealed_cell(base, x, y)) by {
            if base.in_bounds(x, y) {
                if sealed_cell(base, x, y) {
                    assert forall|xx: int, yy: int| grown.in_bounds(xx, yy) && x - SEAL_CELLS <= xx <= x + SEAL_CELLS && y - SEAL_CELLS <= yy <= y + SEAL_CELLS implies #[trigger] grown.cell(xx, yy) by {
                        assert(near(base, xx, yy, SEAL_CELLS as int));
                    }
                    assert(sealed.cell(x, y));
                } else {
                    let (xx, yy) = choose|xx: int, yy: int| !(base.in_bounds(xx, yy) && x - SEAL_CELLS <= xx <= x + SEAL_CELLS && y - SEAL_CELLS <= yy <= y + SEAL_CELLS ==> #[trigger] near(base, xx, yy, SEAL_CELLS as int));
                    assert(!grown.cell(xx, yy));
                    assert(!sealed.cell(x, y));
                }
            }
        }
    }
    let exterior = open.flood_from_border();
    let mut walk = Mask::new(w, h);
    let ghost ww = walk.w as int;
    proof {
        assert forall|xx: int, yy: int| !#[trigger] walk.cell(xx, yy) by {
            if walk.in_bounds(xx, yy) {
                walk.lemma_index(xx, yy);
            }
        }
    }
    let ghost inside = |x: int, y: int| (base.in_bounds(x, y) && !near(base, x, y, CLEARANCE_CELLS as int) && !reachable(open, x, y)) || doors.cell(x, y);
    let mut y: i32 = 0;
    while y < h
        invariant
            walk.wf(),
            walk.w == clamp0(w),
            walk.h == clamp0(h),
            ww == walk.w,
            0 <= y,
            y <= h || y == 0,
            free.wf(),
            exterior.wf(),
            doors.wf(),
            forall|x: int, yy: int| #[trigger] free.cell(x, yy) == (base.in_bounds(x, yy) && !near(base, x, yy, CLEARANCE_CELLS as int)),
            forall|x: int, yy: int| #[trigger] exterior.cell(x, yy) == reachable(open, x, yy),
            forall|a: int, b: int| #[trigger] inside(a, b) == ((base.in_bounds(a, b) && !near(base, a, b, CLEARANCE_CELLS as int) && !reachable(open, a, b)) || doors.cell(a, b)),
            forall|i: int| walk.w * walk.h <= i < walk@.len() ==> !#[trigger] walk@[i],
            forall|x: int, yy: int| #[trigger] walk.cell(x, yy) == (walk.in_bounds(x, yy) && crate::raster::before(x, yy, 0, y as int) && inside(x, yy)),
        decreases h - y,
    {
        let mut x: i32 = 0;
        while x < w
            invariant
                walk.wf(),
                walk.w == clamp0(w),
                walk.h == clamp0(h),
                ww == walk.w,
                0 <= y < h,
                0 <= x,
                x <= w || x == 0,
                free.wf(),
                exterior.wf(),
                doors.wf(),
                forall|x: int, yy: int| #[trigger] free.cell(x, yy) == (base.in_bounds(x, yy) && !near(base, x, yy, CLEARANCE_CELLS as int)),
                forall|x: int, yy: int| #[trigger] exterior.cell(x, yy) == reachable(open, x, yy),
                forall|a: int, b: int| #[trigger] inside(a, b) == ((base.in_bounds(a, b) && !near(base, a, b, CLEARANCE_CELLS as int) && !reachable(open, a, b)) || doors.cell(a, b)),
                forall|i: int| walk.w * walk.h <= i < walk@.len() ==> !#[trigger] walk@[i],
                forall|xx: int, yy: int| #[trigger] walk.cell(xx, yy) == (walk.in_bounds(xx, yy) && crate::raster::before(xx, yy, x as int, y as int) && inside(xx, yy)),
            decreases w - x,
        {
            let inside_now = free.get(x, y) && !exterior.get(x, y);
            let v = inside_now || doors.get(x, y);
            let ghost prev = walk;
            proof {
                walk.lemma_index(x as int, y as int);
            }
            walk.set(x, y, v);
            proof {
                assert forall|xx: int, yy: int| #[trigger] walk.cell(xx, yy) == (walk.in_bounds(xx, yy) && crate::raster::before(xx, yy, x + 1, y as int) && inside(xx, yy)) by {
                    if walk.in_bounds(xx, yy) {
                        walk.lemma_index(xx, yy);
                        if yy * ww + xx == y * ww + x {
                            crate::raster::lemma_index_injective(ww, xx, yy, x as int, y as int);
                            assert(walk.cell(x as int, y as int) == v);
                            assert(v == inside(x as int, y as int));
                        }
                        assert(prev.cell(xx, yy) == (prev.in_bounds(xx, yy) && crate::raster::before(xx, yy, x as int, y as int) && inside(xx, yy)));
                    }
                }
                assert forall|i: int| walk.w * walk.h <= i < walk@.len() implies !#[trigger] walk@[i] by {
                    assert(walk@[i] == prev@[i]);
                }
            }
            x = x + 1;
        }
        proof {
            assert forall|xx: int, yy: int| #[trigger] walk.cell(xx, yy) == (walk.in_bounds(xx, yy) && crate::raster::before(xx, yy, 0, y + 1) && inside(xx, yy)) by {
                assert(walk.in_bounds(xx, yy) ==> crate::raster::before(xx, yy, x as int, y as int) == crate::raster::before(xx, yy, 0, y + 1));
            }
        }
        y = y + 1;
    }
    proof {
        assert forall|xx: int, yy: int| #[trigger] walk.cell(xx, yy) == (walk.in_bounds(xx, yy) && inside(xx, yy)) by {
            assert(walk.in_bounds(xx, yy) ==> crate::raster::before(xx, yy, 0, y as int));
        }
        assert(walk_from(walk, base, open, *walls, *obstacles, *locked, |x: int, y: int| doors.cell(x, y), include_locked, w, h));
    }
    walk
}

/// A door cell after carving: within one cell of an unlocked door prop, and not
/// on walls, obstacles or locked doors inside the `w` x `h` grid.
pub open spec fn carved_door(unlocked: Mask, walls: Mask, obstacles: Mask, locked: Mask, w: int, h: int, x: int, y: int) -> bool {
    unlocked.in_bounds(x, y) && near(unlocked, x, y, DOOR_DILATION_CELLS as int) && !(0 <= x < w && 0
        <= y < h && (walls.cell(x, y) || obstacles.cell(x, y) || locked.cell(x, y)))
}

/// [`carved_door`] as a cell predicate.
pub open spec fn carved_doors(unlocked: Mask, walls: Mask, obstacles: Mask, locked: Mask, w: int, h: int) -> spec_fn(int, int) -> bool {
    |x: int, y: int| carved_door(unlocked, walls, obstacles, locked, w, h, x, y)
}

/// Unlocked doors are carved through, but only where there is no real geometry.
pub fn carve_doors(unlocked: &Mask, walls: &Mask, obstacles: &Mask, locked: &Mask, w: i32, h: i32) -> (doors: Mask)
    requires
        unlocked.wf(),
        walls.wf(),
        obstacles.wf(),
        locked.wf(),
    ensures
        doors.wf(),
        forall|x: int, y: int| #[trigger] doors.cell(x, y) == carved_door(*unlocked, *walls, *obstacles, *locked, w as int, h as int, x, y),
{
    let mut doors = unlocked.dilate(DOOR_DILATION_CELLS);
    let ghost dw = doors.w as int;
    let mut y: i32 = 0;
    while y < h
        invariant
            doors.wf(),
            doors.w == unlocked.w,
            doors.h == unlocked.h,
            dw == doors.w,
            walls.wf(),
            obstacles.wf(),
            locked.wf(),
            0 <= y,
            y <= h || y == 0,
            forall|x: int, yy: int| #[trigger] doors.cell(x, yy) == (unlocked.in_bounds(x, yy) && near(*unlocked, x, yy, DOOR_DILATION_CELLS as int) && !(0 <= x < w && 0 <= yy < y && (walls.cell(x, yy) || obstacles.cell(x, yy) || locked.cell(x, yy)))),
        decreases h - y,
    {
        let mut x: i32 = 0;
        while x < w
            invariant
                doors.wf(),
                doors.w == unlocked.w,
                doors.h == unlocked.h,
                dw == doors.w,
                walls.wf(),
                obstacles.wf(),
                locked.wf(),
                0 <= y < h,
                0 <= x,
                x <= w || x == 0,
                forall|xx: int, yy: int| #[trigger] doors.cell(xx, yy) == (unlocked.in_bounds(xx, yy) && near(*unlocked, xx, yy, DOOR_DILATION_CELLS as int) && !(0 <= xx < w && 0 <= yy < h && crate::raster::before(xx, yy, x as int, y as int) && (walls.cell(xx, yy) || obstacles.cell(xx, yy) || locked.cell(xx, yy)))),
            decreases w - x,
        {
            if doors.get(x, y) && (walls.get(x, y) || obstacles.get(x, y) || locked.get(x, y)) {
                let ghost prev = doors;
                proof {
                    doors.lemma_index(x as int, y as int);
                }
                doors.set(x, y, false);
                proof {
                    assert forall|xx: int, yy: int| #[trigger] doors.cell(xx, yy) == (prev.cell(xx, yy) && !(xx == x && yy == y)) by {
                        if doors.in_bounds(xx, yy) {
                            doors.lemma_index(xx, yy);
                            if yy * dw + xx == y * dw + x {
                                crate::raster::lemma_index_injective(dw, xx, yy, x as int, y as int);
                            }
                        }
                    }
                }
            }
            x = x + 1;
        }
        y = y + 1;
    }
    doors
}

/// The nav grid and the open nav grid of a floor from its rasterised walls,
/// obstacles, locked (and unknown) doors and unlocked doors: the walk grid with
/// locked doors counted as geometry, and the one without, each packed with
/// [`Mask::to_bytes`] at [`CELL_PX`].
pub fn bake_nav_grids(walls: &Mask, obstacles: &Mask, locked: &Mask, unlocked: &Mask, w: i32, h: i32) -> (r: (Vec<u8>, Vec<u8>))
    requires
        walls.wf(),
        obstacles.wf(),
        locked.wf(),
        unlocked.wf(),
        clamp0(w) * clamp0(h) <= 0x8000_0000,
    ensures
        exists|walk: Mask|
            walk.wf() && walk.padding_clear() && #[trigger] walk_spec(walk, *walls, *obstacles, *locked, carved_doors(*unlocked, *walls, *obstacles, *locked, w as int, h as int), true, w, h)
                && r.0@ == le32(CELL_PX) + le32(walk.w as u32) + le32(walk.h as u32) + crate::raster::pack(walk@),
        exists|walk: Mask|
            walk.wf() && walk.padding_clear() && #[trigger] walk_spec(walk, *walls, *obstacles, *locked, carved_doors(*unlocked, *walls, *obstacles, *locked, w as int, h as int), false, w, h)
                && r.1@ == le32(CELL_PX) + le32(walk.w as u32) + le32(walk.h as u32) + crate::raster::pack(walk@),
{
    let doors = carve_doors(unlocked, walls, obstacles, locked, w, h);
    let walk = build_walk(walls, obstacles, locked, &doors, true, w, h);
    let walk_open = build_walk(walls, obstacles, locked, &doors, false, w, h);
    proof {
        let d1 = |x: int, y: int| doors.cell(x, y);
        let d2 = carved_doors(*unlocked, *walls, *obstacles, *locked, w as int, h as int);
        assert(d1 == d2);
        assert(walk_spec(walk, *walls, *obstacles, *locked, d2, true, w, h));
        assert(walk_spec(walk_open, *walls, *obstacles, *locked, d2, false, w, h));
    }
    let nav = walk.to_bytes(CELL_PX);
    let nav_open = walk_open.to_bytes(CELL_PX);
    (nav, nav_open)
}

/// Whether pixel `p` of a canvas `w` pixels wide lies on a set cell of `mask`.
pub open spec fn painted(mask: Mask, w: int, p: int) -> bool {
    w > 0 && 0 <= p && mask.cell(p % w, p / w)
}

/// Byte `c` of an opaque RGBA pixel of colour `tint`.
pub open spec fn tint_byte(tint: (u8, u8, u8), c: int) -> u8 {
    if c == 0 {
        tint.0
    } else if c == 1 {
        tint.1
    } else if c == 2 {
        tint.2
    } else {
        255
    }
}

proof fn lemma_pixel(w: int, x: int, y: int)
    requires
        0 <= x < w,
        0 <= y,
    ensures
        (y * w + x) / w == y,
        (y * w + x) % w == x,
{
    vstd::arithmetic::div_mod::lemma_fundamental_div_mod_converse(y * w + x, w, y, x);
}

proof fn lemma_pixel_row(w: int, p: int, h: int)
    requires
        0 < w,
        0 <= p,
        p / w < h,
    ensures
        p < h * w,
{
    vstd::arithmetic::div_mod::lemma_fundamental_div_mod(p, w);
    let q = p / w;
    let r = p % w;
    assert(p < h * w) by (nonlinear_arith)
        requires
            p == w * q + r,
            0 <= r < w,
            q < h,
            0 < w,
    ;
}

/// Paint the set cells of `mask` onto an RGBA canvas `w` pixels wide in the
/// opaque colour `tint`; other pixels keep their bytes.
pub fn composite(canvas: &mut Vec<u8>, w: i32, mask: &Mask, tint: (u8, u8, u8))
    requires
        mask.wf(),
        forall|x: int, y: int|
            0 <= x < w && #[trigger] mask.cell(x, y) ==> 4 * (y * w + x) + 4 <= old(canvas)@.len() && 4
                * (y * w + x) <= i32::MAX,
    ensures
        final(canvas)@.len() == old(canvas)@.len(),
        forall|j: int|
            0 <= j < old(canvas)@.len() ==> #[trigger] final(canvas)@[j] == if painted(*mask, w as int, j / 4) {
                tint_byte(tint, j % 4)
            } else {
                old(canvas)@[j]
            },
{
    let ghost orig = canvas@;
    let ghost ww = w as int;
    let mut y: i32 = 0;
    while y < mask.h
        invariant
            mask.wf(),
            ww == w,
            orig == old(canvas)@,
            canvas@.len() == orig.len(),
            0 <= y <= mask.h,
            forall|x: int, yy: int|
                0 <= x < w && #[trigger] mask.cell(x, yy) ==> 4 * (yy * w + x) + 4 <= orig.len() && 4
                    * (yy * w + x) <= i32::MAX,
            forall|j: int|
                0 <= j < orig.len() ==> #[trigger] canvas@[j] == if painted(*mask, ww, j / 4) && j / 4 < y * ww {
                    tint_byte(tint, j % 4)
                } else {
                    orig[j]
                },
        decreases mask.h - y,
    {
        let mut x: i32 = 0;
        while x < w
            invariant
                mask.wf(),
                ww == w,
                orig == old(canvas)@,
                canvas@.len() == orig.len(),
                0 <= y < mask.h,
                0 <= x,
                x <= w || x == 0,
                forall|x: int, yy: int|
                    0 <= x < w && #[trigger] mask.cell(x, yy) ==> 4 * (yy * w + x) + 4 <= orig.len() && 4
                        * (yy * w + x) <= i32::MAX,
                forall|j: int|
                    0 <= j < orig.len() ==> #[trigger] canvas@[j] == if painted(*mask, ww, j / 4) && j / 4 < y * ww + x {
                        tint_byte(tint, j % 4)
                    } else {
                        orig[j]
                    },
            decreases w - x,
        {
            proof {
                lemma_pixel(ww, x as int, y as int);
            }
            if mask.get(x, y) {
                let i = ((y * w + x) * 4) as usize;
                let ghost prev = canvas@;
                canvas.set(i, tint.0);
                canvas.set(i + 1, tint.1);
                canvas.set(i + 2, tint.2);
                canvas.set(i + 3, 255);
                proof {
                    assert forall|j: int| 0 <= j < orig.len() implies #[trigger] canvas@[j] == if painted(*mask, ww, j / 4) && j / 4 < y * ww + x + 1 {
                        tint_byte(tint, j % 4)
                    } else {
                        orig[j]
                    } by {
                        if i <= j < i + 4 {
                            assert(j / 4 == y * ww + x);
                        } else {
                            assert(canvas@[j] == prev[j]);
                        }
                    }
                }
            } else {
                proof {
                    assert forall|j: int| 0 <= j < orig.len() implies #[trigger] canvas@[j] == if painted(*mask, ww, j / 4) && j / 4 < y * ww + x + 1 {
                        tint_byte(tint, j % 4)
                    } else {
                        orig[j]
                    } by {
                        if j / 4 == y * ww + x {
                            assert(!painted(*mask, ww, j / 4));
                        }
                    }
                }
            }
            x = x + 1;
        }
        proof {
            crate::raster::lemma_row_step(y as int, ww);
        }
        y = y + 1;
    }
    proof {
        assert forall|j: int| 0 <= j < orig.len() implies #[trigger] canvas@[j] == if painted(*mask, ww, j / 4) {
            tint_byte(tint, j % 4)
        } else {
            orig[j]
        } by {
            if painted(*mask, ww, j / 4) {
                lemma_pixel_row(ww, j / 4, mask.h as int);
                vstd::arithmetic::mul::lemma_mul_is_commutative(ww, mask.h as int);
            }
        }
    }
}

// ---------------------------------------------------------------------------
// Stairs.
// ---------------------------------------------------------------------------

/// The position of the first stair node with this id.
pub open spec fn first_stair(stairs: Seq<StairNode>, id: u32) -> Option<(u32, u32)>
    decreases stairs.len(),
{
    if stairs.len() == 0 {
        None
    } else if stairs[0].id == id {
        Some(stairs[0].pos)
    } else {
        first_stair(stairs.drop_first(), id)
    }
}

/// The position of stair node `id` on floor `floor`, if both exist.
pub open spec fn stair_pos(s: SceneView, floor: int, id: u32) -> Option<(u32, u32)> {
    if 0 <= floor < s.floors.len() {
        first_stair(s.floors[floor].stairs, id)
    } else {
        None
    }
}

/// A baked stair link: both floors and both endpoint positions.
pub type StairRecord = (u8, u8, (u32, u32), (u32, u32));

/// The record of a link, when it is a stair link whose two ends exist.
pub open spec fn link_stair_record(s: SceneView, l: Link) -> Option<StairRecord> {
    match l {
        Link::Stair { a_floor, a_id, b_floor, b_id } => match (
            stair_pos(s, a_floor as int, a_id),
            stair_pos(s, b_floor as int, b_id),
        ) {
            (Some(a), Some(b)) => Some((a_floor, b_floor, a, b)),
            _ => None,
        },
        _ => None,
    }
}

/// The stair records of `links`, in order.
pub open spec fn stair_records_of(s: SceneView, links: Seq<Link>) -> Seq<StairRecord>
    decreases links.len(),
{
    if links.len() == 0 {
        seq![]
    } else {
        let rest = stair_records_of(s, links.drop_last());
        match link_stair_record(s, links.last()) {
            Some(r) => rest.push(r),
            None => rest,
        }
    }
}

/// The stair records of the scene: floor by floor, link by link.
pub open spec fn stair_records(s: SceneView) -> Seq<StairRecord> {
    stair_records_of(s, s.floors[0].links) + stair_records_of(s, s.floors[1].links)
        + stair_records_of(s, s.floors[2].links)
}

pub open spec fn ser_stair_record(r: StairRecord) -> Seq<u8> {
    le32(r.0 as u32) + le32(r.1 as u32) + le32(r.2.0) + le32(r.2.1) + le32(r.3.0) + le32(r.3.1)
}

pub open spec fn stair_record_ser() -> spec_fn(StairRecord) -> Seq<u8> {
    |r: StairRecord| ser_stair_record(r)
}

/// The position of stair node `id` on floor `floor`.
pub fn find_stair(scene: &Scene, floor: usize, id: u32) -> (r: Option<(u32, u32)>)
    ensures
        r == stair_pos(scene@, floor as int, id),
{
    if floor >= NUM_FLOORS {
        return None;
    }
    let stairs = &scene.floors[floor].stairs;
    let ghost all = stairs@;
    assert(scene@.floors[floor as int].stairs == all);
    let mut k: usize = 0;
    assert(all.skip(0) =~= all);
    while k < stairs.len()
        invariant
            all == stairs@,
            floor < NUM_FLOORS,
            scene@.floors[floor as int].stairs == all,
            k <= stairs@.len(),
            first_stair(all, id) == first_stair(all.skip(k as int), id),
        decreases stairs.len() - k,
    {
        assert(all.skip(k as int).drop_first() =~= all.skip(k + 1));
        assert(all.skip(k as int)[0] == all[k as int]);
        if stairs[k].id == id {
            return Some(stairs[k].pos);
        }
        k = k + 1;
    }
    assert(all.skip(k as int) =~= Seq::<StairNode>::empty());
    None
}

/// The stair table: a `u32` count, then per link `u32 a_floor, u32 b_floor,
/// f32 ax, ay, bx, by`; `None` when no stair link has both its ends.
pub fn bake_stairs(scene: &Scene) -> (r: Option<Vec<u8>>)
    ensures
        stair_records(scene@).len() == 0 ==> r is None,
        stair_records(scene@).len() > 0 ==> (r matches Some(v) && v@ == le32(
            stair_records(scene@).len() as u32,
        ) + ser_seq(stair_records(scene@), stair_record_ser())),
{
    let ghost sv = scene@;
    let mut records: Vec<StairRecord> = Vec::new();
    let mut f: usize = 0;
    while f < NUM_FLOORS
        invariant
            sv == scene@,
            f <= NUM_FLOORS,
            records@ == if f == 0 {
                seq![]
            } else if f == 1 {
                stair_records_of(sv, sv.floors[0].links)
            } else if f == 2 {
                stair_records_of(sv, sv.floors[0].links) + stair_records_of(sv, sv.floors[1].links)
            } else {
                stair_records(sv)
            },
        decreases NUM_FLOORS - f,
    {
        let links = &scene.floors[f].links;
        let ghost start = records@;
        assert(sv.floors[f as int].links == links@);
        let mut k: usize = 0;
        while k < links.len()
            invariant
                sv == scene@,
                f < NUM_FLOORS,
                sv.floors[f as int].links == links@,
                k <= links@.len(),
                records@ == start + stair_records_of(sv, links@.take(k as int)),
            decreases links.len() - k,
        {
            assert(links@.take(k + 1).drop_last() =~= links@.take(k as int));
            if let Link::Stair { a_floor, a_id, b_floor, b_id } = links[k] {
                let a = find_stair(scene, a_floor as usize, a_id);
                let b = find_stair(scene, b_floor as usize, b_id);
                if let (Some(a), Some(b)) = (a, b) {
                    records.push((a_floor, b_floor, a, b));
                }
            }
            k = k + 1;
            assert(records@ =~= start + stair_records_of(sv, links@.take(k as int)));
        }
        assert(links@.take(links@.len() as int) =~= links@);
        f = f + 1;
    }
    if records.len() == 0 {
        return None;
    }
    let mut out: Vec<u8> = Vec::new();
    crate::wire::put_count(&mut out, records.len());
    let ghost all = records@;
    let mut i: usize = 0;
    while i < records.len()
        invariant
            all == records@,
            i <= records@.len(),
            out@ == le32(all.len() as u32) + ser_seq(all.take(i as int), stair_record_ser()),
        decreases records.len() - i,
    {
        proof {
            crate::wire::lemma_ser_seq_take(all, i as int, stair_record_ser());
        }
        let (a_floor, b_floor, a, b) = records[i];
        crate::wire::put_u32(&mut out, a_floor as u32);
        crate::wire::put_u32(&mut out, b_floor as u32);
        crate::wire::put_f32(&mut out, a.0);
        crate::wire::put_f32(&mut out, a.1);
        crate::wire::put_f32(&mut out, b.0);
        crate::wire::put_f32(&mut out, b.1);
        i = i + 1;
        assert(out@ =~= le32(all.len() as u32) + ser_seq(all.take(i as int), stair_record_ser()));
    }
    assert(all.take(all.len() as int) =~= all);
    Some(out)
}

// ---------------------------------------------------------------------------
// Items.
// ---------------------------------------------------------------------------

/// An item to bake: its floor, its id and its index in that floor's items.
pub type ItemRecord = (usize, u32, usize);

/// The records of floor `f`'s items, in order.
pub open spec fn item_records_of(s: SceneView, f: int) -> Seq<ItemRecord> {
    Seq::new(s.floors[f].items.len(), |i: int| (f as usize, s.floors[f].items[i].id, i as usize))
}

/// Every item of the scene, floor by floor, in authored order.
pub open spec fn item_records(s: SceneView) -> Seq<ItemRecord> {
    item_records_of(s, 0) + item_records_of(s, 1) + item_records_of(s, 2)
}

/// `a` sorts strictly before `b` by (floor, id).
pub open spec fn key_lt(a: ItemRecord, b: ItemRecord) -> bool {
    a.0 < b.0 || (a.0 == b.0 && a.1 < b.1)
}

/// Where a stable insertion puts `r` into the sorted `xs`: after every record
/// whose key is not greater than its key.
pub open spec fn insert_pos(xs: Seq<ItemRecord>, r: ItemRecord) -> int
    decreases xs.len(),
{
    if xs.len() == 0 {
        0
    } else if key_lt(r, xs.last()) {
        insert_pos(xs.drop_last(), r)
    } else {
        xs.len() as int
    }
}

/// The records stably sorted by (floor, id).
pub open spec fn sort_records(rs: Seq<ItemRecord>) -> Seq<ItemRecord>
    decreases rs.len(),
{
    if rs.len() == 0 {
        seq![]
    } else {
        let xs = sort_records(rs.drop_last());
        xs.insert(insert_pos(xs, rs.last()), rs.last())
    }
}

/// Bytes of an item record: `u32 id, u32 floor, u8 kind, f32 x, y, u32
/// name_len`, then the name's UTF-8 bytes.
pub open spec fn ser_item_record(s: SceneView, r: ItemRecord) -> Seq<u8> {
    let it = s.floors[r.0 as int].items[r.2 as int];
    le32(it.id) + le32(r.0 as u32) + seq![item_kind_code(it.kind)] + le32(it.pos.0) + le32(it.pos.1)
        + le32(encode_utf8(it.name).len() as u32) + encode_utf8(it.name)
}

pub open spec fn item_record_ser(s: SceneView) -> spec_fn(ItemRecord) -> Seq<u8> {
    |r: ItemRecord| ser_item_record(s, r)
}

/// A record that names an item of the scene.
pub open spec fn valid_record(s: SceneView, r: ItemRecord) -> bool {
    r.0 < NUM_FLOORS && r.2 < s.floors[r.0 as int].items.len()
}

proof fn lemma_sort_members(rs: Seq<ItemRecord>)
    ensures
        forall|i: int| 0 <= i < sort_records(rs).len() ==> rs.contains(#[trigger] sort_records(rs)[i]),
    decreases rs.len(),
{
    if rs.len() > 0 {
        let ys = rs.drop_last();
        lemma_sort_members(ys);
        let xs = sort_records(ys);
        let p = insert_pos(xs, rs.last());
        lemma_insert_pos_bound(xs, rs.last());
        assert forall|i: int| 0 <= i < sort_records(rs).len() implies rs.contains(#[trigger] sort_records(rs)[i]) by {
            let z = sort_records(rs)[i];
            if i < p {
                assert(z == xs[i]);
                assert(ys.contains(z));
                let k = choose|k: int| 0 <= k < ys.len() && ys[k] == z;
                assert(rs[k] == z);
            } else if i == p {
                assert(rs[rs.len() - 1] == z);
            } else {
                assert(z == xs[i - 1]);
                assert(ys.contains(z));
                let k = choose|k: int| 0 <= k < ys.len() && ys[k] == z;
                assert(rs[k] == z);
            }
        }
    }
}

/// Every record of the sorted item table names an item of the scene.
proof fn lemma_sorted_records_valid(s: SceneView)
    requires
        s.floors.len() == NUM_FLOORS,
    ensures
        forall|i: int| 0 <= i < sort_records(item_records(s)).len() ==> valid_record(s, #[trigger] sort_records(item_records(s))[i]),
{
    let all = item_records(s);
    lemma_sort_members(all);
    assert forall|k: int| 0 <= k < all.len() implies valid_record(s, #[trigger] all[k]) by {
        let n0 = item_records_of(s, 0).len() as int;
        let n1 = item_records_of(s, 1).len() as int;
        if k < n0 {
            assert(all[k] == item_records_of(s, 0)[k]);
        } else if k < n0 + n1 {
            assert(all[k] == item_records_of(s, 1)[k - n0]);
        } else {
            assert(all[k] == item_records_of(s, 2)[k - n0 - n1]);
        }
    }
    assert forall|i: int| 0 <= i < sort_records(all).len() implies valid_record(s, #[trigger] sort_records(all)[i]) by {
        let z = sort_records(all)[i];
        let k = choose|k: int| 0 <= k < all.len() && all[k] == z;
    }
}

proof fn lemma_insert_pos_bound(xs: Seq<ItemRecord>, r: ItemRecord)
    ensures
        0 <= insert_pos(xs, r) <= xs.len(),
    decreases xs.len(),
{
    if xs.len() > 0 && key_lt(r, xs.last()) {
        lemma_insert_pos_bound(xs.drop_last(), r);
    }
}

proof fn lemma_sort_len(rs: Seq<ItemRecord>)
    ensures
        sort_records(rs).len() == rs.len(),
    decreases rs.len(),
{
    if rs.len() > 0 {
        lemma_sort_len(rs.drop_last());
        lemma_insert_pos_bound(sort_records(rs.drop_last()), rs.last());
    }
}

/// `xs` is in (floor, id) order: no record sorts strictly before an earlier one.
pub open spec fn sorted_by_key(xs: Seq<ItemRecord>) -> bool {
    forall|i: int, j: int| 0 <= i < j < xs.len() ==> !key_lt(#[trigger] xs[j], #[trigger] xs[i])
}

/// Whether a record has `k`'s key.
pub open spec fn has_key(k: ItemRecord) -> spec_fn(ItemRecord) -> bool {
    |x: ItemRecord| x.0 == k.0 && x.1 == k.1
}

/// The records of `xs` whose key is `k`'s, in order.
pub open spec fn with_key(xs: Seq<ItemRecord>, k: ItemRecord) -> Seq<ItemRecord> {
    xs.filter(has_key(k))
}

/// A stable insertion goes after every record that does not sort after `r`,
/// and before every one that does.
proof fn lemma_insert_pos_split(xs: Seq<ItemRecord>, r: ItemRecord)
    requires
        sorted_by_key(xs),
    ensures
        ({
            let p = insert_pos(xs, r);
            &&& 0 <= p <= xs.len()
            &&& forall|k: int| 0 <= k < p ==> !key_lt(r, #[trigger] xs[k])
            &&& forall|k: int| p <= k < xs.len() ==> key_lt(r, #[trigger] xs[k])
        }),
    decreases xs.len(),
{
    if xs.len() > 0 {
        let ys = xs.drop_last();
        assert(sorted_by_key(ys)) by {
            assert forall|i: int, j: int| 0 <= i < j < ys.len() implies !key_lt(#[trigger] ys[j], #[trigger] ys[i]) by {
                assert(ys[i] == xs[i] && ys[j] == xs[j]);
            }
        }
        if key_lt(r, xs.last()) {
            lemma_insert_pos_split(ys, r);
            assert forall|k: int| 0 <= k < ys.len() implies #[trigger] xs[k] == ys[k] by {}
            let p = insert_pos(ys, r);
            assert forall|k: int| p <= k < xs.len() implies key_lt(r, #[trigger] xs[k]) by {
                if k < ys.len() {
                    assert(xs[k] == ys[k]);
                }
            }
        } else {
            assert forall|k: int| 0 <= k < xs.len() implies !key_lt(r, #[trigger] xs[k]) by {
                if k < xs.len() - 1 {
                    assert(!key_lt(xs[xs.len() - 1], xs[k]));
                }
            }
        }
    }
}

proof fn lemma_filter_none(xs: Seq<ItemRecord>, pred: spec_fn(ItemRecord) -> bool)
    requires
        forall|i: int| 0 <= i < xs.len() ==> !pred(#[trigger] xs[i]),
    ensures
        xs.filter(pred) == Seq::<ItemRecord>::empty(),
    decreases xs.len(),
{
    reveal(Seq::filter);
    if xs.len() > 0 {
        lemma_filter_none(xs.drop_last(), pred);
    }
}

/// Sorting the item records puts them in (floor, id) order, keeps every record
/// (as a multiset), and keeps records with equal keys in their input order:
/// a stable sort by (floor, id).
pub proof fn lemma_sort_records(rs: Seq<ItemRecord>)
    ensures
        sorted_by_key(sort_records(rs)),
        sort_records(rs).to_multiset() == rs.to_multiset(),
        forall|k: ItemRecord| #[trigger] with_key(sort_records(rs), k) == with_key(rs, k),
    decreases rs.len(),
{
    broadcast use vstd::seq_lib::to_multiset_insert, vstd::seq_lib::to_multiset_build;

    reveal(Seq::filter);
    if rs.len() == 0 {
        assert(sort_records(rs) =~= rs);
    } else {
        let ys = rs.drop_last();
        let r = rs.last();
        lemma_sort_records(ys);
        let xs = sort_records(ys);
        lemma_insert_pos_split(xs, r);
        let p = insert_pos(xs, r);
        let out = xs.insert(p, r);
        assert(out == sort_records(rs));
        assert forall|i: int, j: int| 0 <= i < j < out.len() implies !key_lt(#[trigger] out[j], #[trigger] out[i]) by {
            if j < p {
                assert(out[i] == xs[i] && out[j] == xs[j]);
            } else if j == p {
                assert(out[i] == xs[i]);
            } else if i < p {
                assert(out[i] == xs[i] && out[j] == xs[j - 1]);
                assert(!key_lt(r, xs[i]));
                assert(key_lt(r, xs[j - 1]));
            } else if i == p {
                assert(out[j] == xs[j - 1]);
            } else {
                assert(out[i] == xs[i - 1] && out[j] == xs[j - 1]);
            }
        }
        assert(rs =~= ys.push(r));
        assert forall|k: ItemRecord| #[trigger] with_key(out, k) == with_key(rs, k) by {
            let pred = has_key(k);
            let head = xs.take(p);
            let tail = xs.skip(p);
            assert(xs =~= head + tail);
            assert(out =~= (head + seq![r]) + tail);
            Seq::filter_distributes_over_add(head, tail, pred);
            Seq::filter_distributes_over_add(head + seq![r], tail, pred);
            Seq::filter_distributes_over_add(head, seq![r], pred);
            assert(seq![r].drop_last() =~= Seq::<ItemRecord>::empty());
            assert(seq![r].last() == r);
            assert(Seq::<ItemRecord>::empty().filter(pred) =~= Seq::<ItemRecord>::empty());
            assert(rs.drop_last() == ys && rs.last() == r);
            assert(with_key(xs, k) == with_key(ys, k));
            if pred(r) {
                assert(seq![r].filter(pred) =~= seq![r]);
                assert forall|i: int| 0 <= i < tail.len() implies !pred(#[trigger] tail[i]) by {
                    assert(tail[i] == xs[p + i]);
                    assert(key_lt(r, xs[p + i]));
                }
                lemma_filter_none(tail, pred);
                assert(with_key(rs, k) == with_key(ys, k).push(r));
                assert(with_key(out, k) =~= with_key(rs, k));
            } else {
                assert(seq![r].filter(pred) =~= Seq::<ItemRecord>::empty());
                assert(with_key(rs, k) == with_key(ys, k));
                assert(with_key(out, k) =~= with_key(rs, k));
            }
        }
    }
}

// ---------------------------------------------------------------------------
// Reading the item table back.
// ---------------------------------------------------------------------------

/// One entry of `items.bin` as the runtime reads it: `u32 id`, `u32 floor`,
/// `u8 kind`, `f32 x` then `f32 y` (as bit patterns), `u32 name_len` and that
/// many name bytes.
pub open spec fn parse_item_entry(b: Seq<u8>, p: int) -> Option<((u32, u32, u8, (u32, u32), Seq<u8>), int)> {
    match parse_u32(b, p) {
        Some((id, q1)) => match parse_u32(b, q1) {
            Some((floor, q2)) => match parse_u8(b, q2) {
                Some((kind, q3)) => match parse_pair(b, q3) {
                    Some((pos, q4)) => match parse_u32(b, q4) {
                        Some((n, q5)) => if avail(b, q5, n as int) {
                            Some(((id, floor, kind, pos, b.subrange(q5, q5 + n)), q5 + n))
                        } else {
                            None
                        },
                        None => None,
                    },
                    None => None,
                },
                None => None,
            },
            None => None,
        },
        None => None,
    }
}

pub open spec fn item_entry_parser() -> spec_fn(Seq<u8>, int) -> Option<((u32, u32, u8, (u32, u32), Seq<u8>), int)> {
    |b: Seq<u8>, p: int| parse_item_entry(b, p)
}

/// What the runtime should read for record `r`: the item's id, its floor,
/// its kind code, its position (x, y) and its name's UTF-8 bytes.
pub open spec fn table_entry(s: SceneView, r: ItemRecord) -> (u32, u32, u8, (u32, u32), Seq<u8>) {
    let it = s.floors[r.0 as int].items[r.2 as int];
    (it.id, r.0 as u32, item_kind_code(it.kind), it.pos, encode_utf8(it.name))
}

proof fn lemma_parse_item_entry(b: Seq<u8>, p: int, s: SceneView, r: ItemRecord)
    requires
        encode_utf8(s.floors[r.0 as int].items[r.2 as int].name).len() <= u32::MAX,
        r.0 <= u32::MAX,
        0 <= p,
        p + ser_item_record(s, r).len() <= b.len(),
        b.subrange(p, p + ser_item_record(s, r).len()) == ser_item_record(s, r),
    ensures
        parse_item_entry(b, p) == Some((table_entry(s, r), p + ser_item_record(s, r).len())),
{
    let it = s.floors[r.0 as int].items[r.2 as int];
    let name = encode_utf8(it.name);
    let bytes = ser_item_record(s, r);
    lemma_le32(it.id);
    lemma_le32(r.0 as u32);
    lemma_le32(it.pos.0);
    lemma_le32(it.pos.1);
    lemma_le32(name.len() as u32);
    let l = bytes.len() as int;
    assert(l == 21 + name.len());
    assert forall|k: int| 0 <= k < l implies #[trigger] b[p + k] == bytes[k] by {
        assert(b.subrange(p, p + l)[k] == b[p + k]);
    }
    assert(bytes.subrange(0, 4) =~= le32(it.id));
    assert(bytes.subrange(4, 8) =~= le32(r.0 as u32));
    assert(bytes[8] == item_kind_code(it.kind));
    assert(bytes.subrange(9, 13) =~= le32(it.pos.0));
    assert(bytes.subrange(13, 17) =~= le32(it.pos.1));
    assert(bytes.subrange(17, 21) =~= le32(name.len() as u32));
    assert(bytes.subrange(21, l) =~= name);
    assert(b.subrange(p, p + 4) =~= bytes.subrange(0, 4));
    assert(b.subrange(p + 4, p + 8) =~= bytes.subrange(4, 8));
    assert(b.subrange(p + 9, p + 13) =~= bytes.subrange(9, 13));
    assert(b.subrange(p + 13, p + 17) =~= bytes.subrange(13, 17));
    assert(b.subrange(p + 17, p + 21) =~= bytes.subrange(17, 21));
    lemma_parse_u32(b, p, it.id);
    lemma_parse_u32(b, p + 4, r.0 as u32);
    assert(b[p + 8] == item_kind_code(it.kind));
    lemma_parse_u32(b, p + 9, it.pos.0);
    lemma_parse_u32(b, p + 13, it.pos.1);
    lemma_parse_u32(b, p + 17, name.len() as u32);
    assert(b.subrange(p + 21, p + 21 + name.len()) =~= bytes.subrange(21, l));
}

/// `items.bin` reads back, by the runtime's reading of it, as one entry per
/// item of the scene, in the table's (floor, id) order: each entry the item's
/// id, floor, kind, position `(x, y)` and name bytes. This holds when the
/// count and every name's length fit a `u32`.
pub proof fn lemma_item_table_reads_back(s: SceneView)
    requires
        s.floors.len() == NUM_FLOORS,
        item_records(s).len() <= u32::MAX,
        forall|f: int, i: int|
            0 <= f < NUM_FLOORS && 0 <= i < s.floors[f].items.len() ==> encode_utf8(
                #[trigger] s.floors[f].items[i].name,
            ).len() <= u32::MAX,
    ensures
        ({
            let rs = sort_records(item_records(s));
            let v = le32(item_records(s).len() as u32) + ser_seq(rs, item_record_ser(s));
            parse_counted(v, 0, item_entry_parser()) == Some(
                (rs.map_values(|r: ItemRecord| table_entry(s, r)), v.len() as int),
            )
        }),
{
    let rs = sort_records(item_records(s));
    let ys = rs.map_values(|r: ItemRecord| table_entry(s, r));
    let v = le32(item_records(s).len() as u32) + ser_seq(rs, item_record_ser(s));
    lemma_sort_len(item_records(s));
    lemma_sorted_records_valid(s);
    assert(v == ser_counted(rs, item_record_ser(s)));
    assert forall|i: int| 0 <= i < rs.len() implies #[trigger] decodes_as(
        item_entry_parser(),
        item_record_ser(s),
        rs[i],
        ys[i],
    ) by {
        let r = rs[i];
        assert(valid_record(s, r));
        assert(encode_utf8(s.floors[r.0 as int].items[r.2 as int].name).len() <= u32::MAX);
        assert forall|b: Seq<u8>, p: int|
            0 <= p && p + ser_item_record(s, r).len() <= b.len() && b.subrange(p, p + ser_item_record(s, r).len())
                == ser_item_record(s, r) implies #[trigger] item_entry_parser()(b, p) == Some(
            (ys[i], p + ser_item_record(s, r).len()),
        ) by {
            lemma_parse_item_entry(b, p, s, r);
        }
    }
    assert(v.subrange(0, v.len() as int) =~= v);
    lemma_parse_counted_ser_as(v, 0, rs, ys, item_entry_parser(), item_record_ser(s));
}

/// Stable insertion of `r` into sorted `sorted`.
fn insert_record(sorted: &mut Vec<ItemRecord>, r: ItemRecord)
    ensures
        final(sorted)@ == old(sorted)@.insert(insert_pos(old(sorted)@, r), r),
{
    let ghost xs = sorted@;
    let mut k: usize = sorted.len();
    assert(xs.take(k as int) =~= xs);
    while k > 0 && (r.0 < sorted[k - 1].0 || (r.0 == sorted[k - 1].0 && r.1 < sorted[k - 1].1))
        invariant
            xs == sorted@,
            k <= xs.len(),
            insert_pos(xs, r) == insert_pos(xs.take(k as int), r),
        decreases k,
    {
        assert(xs.take(k as int).drop_last() =~= xs.take(k - 1));
        k = k - 1;
    }
    proof {
        if k > 0 {
            assert(xs.take(k as int).last() == xs[k - 1]);
        }
        lemma_insert_pos_bound(xs.take(k as int), r);
    }
    sorted.insert(k, r);
}

/// The item table: a `u32` count, then per item (sorted by floor, then id)
/// `u32 id, u32 floor, u8 kind, f32 x, y, u32 name_len` and the name's UTF-8
/// bytes; `None` when the scene has no item.
#[verifier::rlimit(50)]
pub fn bake_items(scene: &Scene) -> (r: Option<Vec<u8>>)
    ensures
        item_records(scene@).len() == 0 ==> r is None,
        item_records(scene@).len() > 0 ==> (r matches Some(v) && v@ == le32(
            item_records(scene@).len() as u32,
        ) + ser_seq(sort_records(item_records(scene@)), item_record_ser(scene@))),
        // The records come out in (floor, id) order, every item of the scene
        // once, items with equal keys in scene order.
        sorted_by_key(sort_records(item_records(scene@))),
        sort_records(item_records(scene@)).to_multiset() == item_records(scene@).to_multiset(),
        forall|k: ItemRecord| #[trigger] with_key(sort_records(item_records(scene@)), k) == with_key(
            item_records(scene@),
            k,
        ),
{
    proof {
        lemma_sort_records(item_records(scene@));
    }
    let ghost sv = scene@;
    let ghost all = item_records(sv);
    let mut sorted: Vec<ItemRecord> = Vec::new();
    let mut count: usize = 0;
    let mut f: usize = 0;
    while f < NUM_FLOORS
        invariant
            sv == scene@,
            all == item_records(sv),
            f <= NUM_FLOORS,
            count == (if f == 0 {
                0
            } else if f == 1 {
                item_records_of(sv, 0).len()
            } else if f == 2 {
                item_records_of(sv, 0).len() + item_records_of(sv, 1).len()
            } else {
                all.len()
            }),
            sorted@ == sort_records(all.take(count as int)),
            count <= all.len(),
        decreases NUM_FLOORS - f,
    {
        let items = &scene.floors[f].items;
        let ghost start = count as int;
        assert(sv.floors[f as int].items.len() == items@.len());
        let mut k: usize = 0;
        while k < items.len()
            invariant
                sv == scene@,
                all == item_records(sv),
                f < NUM_FLOORS,
                sv.floors[f as int].items.len() == items@.len(),
                forall|i: int| 0 <= i < items@.len() ==> #[trigger] sv.floors[f as int].items[i].id == items@[i].id,
                k <= items@.len(),
                start == (if f == 0 {
                    0
                } else if f == 1 {
                    item_records_of(sv, 0).len()
                } else {
                    item_records_of(sv, 0).len() + item_records_of(sv, 1).len()
                }),
                count == start + k,
                sorted@ == sort_records(all.take(count as int)),
            decreases items.len() - k,
        {
            let rec: ItemRecord = (f, items[k].id, k);
            proof {
                assert(all.len() == item_records_of(sv, 0).len() + item_records_of(sv, 1).len() + item_records_of(sv, 2).len());
                assert(all[count as int] == rec) by {
                    if f == 0 {
                        assert(all[count as int] == item_records_of(sv, 0)[k as int]);
                    } else if f == 1 {
                        assert(all[count as int] == item_records_of(sv, 1)[k as int]);
                    } else {
                        assert(all[count as int] == item_records_of(sv, 2)[k as int]);
                    }
                }
                assert(all.take(count + 1).drop_last() =~= all.take(count as int));
                assert(all.take(count + 1).last() == rec);
            }
            insert_record(&mut sorted, rec);
            proof {
                lemma_sort_len(all.take(count + 1));
            }
            k = k + 1;
            count = sorted.len();
        }
        f = f + 1;
    }
    assert(all.take(count as int) =~= all);
    if count == 0 {
        return None;
    }
    let mut out: Vec<u8> = Vec::new();
    crate::wire::put_count(&mut out, count);
    let ghost srt = sorted@;
    proof {
        lemma_sort_len(all);
    }
    let mut i: usize = 0;
    while i < sorted.len()
        invariant
            sv == scene@,
            srt == sorted@,
            srt == sort_records(all),
            all == item_records(sv),
            count == all.len(),
            srt.len() == all.len(),
            i <= srt.len(),
            out@ == le32(count as u32) + ser_seq(srt.take(i as int), item_record_ser(sv)),
        decreases sorted.len() - i,
    {
        proof {
            crate::wire::lemma_ser_seq_take(srt, i as int, item_record_ser(sv));
        }
        let (floor, _id, idx) = sorted[i];
        proof {
            lemma_sorted_records_valid(sv);
            assert(valid_record(sv, srt[i as int]));
        }
        let it = &scene.floors[floor].items[idx];
        let name = it.name.as_str().as_bytes();
        crate::wire::put_u32(&mut out, it.id);
        crate::wire::put_u32(&mut out, floor as u32);
        crate::wire::put_u8(&mut out, it.kind.to_u8());
        crate::wire::put_f32(&mut out, it.pos.0);
        crate::wire::put_f32(&mut out, it.pos.1);
        crate::wire::put_count(&mut out, name.len());
        let ghost before = out@;
        let mut j: usize = 0;
        while j < name.len()
            invariant
                j <= name@.len(),
                out@ == before + name@.take(j as int),
            decreases name.len() - j,
        {
            out.push(name[j]);
            j = j + 1;
            assert(out@ =~= before + name@.take(j as int));
        }
        i = i + 1;
        assert(name@.take(name@.len() as int) =~= name@);
        assert(out@ =~= le32(count as u32) + ser_seq(srt.take(i as int), item_record_ser(sv)));
    }
    assert(srt.take(srt.len() as int) =~= srt);
    Some(out)
}

} // verus!
