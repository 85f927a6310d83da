//! Small 1-bit raster helpers used by the scene baker: cell fills, dilation,
//! erosion and exterior flood fill.

use vstd::prelude::*;
use crate::wire::le32;

verus! {

/// Bit `k` (0 = least significant) of a byte.
pub open spec fn byte_bit(b: u8, k: int) -> bool {
    (b >> (k as u8)) & 1u8 == 1u8
}

/// The byte whose bits, least significant first, are `bits[8k .. 8k + 8]`.
pub open spec fn pack_byte(bits: Seq<bool>, k: int) -> u8 {
    ((if bits[8 * k] { 1int } else { 0 }) + (if bits[8 * k + 1] { 2int } else { 0 }) + (if bits[8
        * k + 2] { 4int } else { 0 }) + (if bits[8 * k + 3] { 8int } else { 0 }) + (if bits[8 * k
        + 4] { 16int } else { 0 }) + (if bits[8 * k + 5] { 32int } else { 0 }) + (if bits[8 * k
        + 6] { 64int } else { 0 }) + (if bits[8 * k + 7] { 128int } else { 0 })) as u8
}

/// Bits packed eight to a byte, least significant bit first.
pub open spec fn pack(bits: Seq<bool>) -> Seq<u8> {
    Seq::new(bits.len() / 8, |k: int| pack_byte(bits, k))
}

/// A byte is the sum of its bits.
proof fn lemma_byte_bits(b: u8)
    ensures
        b == (if byte_bit(b, 0) { 1int } else { 0 }) + (if byte_bit(b, 1) { 2int } else { 0 }) + (
        if byte_bit(b, 2) { 4int } else { 0 }) + (if byte_bit(b, 3) { 8int } else { 0 }) + (
        if byte_bit(b, 4) { 16int } else { 0 }) + (if byte_bit(b, 5) { 32int } else { 0 }) + (
        if byte_bit(b, 6) { 64int } else { 0 }) + (if byte_bit(b, 7) { 128int } else { 0 }),
{
    assert(b == (if (b >> 0u8) & 1u8 == 1u8 { 1u8 } else { 0u8 }) + (if (b >> 1u8) & 1u8 == 1u8 {
        2u8
    } else {
        0u8
    }) + (if (b >> 2u8) & 1u8 == 1u8 { 4u8 } else { 0u8 }) + (if (b >> 3u8) & 1u8 == 1u8 {
        8u8
    } else {
        0u8
    }) + (if (b >> 4u8) & 1u8 == 1u8 { 16u8 } else { 0u8 }) + (if (b >> 5u8) & 1u8 == 1u8 {
        32u8
    } else {
        0u8
    }) + (if (b >> 6u8) & 1u8 == 1u8 { 64u8 } else { 0u8 }) + (if (b >> 7u8) & 1u8 == 1u8 {
        128u8
    } else {
        0u8
    })) by (bit_vector);
}

/// Setting bit `k` of a byte.
proof fn lemma_set_bit(b: u8, k: u8)
    requires
        k < 8,
    ensures
        forall|j: int| 0 <= j < 8 ==> #[trigger] byte_bit(b | (1u8 << k), j) == (j == k || byte_bit(b, j)),
{
    assert forall|j: int| 0 <= j < 8 implies #[trigger] byte_bit(b | (1u8 << k), j) == (j == k || byte_bit(b, j)) by {
        let jj = j as u8;
        assert(((b | (1u8 << k)) >> jj) & 1u8 == 1u8 <==> (jj == k || (b >> jj) & 1u8 == 1u8)) by (bit_vector)
            requires
                k < 8,
                jj < 8,
        ;
    }
}

/// Clearing bit `k` of a byte.
proof fn lemma_clear_bit(b: u8, k: u8)
    requires
        k < 8,
    ensures
        forall|j: int| 0 <= j < 8 ==> #[trigger] byte_bit(b & !(1u8 << k), j) == (j != k && byte_bit(b, j)),
{
    assert forall|j: int| 0 <= j < 8 implies #[trigger] byte_bit(b & !(1u8 << k), j) == (j != k && byte_bit(b, j)) by {
        let jj = j as u8;
        assert(((b & !(1u8 << k)) >> jj) & 1u8 == 1u8 <==> (jj != k && (b >> jj) & 1u8 == 1u8)) by (bit_vector)
            requires
                k < 8,
                jj < 8,
        ;
    }
}

/// The bits of `a | b` and `a & !b`.
proof fn lemma_or_andnot_bits(a: u8, b: u8)
    ensures
        forall|j: int| 0 <= j < 8 ==> #[trigger] byte_bit(a | b, j) == (byte_bit(a, j) || byte_bit(b, j)),
        forall|j: int| 0 <= j < 8 ==> #[trigger] byte_bit(a & !b, j) == (byte_bit(a, j) && !byte_bit(b, j)),
{
    assert forall|j: int| 0 <= j < 8 implies #[trigger] byte_bit(a | b, j) == (byte_bit(a, j) || byte_bit(b, j)) by {
        let jj = j as u8;
        assert(((a | b) >> jj) & 1u8 == 1u8 <==> ((a >> jj) & 1u8 == 1u8 || (b >> jj) & 1u8 == 1u8)) by (bit_vector)
            requires
                jj < 8,
        ;
    }
    assert forall|j: int| 0 <= j < 8 implies #[trigger] byte_bit(a & !b, j) == (byte_bit(a, j) && !byte_bit(b, j)) by {
        let jj = j as u8;
        assert(((a & !b) >> jj) & 1u8 == 1u8 <==> ((a >> jj) & 1u8 == 1u8 && !((b >> jj) & 1u8 == 1u8))) by (bit_vector)
            requires
                jj < 8,
        ;
    }
}

/// A byte is zero exactly when none of its bits is set.
proof fn lemma_zero_byte(b: u8)
    ensures
        (b == 0) == (forall|j: int| 0 <= j < 8 ==> !#[trigger] byte_bit(b, j)),
{
    if b == 0 {
        assert forall|j: int| 0 <= j < 8 implies !#[trigger] byte_bit(b, j) by {
            let jj = j as u8;
            assert((0u8 >> jj) & 1u8 == 0u8) by (bit_vector);
        }
    } else {
        lemma_byte_bits(b);
        assert(byte_bit(b, 0) || byte_bit(b, 1) || byte_bit(b, 2) || byte_bit(b, 3) || byte_bit(b, 4)
            || byte_bit(b, 5) || byte_bit(b, 6) || byte_bit(b, 7));
    }
}

/// A width x height 1-bit mask. Bit set = "on" (solid, walkable, exterior...).
/// Cell `(x, y)` is bit `y * w + x`, row-major, least significant bit first in
/// each byte.
#[derive(PartialEq, Eq, Debug)]
pub struct Mask {
    pub w: i32,
    pub h: i32,
    /// The packed cells; see [`Mask::wf`] for how they relate to `w` and `h`.
    pub bits: Vec<u8>,
}

impl View for Mask {
    type V = Seq<bool>;

    /// Every bit of the backing bytes, in order.
    open spec fn view(&self) -> Seq<bool> {
        Seq::new(8 * self.bits@.len(), |i: int| byte_bit(self.bits@[i / 8], i % 8))
    }
}

/// The larger of `v` and 0.
pub open spec fn clamp0(v: i32) -> int {
    if v < 0 {
        0
    } else {
        v as int
    }
}

/// How many bytes hold `n` bits.
pub open spec fn bytes_for(n: int) -> int {
    (n + 7) / 8
}

impl Mask {
    /// Number of cells.
    pub open spec fn area(&self) -> int {
        self.w * self.h
    }

    /// The dimensions are non-negative, every cell index fits an `i32` cell
    /// index computation, and the backing bytes hold exactly the cells.
    pub open spec fn wf(&self) -> bool {
        &&& 0 <= self.w
        &&& 0 <= self.h
        &&& self.w * self.h <= 0x8000_0000
        &&& self@.len() == 8 * bytes_for(self.w * self.h)
    }

    /// Whether `(x, y)` lies in the mask.
    pub open spec fn in_bounds(&self, x: int, y: int) -> bool {
        0 <= x < self.w && 0 <= y < self.h
    }

    /// Whether cell `(x, y)` is set; cells outside the mask are not.
    pub open spec fn cell(&self, x: int, y: int) -> bool {
        self.in_bounds(x, y) && self@[y * self.w + x]
    }

    /// No bit past the last cell is set.
    pub open spec fn padding_clear(&self) -> bool {
        forall|i: int| self.w * self.h <= i < self@.len() ==> !#[trigger] self@[i]
    }

    pub fn new(w: i32, h: i32) -> (r: Mask)
        requires
            clamp0(w) * clamp0(h) <= usize::MAX,
        ensures
            r.w == clamp0(w),
            r.h == clamp0(h),
            r@.len() == 8 * bytes_for(r.w * r.h),
            forall|i: int| 0 <= i < r@.len() ==> !#[trigger] r@[i],
    {
        let w = if w < 0 {
            0
        } else {
            w
        };
        let h = if h < 0 {
            0
        } else {
            h
        };
        let n = (w as usize) * (h as usize);
        let bytes = n / 8 + if n % 8 == 0 {
            0
        } else {
            1
        };
        assert(bytes as int == bytes_for(w * h));
        let bits = vec![0u8; bytes];
        let r = Mask { w, h, bits };
        proof {
            assert forall|i: int| 0 <= i < r@.len() implies !#[trigger] r@[i] by {
                assert(r.bits@[i / 8] == 0u8);
                let k = (i % 8) as u8;
                assert((0u8 >> k) & 1u8 == 0u8) by (bit_vector);
            }
        }
        r
    }

    pub proof fn lemma_index(&self, x: int, y: int)
        requires
            self.wf(),
            self.in_bounds(x, y),
        ensures
            0 <= y * self.w + x < self.w * self.h,
            y * self.w + x < self@.len(),
    {
        let w = self.w as int;
        let h = self.h as int;
        assert(0 <= y * w + x < w * h) by (nonlinear_arith)
            requires
                0 <= x < w,
                0 <= y < h,
        ;
    }

    fn index(&self, x: i32, y: i32) -> (i: usize)
        requires
            self.wf(),
            self.in_bounds(x as int, y as int),
        ensures
            i == y * self.w + x,
            i < self.w * self.h,
    {
        proof {
            self.lemma_index(x as int, y as int);
        }
        (y * self.w + x) as usize
    }

    pub fn get(&self, x: i32, y: i32) -> (r: bool)
        requires
            self.wf(),
        ensures
            r == self.cell(x as int, y as int),
    {
        if x < 0 || y < 0 || x >= self.w || y >= self.h {
            return false;
        }
        let i = self.index(x, y);
        proof {
            self.lemma_index(x as int, y as int);
        }
        (self.bits[i / 8] >> ((i % 8) as u8)) & 1 == 1
    }

    pub fn set(&mut self, x: i32, y: i32, on: bool)
        requires
            old(self).wf(),
        ensures
            final(self).w == old(self).w,
            final(self).h == old(self).h,
            final(self)@.len() == old(self)@.len(),
            forall|i: int|
                0 <= i < old(self)@.len() ==> #[trigger] final(self)@[i] == if old(self).in_bounds(
                    x as int,
                    y as int,
                ) && i == y * old(self).w + x {
                    on
                } else {
                    old(self)@[i]
                },
    {
        if x < 0 || y < 0 || x >= self.w || y >= self.h {
            return;
        }
        let i = self.index(x, y);
        proof {
            self.lemma_index(x as int, y as int);
        }
        let k = (i % 8) as u8;
        let b = self.bits[i / 8];
        let nb = if on {
            b | (1u8 << k)
        } else {
            b & !(1u8 << k)
        };
        proof {
            lemma_set_bit(b, k);
            lemma_clear_bit(b, k);
        }
        self.bits.set(i / 8, nb);
        proof {
            assert forall|j: int| 0 <= j < old(self)@.len() implies #[trigger] self@[j] == if j == i {
                on
            } else {
                old(self)@[j]
            } by {
                if j / 8 == i / 8 {
                    assert(self.bits@[j / 8] == nb);
                } else {
                    assert(self.bits@[j / 8] == old(self).bits@[j / 8]);
                }
            }
        }
    }

    /// True if any cell is set (any bit of the backing bytes).
    pub fn any(&self) -> (r: bool)
        ensures
            r == (exists|i: int| 0 <= i < self@.len() && #[trigger] self@[i]),
    {
        let mut k: usize = 0;
        while k < self.bits.len()
            invariant
                k <= self.bits@.len(),
                forall|i: int| 0 <= i < 8 * k ==> !#[trigger] self@[i],
            decreases self.bits.len() - k,
        {
            let b = self.bits[k];
            proof {
                lemma_zero_byte(b);
            }
            if b != 0 {
                proof {
                    let j = choose|j: int| 0 <= j < 8 && byte_bit(b, j);
                    assert(self@[8 * k + j]);
                }
                return true;
            }
            proof {
                assert forall|i: int| 0 <= i < 8 * (k + 1) implies !#[trigger] self@[i] by {
                    if i >= 8 * k {
                        assert(i / 8 == k);
                    }
                }
            }
            k = k + 1;
        }
        false
    }
}

/// Whether some set cell of `m` lies in row `y` within `r` columns of `x`.
pub open spec fn row_near(m: Mask, x: int, y: int, r: int) -> bool {
    exists|xx: int| #[trigger] m.cell(xx, y) && x - r <= xx <= x + r
}

/// Whether some set cell of `m` lies in column `x` within `r` rows of `y`.
pub open spec fn column_near(m: Mask, x: int, y: int, r: int) -> bool {
    exists|yy: int| #[trigger] m.cell(x, yy) && y - r <= yy <= y + r
}

/// Whether some set cell of `m` lies in the square of radius `r` around
/// `(x, y)`.
pub open spec fn near(m: Mask, x: int, y: int, r: int) -> bool {
    exists|xx: int, yy: int| #[trigger] m.cell(xx, yy) && x - r <= xx <= x + r && y - r <= yy <= y + r
}

/// Whether every cell of the mask in the square of radius `r` around `(x, y)`
/// is set.
pub open spec fn all_near(m: Mask, x: int, y: int, r: int) -> bool {
    forall|xx: int, yy: int|
        m.in_bounds(xx, yy) && x - r <= xx <= x + r && y - r <= yy <= y + r ==> #[trigger] m.cell(
            xx,
            yy,
        )
}

pub proof fn lemma_row_step(y: int, w: int)
    ensures
        (y + 1) * w == y * w + w,
{
    assert((y + 1) * w == y * w + w) by (nonlinear_arith);
}

proof fn lemma_area_comm(w: int, h: int)
    ensures
        w * h == h * w,
{
    assert(w * h == h * w) by (nonlinear_arith);
}

impl Mask {
    /// Complement of every cell.
    pub fn not(&self) -> (r: Mask)
        requires
            self.wf(),
        ensures
            r.w == self.w,
            r.h == self.h,
            r.wf(),
            r.padding_clear(),
            forall|x: int, y: int| #[trigger] r.cell(x, y) == (self.in_bounds(x, y) && !self.cell(x, y)),
    {
        let mut out = Mask::new(self.w, self.h);
        let ghost w = self.w as int;
        let mut y: i32 = 0;
        while y < self.h
            invariant
                self.wf(),
                w == self.w,
                out.w == self.w,
                out.h == self.h,
                out@.len() == self@.len(),
                0 <= y <= self.h,
                forall|i: int| 0 <= i < out@.len() ==> #[trigger] out@[i] == (i < y * w && !self@[i]),
            decreases self.h - y,
        {
            let mut x: i32 = 0;
            while x < self.w
                invariant
                    self.wf(),
                    w == self.w,
                    out.w == self.w,
                    out.h == self.h,
                    out@.len() == self@.len(),
                    0 <= y < self.h,
                    0 <= x <= self.w,
                    forall|i: int| 0 <= i < out@.len() ==> #[trigger] out@[i] == (i < y * w + x && !self@[i]),
                decreases self.w - x,
            {
                proof {
                    self.lemma_index(x as int, y as int);
                }
                let v = !self.get(x, y);
                let ghost before = out@;
                out.set(x, y, v);
                assert(v == !self@[y * w + x]);
                assert forall|i: int| 0 <= i < out@.len() implies #[trigger] out@[i] == (i < y * w + x + 1 && !self@[i]) by {
                    assert(out@[i] == if i == y * w + x { v } else { before[i] });
                }
                x = x + 1;
            }
            proof {
                lemma_row_step(y as int, w);
            }
            y = y + 1;
        }
        proof {
            lemma_area_comm(self.w as int, self.h as int);
            assert forall|x: int, y: int| #[trigger] out.cell(x, y) == (self.in_bounds(x, y) && !self.cell(x, y)) by {
                if self.in_bounds(x, y) {
                    self.lemma_index(x, y);
                }
            }
        }
        out
    }

    /// Set every cell that is set in `other`, byte for byte over the bytes the
    /// two masks share.
    pub fn or_with(&mut self, other: &Mask)
        ensures
            final(self).w == old(self).w,
            final(self).h == old(self).h,
            final(self)@.len() == old(self)@.len(),
            forall|i: int|
                0 <= i < old(self)@.len() ==> #[trigger] final(self)@[i] == (old(self)@[i] || (i
                    < other@.len() && other@[i])),
            old(self).wf() && other.wf() && old(self).w == other.w && old(self).h == other.h
                ==> forall|x: int, y: int| #[trigger] final(self).cell(x, y) == (old(self).cell(x, y)
                || other.cell(x, y)),
    {
        let n = if self.bits.len() < other.bits.len() {
            self.bits.len()
        } else {
            other.bits.len()
        };
        let mut k: usize = 0;
        while k < n
            invariant
                n <= self.bits@.len(),
                n <= other.bits@.len(),
                self.bits@.len() == old(self).bits@.len(),
                self.w == old(self).w,
                self.h == old(self).h,
                k <= n,
                forall|j: int| 0 <= j < self.bits@.len() ==> #[trigger] self.bits@[j] == if j < k {
                    old(self).bits@[j] | other.bits@[j]
                } else {
                    old(self).bits@[j]
                },
            decreases n - k,
        {
            let b = self.bits[k] | other.bits[k];
            self.bits.set(k, b);
            k = k + 1;
        }
        proof {
            assert forall|i: int| 0 <= i < old(self)@.len() implies #[trigger] self@[i] == (old(self)@[i]
                || (i < other@.len() && other@[i])) by {
                let j = i / 8;
                lemma_or_andnot_bits(old(self).bits@[j], if j < other.bits@.len() { other.bits@[j] } else { 0u8 });
            }
            if old(self).wf() && other.wf() && old(self).w == other.w && old(self).h == other.h {
                assert forall|x: int, y: int| #[trigger] self.cell(x, y) == (old(self).cell(x, y)
                    || other.cell(x, y)) by {
                    if old(self).in_bounds(x, y) {
                        old(self).lemma_index(x, y);
                    }
                }
            }
        }
    }

    /// Clear every cell that is set in `other`, byte for byte over the bytes
    /// the two masks share.
    pub fn subtract(&mut self, other: &Mask)
        ensures
            final(self).w == old(self).w,
            final(self).h == old(self).h,
            final(self)@.len() == old(self)@.len(),
            forall|i: int|
                0 <= i < old(self)@.len() ==> #[trigger] final(self)@[i] == (old(self)@[i] && !(i
                    < other@.len() && other@[i])),
            old(self).wf() && other.wf() && old(self).w == other.w && old(self).h == other.h
                ==> forall|x: int, y: int| #[trigger] final(self).cell(x, y) == (old(self).cell(x, y)
                && !other.cell(x, y)),
    {
        let n = if self.bits.len() < other.bits.len() {
            self.bits.len()
        } else {
            other.bits.len()
        };
        let mut k: usize = 0;
        while k < n
            invariant
                n <= self.bits@.len(),
                n <= other.bits@.len(),
                self.bits@.len() == old(self).bits@.len(),
                self.w == old(self).w,
                self.h == old(self).h,
                k <= n,
                forall|j: int| 0 <= j < self.bits@.len() ==> #[trigger] self.bits@[j] == if j < k {
                    old(self).bits@[j] & !other.bits@[j]
                } else {
                    old(self).bits@[j]
                },
            decreases n - k,
        {
            let b = self.bits[k] & !other.bits[k];
            self.bits.set(k, b);
            k = k + 1;
        }
        proof {
            assert forall|i: int| 0 <= i < old(self)@.len() implies #[trigger] self@[i] == (old(self)@[i]
                && !(i < other@.len() && other@[i])) by {
                let j = i / 8;
                if j < other.bits@.len() {
                    lemma_or_andnot_bits(old(self).bits@[j], other.bits@[j]);
                }
            }
            if old(self).wf() && other.wf() && old(self).w == other.w && old(self).h == other.h {
                assert forall|x: int, y: int| #[trigger] self.cell(x, y) == (old(self).cell(x, y)
                    && !other.cell(x, y)) by {
                    if old(self).in_bounds(x, y) {
                        old(self).lemma_index(x, y);
                    }
                }
            }
        }
    }

    /// Pack to the little-endian bit format of the nav and solid grids:
    /// `u32 cell_px, u32 width, u32 height`, then the cells row-major, least
    /// significant bit first per byte.
    pub fn to_bytes(&self, cell_px: u32) -> (out: Vec<u8>)
        ensures
            out@ == le32(cell_px) + le32(self.w as u32) + le32(self.h as u32) + pack(self@),
    {
        let mut out: Vec<u8> = Vec::new();
        crate::wire::put_u32(&mut out, cell_px);
        crate::wire::put_u32(&mut out, self.w as u32);
        crate::wire::put_u32(&mut out, self.h as u32);
        let mut b = self.bits.clone();
        proof {
            assert(b@ =~= self.bits@);
            assert forall|k: int| 0 <= k < self.bits@.len() implies #[trigger] pack(self@)[k] == self.bits@[k] by {
                lemma_byte_bits(self.bits@[k]);
                assert(self@[8 * k] == byte_bit(self.bits@[k], 0));
                assert(self@[8 * k + 1] == byte_bit(self.bits@[k], 1));
                assert(self@[8 * k + 2] == byte_bit(self.bits@[k], 2));
                assert(self@[8 * k + 3] == byte_bit(self.bits@[k], 3));
                assert(self@[8 * k + 4] == byte_bit(self.bits@[k], 4));
                assert(self@[8 * k + 5] == byte_bit(self.bits@[k], 5));
                assert(self@[8 * k + 6] == byte_bit(self.bits@[k], 6));
                assert(self@[8 * k + 7] == byte_bit(self.bits@[k], 7));
            }
            assert(pack(self@) =~= self.bits@);
        }
        out.append(&mut b);
        out
    }
}

/// `row_near` or `column_near`.
pub open spec fn line_near(m: Mask, x: int, y: int, r: int, vertical: bool) -> bool {
    if vertical {
        column_near(m, x, y, r)
    } else {
        row_near(m, x, y, r)
    }
}

/// Distinct cells have distinct indexes.
pub proof fn lemma_index_injective(w: int, x1: int, y1: int, x2: int, y2: int)
    requires
        0 <= x1 < w,
        0 <= x2 < w,
        0 <= y1,
        0 <= y2,
        y1 * w + x1 == y2 * w + x2,
    ensures
        x1 == x2,
        y1 == y2,
{
    if y1 < y2 {
        assert(y1 * w + w <= y2 * w) by (nonlinear_arith)
            requires
                y1 < y2,
                0 < w,
        ;
    } else if y2 < y1 {
        assert(y2 * w + w <= y1 * w) by (nonlinear_arith)
            requires
                y2 < y1,
                0 < w,
        ;
    }
}

/// Whether `(xx, yy)` comes before `(x, y)` in row-major order.
pub open spec fn before(xx: int, yy: int, x: int, y: int) -> bool {
    yy < y || (yy == y && xx < x)
}

impl Mask {
    /// Whether a set cell lies on the row (or column) through `(x, y)` within
    /// `radius` of it.
    fn line_hit(&self, x: i32, y: i32, radius: i32, vertical: bool) -> (r: bool)
        requires
            self.wf(),
            radius >= 0,
        ensures
            r == line_near(*self, x as int, y as int, radius as int, vertical),
    {
        let mut d: i64 = -(radius as i64);
        let mut on = false;
        while !on && d <= radius as i64
            invariant
                self.wf(),
                radius >= 0,
                -radius <= d <= radius + 1,
                on ==> line_near(*self, x as int, y as int, radius as int, vertical),
                !on ==> vertical ==> forall|yy: int| y - radius <= yy < y + d ==> !#[trigger] self.cell(x as int, yy),
                !on ==> !vertical ==> forall|xx: int| x - radius <= xx < x + d ==> !#[trigger] self.cell(xx, y as int),
            decreases radius + 1 - d + if on { 0int } else { 1int },
        {
            let (cx, cy) = if vertical {
                (x as i64, y as i64 + d)
            } else {
                (x as i64 + d, y as i64)
            };
            if cx >= 0 && cx < self.w as i64 && cy >= 0 && cy < self.h as i64 && self.get(cx as i32, cy as i32) {
                on = true;
                proof {
                    assert(self.cell(cx as int, cy as int));
                }
            } else {
                d = d + 1;
            }
        }
        on
    }

    /// The horizontal (or vertical) pass of a dilation: a fresh mask whose cell
    /// `(x, y)` is set when a set cell of this one lies on its row (column)
    /// within `radius`.
    fn dilate_pass(&self, radius: i32, vertical: bool) -> (r: Mask)
        requires
            self.wf(),
            radius >= 0,
        ensures
            r.w == self.w,
            r.h == self.h,
            r.wf(),
            r.padding_clear(),
            forall|x: int, y: int| #[trigger] r.cell(x, y) == (self.in_bounds(x, y) && line_near(*self, x, y, radius as int, vertical)),
    {
        let mut out = Mask::new(self.w, self.h);
        let ghost w = self.w as int;
        let ghost rr = radius as int;
        proof {
            assert forall|xx: int, yy: int| !#[trigger] out.cell(xx, yy) by {
                if out.in_bounds(xx, yy) {
                    self.lemma_index(xx, yy);
                }
            }
        }
        let mut y: i32 = 0;
        while y < self.h
            invariant
                self.wf(),
                radius >= 0,
                w == self.w,
                rr == radius,
                out.w == self.w,
                out.h == self.h,
                out@.len() == self@.len(),
                0 <= y <= self.h,
                forall|i: int| self.w * self.h <= i < out@.len() ==> !#[trigger] out@[i],
                forall|xx: int, yy: int| #[trigger] out.cell(xx, yy) == (out.in_bounds(xx, yy) && before(xx, yy, 0, y as int) && line_near(*self, xx, yy, rr, vertical)),
            decreases self.h - y,
        {
            let mut x: i32 = 0;
            while x < self.w
                invariant
                    self.wf(),
                    radius >= 0,
                    w == self.w,
                    rr == radius,
                    out.w == self.w,
                    out.h == self.h,
                    out@.len() == self@.len(),
                    0 <= y < self.h,
                    0 <= x <= self.w,
                    forall|i: int| self.w * self.h <= i < out@.len() ==> !#[trigger] out@[i],
                    forall|xx: int, yy: int| #[trigger] out.cell(xx, yy) == (out.in_bounds(xx, yy) && before(xx, yy, x as int, y as int) && line_near(*self, xx, yy, rr, vertical)),
                decreases self.w - x,
            {
                let v = self.line_hit(x, y, radius, vertical);
                let ghost prev = out;
                proof {
                    self.lemma_index(x as int, y as int);
                }
                out.set(x, y, v);
                proof {
                    assert forall|xx: int, yy: int| #[trigger] out.cell(xx, yy) == (out.in_bounds(xx, yy) && before(xx, yy, x + 1, y as int) && line_near(*self, xx, yy, rr, vertical)) by {
                        if out.in_bounds(xx, yy) {
                            self.lemma_index(xx, yy);
                            if yy * w + xx == y * w + x {
                                lemma_index_injective(w, xx, yy, x as int, y as int);
                            }
                            assert(prev.cell(xx, yy) == (prev.in_bounds(xx, yy) && before(xx, yy, x as int, y as int) && line_near(*self, xx, yy, rr, vertical)));
                        }
                    }
                }
                x = x + 1;
            }
            proof {
                assert forall|xx: int, yy: int| #[trigger] out.cell(xx, yy) == (out.in_bounds(xx, yy) && before(xx, yy, 0, y + 1) && line_near(*self, xx, yy, rr, vertical)) by {
                    assert(out.in_bounds(xx, yy) ==> before(xx, yy, w, y as int) == before(xx, yy, 0, y + 1));
                }
            }
            y = y + 1;
        }
        proof {
            assert forall|xx: int, yy: int| #[trigger] out.cell(xx, yy) == (self.in_bounds(xx, yy) && line_near(*self, xx, yy, rr, vertical)) by {
                assert(out.in_bounds(xx, yy) ==> before(xx, yy, 0, self.h as int));
            }
        }
        out
    }

    /// Square max-filter dilation by `radius` cells: a cell is set when some
    /// set cell lies within `radius` of it in both directions. Separable (a
    /// horizontal then a vertical pass), so a large radius stays cheap. A
    /// radius of 0 or less leaves the mask as it is.
    pub fn dilate(&self, radius: i32) -> (r: Mask)
        requires
            self.wf(),
        ensures
            r.w == self.w,
            r.h == self.h,
            r.wf(),
            radius <= 0 ==> r@ == self@,
            radius > 0 ==> r.padding_clear(),
            radius > 0 ==> forall|x: int, y: int| #[trigger] r.cell(x, y) == (self.in_bounds(x, y) && near(*self, x, y, radius as int)),
    {
        if radius <= 0 {
            return self.clone();
        }
        let tmp = self.dilate_pass(radius, false);
        let out = tmp.dilate_pass(radius, true);
        proof {
            let rr = radius as int;
            assert forall|x: int, y: int| #[trigger] out.cell(x, y) == (self.in_bounds(x, y) && near(*self, x, y, rr)) by {
                if self.in_bounds(x, y) {
                    if near(*self, x, y, rr) {
                        let (xx, yy) = choose|xx: int, yy: int| #[trigger] self.cell(xx, yy) && x - rr <= xx <= x + rr && y - rr <= yy <= y + rr;
                        assert(row_near(*self, x, yy, rr));
                        assert(tmp.cell(x, yy));
                    }
                    if column_near(tmp, x, y, rr) {
                        let yy = choose|yy: int| #[trigger] tmp.cell(x, yy) && y - rr <= yy <= y + rr;
                        assert(row_near(*self, x, yy, rr));
                        let xx = choose|xx: int| #[trigger] self.cell(xx, yy) && x - rr <= xx <= x + rr;
                        assert(self.cell(xx, yy));
                    }
                }
            }
        }
        out
    }

    /// Square min-filter erosion by `radius` cells: a cell stays set only if
    /// every cell of the mask within `radius` of it is set. A radius of 0 or
    /// less leaves the mask as it is.
    pub fn erode(&self, radius: i32) -> (r: Mask)
        requires
            self.wf(),
        ensures
            r.w == self.w,
            r.h == self.h,
            r.wf(),
            radius <= 0 ==> r@ == self@,
            radius > 0 ==> r.padding_clear(),
            radius > 0 ==> forall|x: int, y: int| #[trigger] r.cell(x, y) == (self.in_bounds(x, y) && all_near(*self, x, y, radius as int)),
    {
        if radius <= 0 {
            return self.clone();
        }
        let inv = self.not();
        let grown = inv.dilate(radius);
        let out = grown.not();
        proof {
            let rr = radius as int;
            assert forall|x: int, y: int| #[trigger] out.cell(x, y) == (self.in_bounds(x, y) && all_near(*self, x, y, rr)) by {
                if self.in_bounds(x, y) {
                    if near(inv, x, y, rr) {
                        let (xx, yy) = choose|xx: int, yy: int| #[trigger] inv.cell(xx, yy) && x - rr <= xx <= x + rr && y - rr <= yy <= y + rr;
                        assert(!self.cell(xx, yy));
                    }
                    if !all_near(*self, x, y, rr) {
                        let (xx, yy) = choose|xx: int, yy: int| !(self.in_bounds(xx, yy) && x - rr <= xx <= x + rr && y - rr <= yy <= y + rr ==> #[trigger] self.cell(xx, yy));
                        assert(inv.cell(xx, yy));
                    }
                }
            }
        }
        out
    }
}

/// A set cell on the border of the mask.
pub open spec fn border_seed(m: Mask, x: int, y: int) -> bool {
    m.cell(x, y) && (x == 0 || y == 0 || x == m.w - 1 || y == m.h - 1)
}

/// `(x, y)` is reached from a border seed in at most `n` steps between
/// edge-adjacent set cells.
pub open spec fn reach_within(m: Mask, x: int, y: int, n: nat) -> bool
    decreases n,
{
    if n == 0 {
        border_seed(m, x, y)
    } else {
        reach_within(m, x, y, (n - 1) as nat) || (m.cell(x, y) && (reach_within(
            m,
            x - 1,
            y,
            (n - 1) as nat,
        ) || reach_within(m, x + 1, y, (n - 1) as nat) || reach_within(m, x, y - 1, (n - 1) as nat)
            || reach_within(m, x, y + 1, (n - 1) as nat)))
    }
}

/// `(x, y)` is reachable from the border through edge-adjacent set cells.
pub open spec fn reachable(m: Mask, x: int, y: int) -> bool {
    exists|n: nat| #[trigger] reach_within(m, x, y, n)
}

/// Every set neighbour of `(x, y)` in `m` is set in `out`.
pub open spec fn closed_at(m: Mask, out: Mask, x: int, y: int) -> bool {
    &&& m.cell(x + 1, y) ==> out.cell(x + 1, y)
    &&& m.cell(x - 1, y) ==> out.cell(x - 1, y)
    &&& m.cell(x, y + 1) ==> out.cell(x, y + 1)
    &&& m.cell(x, y - 1) ==> out.cell(x, y - 1)
}

/// Number of set bits among the first `n` of `s`.
pub open spec fn count_set(s: Seq<bool>, n: int) -> int
    decreases n,
{
    if n <= 0 {
        0
    } else {
        count_set(s, n - 1) + if s[n - 1] { 1int } else { 0 }
    }
}

proof fn lemma_count_set_bounds(s: Seq<bool>, n: int)
    requires
        0 <= n,
    ensures
        0 <= count_set(s, n) <= n,
    decreases n,
{
    if n > 0 {
        lemma_count_set_bounds(s, n - 1);
    }
}

proof fn lemma_count_set_update(s: Seq<bool>, i: int, n: int)
    requires
        0 <= i < s.len(),
        !s[i],
        0 <= n <= s.len(),
    ensures
        count_set(s.update(i, true), n) == count_set(s, n) + if i < n { 1int } else { 0 },
    decreases n,
{
    if n > 0 {
        lemma_count_set_update(s, i, n - 1);
    }
}

proof fn lemma_reach_is_set(m: Mask, x: int, y: int, n: nat)
    requires
        reach_within(m, x, y, n),
    ensures
        m.cell(x, y),
    decreases n,
{
    if n > 0 && reach_within(m, x, y, (n - 1) as nat) {
        lemma_reach_is_set(m, x, y, (n - 1) as nat);
    }
}

/// A mask that holds every border seed and is closed under stepping to set
/// neighbours holds everything reachable.
proof fn lemma_flood_complete(m: Mask, out: Mask, n: nat)
    requires
        forall|x: int, y: int| border_seed(m, x, y) ==> #[trigger] out.cell(x, y),
        forall|x: int, y: int| #[trigger] out.cell(x, y) ==> closed_at(m, out, x, y),
    ensures
        forall|x: int, y: int| #[trigger] reach_within(m, x, y, n) ==> out.cell(x, y),
    decreases n,
{
    if n > 0 {
        lemma_flood_complete(m, out, (n - 1) as nat);
        assert forall|x: int, y: int| #[trigger] reach_within(m, x, y, n) implies out.cell(x, y) by {
            if !reach_within(m, x, y, (n - 1) as nat) {
                if reach_within(m, x - 1, y, (n - 1) as nat) {
                    assert(closed_at(m, out, x - 1, y));
                } else if reach_within(m, x + 1, y, (n - 1) as nat) {
                    assert(closed_at(m, out, x + 1, y));
                } else if reach_within(m, x, y - 1, (n - 1) as nat) {
                    assert(closed_at(m, out, x, y - 1));
                } else {
                    assert(reach_within(m, x, y + 1, (n - 1) as nat));
                    assert(out.cell(x, y + 1));
                    assert(closed_at(m, out, x, y + 1));
                }
            }
        }
    }
}

/// The invariant of the flood: `out` matches `m` in size, holds only
/// reachable cells, holds every cell on the stack, and every cell it holds
/// that is neither on the stack nor in `hole` (the cell being expanded) has all
/// its set neighbours in `out` too.
pub open spec fn flood_inv(m: Mask, out: Mask, stack: Seq<(i32, i32)>, hole: Seq<(i32, i32)>) -> bool {
    &&& m.wf()
    &&& out.w == m.w
    &&& out.h == m.h
    &&& out@.len() == m@.len()
    &&& forall|i: int| m.w * m.h <= i < out@.len() ==> !#[trigger] out@[i]
    &&& forall|x: int, y: int| #[trigger] out.cell(x, y) ==> reachable(m, x, y)
    &&& forall|k: int| 0 <= k < stack.len() ==> out.cell(#[trigger] stack[k].0 as int, stack[k].1 as int)
    &&& forall|x: int, y: int|
        #[trigger] out.cell(x, y) && !stack.contains((x as i32, y as i32)) && !hole.contains(
            (x as i32, y as i32),
        ) ==> closed_at(m, out, x, y)
}

impl Mask {
    /// Marks `(x, y)` and puts it on the stack when it is a set cell of `m`
    /// that `out` does not hold yet.
    fn flood_push(m: &Mask, out: &mut Mask, stack: &mut Vec<(i32, i32)>, x: i32, y: i32)
        requires
            m.wf(),
            old(out).w == m.w,
            old(out).h == m.h,
            old(out)@.len() == m@.len(),
        ensures
            final(out).w == m.w,
            final(out).h == m.h,
            final(out)@.len() == m@.len(),
            if m.cell(x as int, y as int) && !old(out).cell(x as int, y as int) {
                &&& final(out)@ == old(out)@.update(y * m.w + x, true)
                &&& final(stack)@ == old(stack)@.push((x, y))
                &&& 0 <= y * m.w + x < m.w * m.h
            } else {
                final(out)@ == old(out)@ && final(stack)@ == old(stack)@
            },
    {
        proof {
            if m.in_bounds(x as int, y as int) {
                m.lemma_index(x as int, y as int);
            }
        }
        if m.get(x, y) && !out.get(x, y) {
            out.set(x, y, true);
            stack.push((x, y));
            proof {
                assert(out@ =~= old(out)@.update(y * m.w + x, true));
            }
        }
    }
}

/// A push keeps the flood invariant, given that the pushed cell, when it is
/// set, is reachable.
proof fn lemma_flood_push(
    m: Mask,
    out0: Mask,
    out1: Mask,
    s0: Seq<(i32, i32)>,
    s1: Seq<(i32, i32)>,
    hole: Seq<(i32, i32)>,
    x: i32,
    y: i32,
)
    requires
        flood_inv(m, out0, s0, hole),
        out1.w == m.w,
        out1.h == m.h,
        out1@.len() == m@.len(),
        m.cell(x as int, y as int) ==> reachable(m, x as int, y as int),
        if m.cell(x as int, y as int) && !out0.cell(x as int, y as int) {
            &&& out1@ == out0@.update(y * m.w + x, true)
            &&& s1 == s0.push((x, y))
            &&& 0 <= y * m.w + x < m.w * m.h
        } else {
            out1@ == out0@ && s1 == s0
        },
    ensures
        flood_inv(m, out1, s1, hole),
        forall|xx: int, yy: int| #[trigger] out0.cell(xx, yy) ==> out1.cell(xx, yy),
        m.cell(x as int, y as int) ==> out1.cell(x as int, y as int),
        count_set(out1@, m.w * m.h) + s1.len() - s0.len() == count_set(out0@, m.w * m.h) + 2 * (
        s1.len() - s0.len()),
        s1.len() - s0.len() <= 1,
        forall|p: (i32, i32)| s0.contains(p) ==> s1.contains(p),
{
    let w = m.w as int;
    let i = y * w + x;
    if m.cell(x as int, y as int) && !out0.cell(x as int, y as int) {
        assert forall|xx: int, yy: int| #[trigger] out1.cell(xx, yy) == (out0.cell(xx, yy) || (xx == x && yy == y)) by {
            if m.in_bounds(xx, yy) {
                m.lemma_index(xx, yy);
                if yy * w + xx == i {
                    lemma_index_injective(w, xx, yy, x as int, y as int);
                }
            }
        }
        lemma_count_set_update(out0@, i, m.w * m.h);
        assert(s1.last() == (x, y));
        assert forall|p: (i32, i32)| s0.contains(p) implies s1.contains(p) by {
            let k = choose|k: int| 0 <= k < s0.len() && s0[k] == p;
            assert(s1[k] == p);
        }
        assert forall|k: int| 0 <= k < s1.len() implies out1.cell(#[trigger] s1[k].0 as int, s1[k].1 as int) by {
            if k < s0.len() {
                assert(s1[k] == s0[k]);
            }
        }
        assert forall|j: int| m.w * m.h <= j < out1@.len() implies !#[trigger] out1@[j] by {
            assert(out1@[j] == out0@[j]);
        }
        assert forall|xx: int, yy: int| #[trigger] out1.cell(xx, yy) implies reachable(m, xx, yy) by {
            if !(xx == x && yy == y) {
                assert(out0.cell(xx, yy));
            }
        }
        assert forall|xx: int, yy: int| #[trigger] out1.cell(xx, yy) && !s1.contains((xx as i32, yy as i32)) && !hole.contains((xx as i32, yy as i32)) implies closed_at(m, out1, xx, yy) by {
            if xx == x && yy == y {
                assert(s1[s1.len() - 1] == (xx as i32, yy as i32));
            } else {
                if s0.contains((xx as i32, yy as i32)) {
                    let k = choose|k: int| 0 <= k < s0.len() && s0[k] == (xx as i32, yy as i32);
                    assert(s1[k] == s0[k]);
                }
                assert(closed_at(m, out0, xx, yy));
            }
        }
    } else {
        assert forall|xx: int, yy: int| #[trigger] out1.cell(xx, yy) == out0.cell(xx, yy) by {}
    }
    assert(forall|xx: int, yy: int| #[trigger] out1.cell(xx, yy) ==> reachable(m, xx, yy));
    assert(forall|k: int| 0 <= k < s1.len() ==> out1.cell(#[trigger] s1[k].0 as int, s1[k].1 as int));
    assert(forall|xx: int, yy: int| #[trigger] out1.cell(xx, yy) && !s1.contains((xx as i32, yy as i32)) && !hole.contains((xx as i32, yy as i32)) ==> closed_at(m, out1, xx, yy));
}

/// `(x, y)` is reachable when a set neighbour of it is reached in `n` steps.
proof fn lemma_reach_step(m: Mask, x: int, y: int, px: int, py: int, n: nat)
    requires
        reach_within(m, px, py, n),
        m.cell(x, y),
        (px == x - 1 && py == y) || (px == x + 1 && py == y) || (px == x && py == y - 1) || (px == x
            && py == y + 1),
    ensures
        reachable(m, x, y),
{
    assert(reach_within(m, x, y, n + 1));
}

impl Mask {
    /// Cells reachable from the border through set cells of `self`, by a
    /// depth-first flood from every set border cell.
    pub fn flood_from_border(&self) -> (r: Mask)
        requires
            self.wf(),
        ensures
            r.w == self.w,
            r.h == self.h,
            r.wf(),
            r.padding_clear(),
            forall|x: int, y: int| #[trigger] r.cell(x, y) == reachable(*self, x, y),
    {
        let mut out = Mask::new(self.w, self.h);
        proof {
            assert forall|xx: int, yy: int| !#[trigger] out.cell(xx, yy) by {
                if out.in_bounds(xx, yy) {
                    self.lemma_index(xx, yy);
                }
            }
        }
        if self.w == 0 || self.h == 0 {
            proof {
                assert forall|x: int, y: int| #[trigger] out.cell(x, y) == reachable(*self, x, y) by {
                    if reachable(*self, x, y) {
                        let n = choose|n: nat| #[trigger] reach_within(*self, x, y, n);
                        lemma_reach_is_set(*self, x, y, n);
                    }
                }
            }
            return out;
        }
        let mut stack: Vec<(i32, i32)> = Vec::new();
        let ghost none: Seq<(i32, i32)> = seq![];
        assert(flood_inv(*self, out, stack@, none));
        let mut x: i32 = 0;
        while x < self.w
            invariant
                flood_inv(*self, out, stack@, none),
                none == Seq::<(i32, i32)>::empty(),
                0 <= x <= self.w,
                0 < self.h,
                forall|xx: int| 0 <= xx < x ==> (self.cell(xx, 0) ==> #[trigger] out.cell(xx, 0)),
                forall|xx: int| 0 <= xx < x ==> (self.cell(xx, self.h - 1) ==> #[trigger] out.cell(xx, self.h - 1)),
            decreases self.w - x,
        {
            let ghost o0 = out;
            let ghost s0 = stack@;
            Self::flood_push(self, &mut out, &mut stack, x, 0);
            proof {
                assert(self.cell(x as int, 0) ==> reach_within(*self, x as int, 0, 0));
                lemma_flood_push(*self, o0, out, s0, stack@, none, x, 0);
            }
            let ghost o1 = out;
            let ghost s1 = stack@;
            Self::flood_push(self, &mut out, &mut stack, x, self.h - 1);
            proof {
                assert(self.cell(x as int, self.h - 1) ==> reach_within(*self, x as int, self.h - 1, 0));
                lemma_flood_push(*self, o1, out, s1, stack@, none, x, (self.h - 1) as i32);
                assert forall|xx: int| 0 <= xx < x + 1 && self.cell(xx, 0) implies #[trigger] out.cell(xx, 0) by {
                    if xx < x && self.cell(xx, 0) {
                        assert(o0.cell(xx, 0));
                        assert(o1.cell(xx, 0));
                    }
                }
                assert forall|xx: int| 0 <= xx < x + 1 && self.cell(xx, self.h - 1) implies #[trigger] out.cell(xx, self.h - 1) by {
                    if xx < x && self.cell(xx, self.h - 1) {
                        assert(o0.cell(xx, self.h - 1));
                        assert(o1.cell(xx, self.h - 1));
                    }
                }
            }
            x = x + 1;
        }
        let mut y: i32 = 0;
        while y < self.h
            invariant
                flood_inv(*self, out, stack@, none),
                none == Seq::<(i32, i32)>::empty(),
                0 <= y <= self.h,
                0 < self.w,
                forall|xx: int| 0 <= xx < self.w ==> (self.cell(xx, 0) ==> #[trigger] out.cell(xx, 0)),
                forall|xx: int| 0 <= xx < self.w ==> (self.cell(xx, self.h - 1) ==> #[trigger] out.cell(xx, self.h - 1)),
                forall|yy: int| 0 <= yy < y ==> (self.cell(0, yy) ==> #[trigger] out.cell(0, yy)),
                forall|yy: int| 0 <= yy < y ==> (self.cell(self.w - 1, yy) ==> #[trigger] out.cell(self.w - 1, yy)),
            decreases self.h - y,
        {
            let ghost o0 = out;
            let ghost s0 = stack@;
            Self::flood_push(self, &mut out, &mut stack, 0, y);
            proof {
                assert(self.cell(0, y as int) ==> reach_within(*self, 0, y as int, 0));
                lemma_flood_push(*self, o0, out, s0, stack@, none, 0, y);
            }
            let ghost o1 = out;
            let ghost s1 = stack@;
            Self::flood_push(self, &mut out, &mut stack, self.w - 1, y);
            proof {
                assert(self.cell(self.w - 1, y as int) ==> reach_within(*self, self.w - 1, y as int, 0));
                lemma_flood_push(*self, o1, out, s1, stack@, none, (self.w - 1) as i32, y);
                assert forall|xx: int| 0 <= xx < self.w && self.cell(xx, 0) implies #[trigger] out.cell(xx, 0) by {
                    if self.cell(xx, 0) {
                        assert(o0.cell(xx, 0));
                        assert(o1.cell(xx, 0));
                    }
                }
                assert forall|xx: int| 0 <= xx < self.w && self.cell(xx, self.h - 1) implies #[trigger] out.cell(xx, self.h - 1) by {
                    if self.cell(xx, self.h - 1) {
                        assert(o0.cell(xx, self.h - 1));
                        assert(o1.cell(xx, self.h - 1));
                    }
                }
                assert forall|yy: int| 0 <= yy < y + 1 && self.cell(0, yy) implies #[trigger] out.cell(0, yy) by {
                    if yy < y && self.cell(0, yy) {
                        assert(o0.cell(0, yy));
                        assert(o1.cell(0, yy));
                    }
                }
                assert forall|yy: int| 0 <= yy < y + 1 && self.cell(self.w - 1, yy) implies #[trigger] out.cell(self.w - 1, yy) by {
                    if yy < y && self.cell(self.w - 1, yy) {
                        assert(o0.cell(self.w - 1, yy));
                        assert(o1.cell(self.w - 1, yy));
                    }
                }
            }
            y = y + 1;
        }
        let ghost area = self.w * self.h;
        proof {
            lemma_count_set_bounds(out@, area);
            assert forall|x: int, y: int| border_seed(*self, x, y) implies #[trigger] out.cell(x, y) by {
                if x == 0 {
                    assert(self.cell(0, y));
                } else if y == 0 {
                    assert(self.cell(x, 0));
                } else if x == self.w - 1 {
                    assert(self.cell(self.w - 1, y));
                } else {
                    assert(self.cell(x, self.h - 1));
                }
            }
        }
        while stack.len() > 0
            invariant
                flood_inv(*self, out, stack@, none),
                none == Seq::<(i32, i32)>::empty(),
                area == self.w * self.h,
                0 <= count_set(out@, area) <= area,
                forall|x: int, y: int| border_seed(*self, x, y) ==> #[trigger] out.cell(x, y),
            decreases 2 * (area - count_set(out@, area)) + stack@.len(),
        {
            let ghost full = stack@;
            let (x, y) = stack.pop().unwrap();
            let ghost hole = seq![(x, y)];
            let ghost count0 = count_set(out@, area);
            proof {
                assert(full == stack@.push((x, y)));
                assert(out.cell(x as int, y as int)) by {
                    assert(full[full.len() - 1] == (x, y));
                }
                assert forall|k: int| 0 <= k < stack@.len() implies out.cell(#[trigger] stack@[k].0 as int, stack@[k].1 as int) by {
                    assert(stack@[k] == full[k]);
                }
                assert forall|xx: int, yy: int| #[trigger] out.cell(xx, yy) && !stack@.contains((xx as i32, yy as i32)) && !hole.contains((xx as i32, yy as i32)) implies closed_at(*self, out, xx, yy) by {
                    if full.contains((xx as i32, yy as i32)) {
                        let k = choose|k: int| 0 <= k < full.len() && full[k] == (xx as i32, yy as i32);
                        if k < stack@.len() {
                            assert(stack@[k] == full[k]);
                        } else {
                            assert(hole[0] == full[k]);
                        }
                    }
                }
                assert(flood_inv(*self, out, stack@, hole));
            }
            let ghost n = choose|n: nat| #[trigger] reach_within(*self, x as int, y as int, n);
            let ghost o0 = out;
            let ghost s0 = stack@;
            Self::flood_push(self, &mut out, &mut stack, x + 1, y);
            proof {
                if self.cell(x + 1, y as int) {
                    lemma_reach_step(*self, x + 1, y as int, x as int, y as int, n);
                }
                lemma_flood_push(*self, o0, out, s0, stack@, hole, (x + 1) as i32, y);
            }
            let ghost o1 = out;
            let ghost s1 = stack@;
            Self::flood_push(self, &mut out, &mut stack, x - 1, y);
            proof {
                if self.cell(x - 1, y as int) {
                    lemma_reach_step(*self, x - 1, y as int, x as int, y as int, n);
                }
                lemma_flood_push(*self, o1, out, s1, stack@, hole, (x - 1) as i32, y);
            }
            let ghost o2 = out;
            let ghost s2 = stack@;
            Self::flood_push(self, &mut out, &mut stack, x, y + 1);
            proof {
                if self.cell(x as int, y + 1) {
                    lemma_reach_step(*self, x as int, y + 1, x as int, y as int, n);
                }
                lemma_flood_push(*self, o2, out, s2, stack@, hole, x, (y + 1) as i32);
            }
            let ghost o3 = out;
            let ghost s3 = stack@;
            Self::flood_push(self, &mut out, &mut stack, x, y - 1);
            proof {
                if self.cell(x as int, y - 1) {
                    lemma_reach_step(*self, x as int, y - 1, x as int, y as int, n);
                }
                lemma_flood_push(*self, o3, out, s3, stack@, hole, x, (y - 1) as i32);
                assert(closed_at(*self, out, x as int, y as int));
                assert forall|xx: int, yy: int| border_seed(*self, xx, yy) implies #[trigger] out.cell(xx, yy) by {
                    assert(o0.cell(xx, yy));
                    assert(o1.cell(xx, yy));
                    assert(o2.cell(xx, yy));
                    assert(o3.cell(xx, yy));
                }
                assert forall|xx: int, yy: int| #[trigger] out.cell(xx, yy) && !stack@.contains((xx as i32, yy as i32)) && !none.contains((xx as i32, yy as i32)) implies closed_at(*self, out, xx, yy) by {
                    if !(xx == x && yy == y) {
                        assert(!hole.contains((xx as i32, yy as i32))) by {
                            if hole.contains((xx as i32, yy as i32)) {
                                assert(hole[0] == (xx as i32, yy as i32));
                            }
                        }
                    }
                }
                lemma_count_set_bounds(out@, area);
            }
        }
        proof {
            assert forall|x: int, y: int| #[trigger] out.cell(x, y) implies closed_at(*self, out, x, y) by {
                assert(!stack@.contains((x as i32, y as i32)));
            }
            assert forall|x: int, y: int| #[trigger] out.cell(x, y) == reachable(*self, x, y) by {
                if reachable(*self, x, y) {
                    let n = choose|n: nat| #[trigger] reach_within(*self, x, y, n);
                    lemma_flood_complete(*self, out, n);
                }
            }
        }
        out
    }
}

/// The cell `(x, y)` after a row-major fill of the rectangle `x0..x1` by
/// `y0..y1` with `on` has reached `(cx, cy)`.
pub open spec fn filled_to(
    orig: Mask,
    x0: int,
    y0: int,
    x1: int,
    y1: int,
    on: bool,
    cx: int,
    cy: int,
    x: int,
    y: int,
) -> bool {
    if orig.in_bounds(x, y) && x0 <= x < x1 && y0 <= y < y1 && before(x, y, cx, cy) {
        on
    } else {
        orig.cell(x, y)
    }
}

impl Mask {
    /// Fill (or clear) the cells `x0 <= x < x1`, `y0 <= y < y1`; cells outside
    /// the mask are ignored.
    pub fn fill_cells(&mut self, x0: i32, y0: i32, x1: i32, y1: i32, on: bool)
        requires
            old(self).wf(),
        ensures
            final(self).w == old(self).w,
            final(self).h == old(self).h,
            final(self)@.len() == old(self)@.len(),
            forall|i: int|
                old(self).w * old(self).h <= i < old(self)@.len() ==> #[trigger] final(self)@[i]
                    == old(self)@[i],
            forall|x: int, y: int| #[trigger]
                final(self).cell(x, y) == (if old(self).in_bounds(x, y) && x0 <= x < x1 && y0 <= y
                    < y1 {
                    on
                } else {
                    old(self).cell(x, y)
                }),
    {
        let ghost orig = *self;
        let ghost w = self.w as int;
        let mut cy: i32 = y0;
        while cy < y1
            invariant
                orig == *old(self),
                w == self.w,
                self.w == orig.w,
                self.h == orig.h,
                self@.len() == orig@.len(),
                orig.wf(),
                y0 <= cy,
                cy <= y1 || cy == y0,
                forall|i: int| orig.w * orig.h <= i < orig@.len() ==> #[trigger] self@[i] == orig@[i],
                forall|x: int, y: int| #[trigger] self.cell(x, y) == filled_to(orig, x0 as int, y0 as int, x1 as int, y1 as int, on, x0 as int, cy as int, x, y),
            decreases y1 - cy,
        {
            let mut cx: i32 = x0;
            while cx < x1
                invariant
                    orig == *old(self),
                    w == self.w,
                    self.w == orig.w,
                    self.h == orig.h,
                    self@.len() == orig@.len(),
                    orig.wf(),
                    y0 <= cy < y1,
                    x0 <= cx,
                    cx <= x1 || cx == x0,
                    forall|i: int| orig.w * orig.h <= i < orig@.len() ==> #[trigger] self@[i] == orig@[i],
                    forall|x: int, y: int| #[trigger] self.cell(x, y) == filled_to(orig, x0 as int, y0 as int, x1 as int, y1 as int, on, cx as int, cy as int, x, y),
                decreases x1 - cx,
            {
                let ghost prev = *self;
                proof {
                    if orig.in_bounds(cx as int, cy as int) {
                        orig.lemma_index(cx as int, cy as int);
                    }
                }
                self.set(cx, cy, on);
                proof {
                    assert forall|x: int, y: int| #[trigger] self.cell(x, y) == filled_to(orig, x0 as int, y0 as int, x1 as int, y1 as int, on, cx + 1, cy as int, x, y) by {
                        if orig.in_bounds(x, y) {
                            orig.lemma_index(x, y);
                            if orig.in_bounds(cx as int, cy as int) && y * w + x == cy * w + cx {
                                lemma_index_injective(w, x, y, cx as int, cy as int);
                            }
                            assert(prev.cell(x, y) == filled_to(orig, x0 as int, y0 as int, x1 as int, y1 as int, on, cx as int, cy as int, x, y));
                        }
                    }
                    assert forall|i: int| orig.w * orig.h <= i < orig@.len() implies #[trigger] self@[i] == orig@[i] by {
                        assert(self@[i] == prev@[i]);
                    }
                }
                cx = cx + 1;
            }
            proof {
                assert forall|x: int, y: int| #[trigger] self.cell(x, y) == filled_to(orig, x0 as int, y0 as int, x1 as int, y1 as int, on, x0 as int, cy + 1, x, y) by {
                    assert(filled_to(orig, x0 as int, y0 as int, x1 as int, y1 as int, on, cx as int, cy as int, x, y) == filled_to(orig, x0 as int, y0 as int, x1 as int, y1 as int, on, x0 as int, cy + 1, x, y));
                }
            }
            cy = cy + 1;
        }
        proof {
            assert forall|x: int, y: int| #[trigger] self.cell(x, y) == (if orig.in_bounds(x, y) && x0 <= x < x1 && y0 <= y < y1 {
                on
            } else {
                orig.cell(x, y)
            }) by {
                assert(self.cell(x, y) == filled_to(orig, x0 as int, y0 as int, x1 as int, y1 as int, on, x0 as int, cy as int, x, y));
            }
        }
    }
}

impl Clone for Mask {
    fn clone(&self) -> (r: Mask)
        ensures
            r.w == self.w,
            r.h == self.h,
            r@ == self@,
    {
        let bits = self.bits.clone();
        assert(bits@ =~= self.bits@);
        Mask { w: self.w, h: self.h, bits }
    }
}

} // verus!
