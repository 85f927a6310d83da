//! Little-endian wire encoding shared by `scene.bin` and the save slots: byte
//! writers, a bounds-checked read cursor, and the specifications both follow.

use vstd::prelude::*;
use vstd::utf8::{decode_utf8, encode_utf8, valid_utf8};

verus! {

broadcast use vstd::utf8::encode_utf8_valid_utf8, vstd::utf8::encode_utf8_decode_utf8;

// ---------------------------------------------------------------------------
// Encodings of fixed-width integers.
// ---------------------------------------------------------------------------

/// Little-endian bytes of a `u16`.
pub open spec fn le16(v: u16) -> Seq<u8> {
    seq![(v % 256) as u8, (v / 256) as u8]
}

/// Little-endian bytes of a `u32`.
pub open spec fn le32(v: u32) -> Seq<u8> {
    seq![(v % 256) as u8, (v / 256 % 256) as u8, (v / 65536 % 256) as u8, (v / 16777216) as u8]
}

/// Little-endian bytes of a `u64`.
pub open spec fn le64(v: u64) -> Seq<u8> {
    le32((v % 4294967296) as u32) + le32((v / 4294967296) as u32)
}

/// The `u16` whose little-endian bytes start at `p`.
pub open spec fn from_le16(b: Seq<u8>, p: int) -> u16 {
    (b[p] + 256 * b[p + 1]) as u16
}

/// The `u32` whose little-endian bytes start at `p`.
pub open spec fn from_le32(b: Seq<u8>, p: int) -> u32 {
    (b[p] + 256 * b[p + 1] + 65536 * b[p + 2] + 16777216 * b[p + 3]) as u32
}

/// The `u64` whose little-endian bytes start at `p`.
pub open spec fn from_le64(b: Seq<u8>, p: int) -> u64 {
    (from_le32(b, p) + 4294967296 * from_le32(b, p + 4)) as u64
}

// ---------------------------------------------------------------------------
// Parsers: each reads a value at position `p` and gives the position after it.
// ---------------------------------------------------------------------------

/// Whether `n` bytes are available at `p`.
pub open spec fn avail(b: Seq<u8>, p: int, n: int) -> bool {
    0 <= p && 0 <= n && p + n <= b.len()
}

pub open spec fn parse_u8(b: Seq<u8>, p: int) -> Option<(u8, int)> {
    if avail(b, p, 1) {
        Some((b[p], p + 1))
    } else {
        None
    }
}

pub open spec fn parse_u16(b: Seq<u8>, p: int) -> Option<(u16, int)> {
    if avail(b, p, 2) {
        Some((from_le16(b, p), p + 2))
    } else {
        None
    }
}

pub open spec fn parse_u32(b: Seq<u8>, p: int) -> Option<(u32, int)> {
    if avail(b, p, 4) {
        Some((from_le32(b, p), p + 4))
    } else {
        None
    }
}

pub open spec fn parse_u64(b: Seq<u8>, p: int) -> Option<(u64, int)> {
    if avail(b, p, 8) {
        Some((from_le64(b, p), p + 8))
    } else {
        None
    }
}

/// Two consecutive `u32`s (an `f32` pair, as bit patterns).
pub open spec fn parse_pair(b: Seq<u8>, p: int) -> Option<((u32, u32), int)> {
    if avail(b, p, 8) {
        Some(((from_le32(b, p), from_le32(b, p + 4)), p + 8))
    } else {
        None
    }
}

/// Bytes of an `f32` pair given as bit patterns.
pub open spec fn ser_pair(v: (u32, u32)) -> Seq<u8> {
    le32(v.0) + le32(v.1)
}

// ---------------------------------------------------------------------------
// Repetition: `n` values one after another.
// ---------------------------------------------------------------------------

/// The bytes of the values of `xs`, each encoded by `f`, in order.
pub open spec fn ser_seq<T>(xs: Seq<T>, f: spec_fn(T) -> Seq<u8>) -> Seq<u8>
    decreases xs.len(),
{
    if xs.len() == 0 {
        seq![]
    } else {
        ser_seq(xs.drop_last(), f) + f(xs.last())
    }
}

/// A `u32` count followed by that many values.
pub open spec fn ser_counted<T>(xs: Seq<T>, f: spec_fn(T) -> Seq<u8>) -> Seq<u8> {
    le32(xs.len() as u32) + ser_seq(xs, f)
}

/// `n` values read one after another by `f`.
pub open spec fn parse_rep<T>(
    b: Seq<u8>,
    p: int,
    n: nat,
    f: spec_fn(Seq<u8>, int) -> Option<(T, int)>,
) -> Option<(Seq<T>, int)>
    decreases n,
{
    if n == 0 {
        Some((seq![], p))
    } else {
        match parse_rep(b, p, (n - 1) as nat, f) {
            Some((xs, q)) => match f(b, q) {
                Some((x, r)) => Some((xs.push(x), r)),
                None => None,
            },
            None => None,
        }
    }
}

/// A `u32` count followed by that many values read by `f`.
pub open spec fn parse_counted<T>(
    b: Seq<u8>,
    p: int,
    f: spec_fn(Seq<u8>, int) -> Option<(T, int)>,
) -> Option<(Seq<T>, int)> {
    match parse_u32(b, p) {
        Some((n, q)) => parse_rep(b, q, n as nat, f),
        None => None,
    }
}

/// `f` reads back `x` wherever `g(x)` stands in the input.
pub open spec fn decodes<T>(
    f: spec_fn(Seq<u8>, int) -> Option<(T, int)>,
    g: spec_fn(T) -> Seq<u8>,
    x: T,
) -> bool {
    forall|b: Seq<u8>, p: int|
        #![trigger f(b, p)]
        0 <= p && p + g(x).len() <= b.len() && b.subrange(p, p + g(x).len()) == g(x) ==> f(b, p)
            == Some((x, p + g(x).len()))
}

/// `f` reads back `y` wherever `g(x)` stands in the input.
pub open spec fn decodes_as<T, U>(
    f: spec_fn(Seq<u8>, int) -> Option<(U, int)>,
    g: spec_fn(T) -> Seq<u8>,
    x: T,
    y: U,
) -> bool {
    forall|b: Seq<u8>, p: int|
        #![trigger f(b, p)]
        0 <= p && p + g(x).len() <= b.len() && b.subrange(p, p + g(x).len()) == g(x) ==> f(b, p)
            == Some((y, p + g(x).len()))
}

/// What `f` reads from `b` at `p`, and where it stops, does not change when
/// `c` follows; and it stops within `b`.
pub open spec fn reads_within<T>(
    f: spec_fn(Seq<u8>, int) -> Option<(T, int)>,
    b: Seq<u8>,
    c: Seq<u8>,
    p: int,
) -> bool {
    f(b, p) is Some ==> f(b + c, p) == f(b, p) && p <= f(b, p).unwrap().1 <= b.len()
}

/// `f` consumes no byte past the end of its input, and its result does not
/// change when more bytes follow.
pub open spec fn prefix_stable<T>(f: spec_fn(Seq<u8>, int) -> Option<(T, int)>) -> bool {
    forall|b: Seq<u8>, c: Seq<u8>, p: int| #[trigger] reads_within(f, b, c, p)
}

pub proof fn lemma_ser_seq_take<T>(xs: Seq<T>, i: int, f: spec_fn(T) -> Seq<u8>)
    requires
        0 <= i < xs.len(),
    ensures
        ser_seq(xs.take(i + 1), f) == ser_seq(xs.take(i), f) + f(xs[i]),
{
    assert(xs.take(i + 1).drop_last() =~= xs.take(i));
}

/// Values of one fixed width `w` lie one after another: value `i` takes bytes
/// `w * i .. w * i + w`.
pub proof fn lemma_ser_seq_fixed<T>(xs: Seq<T>, g: spec_fn(T) -> Seq<u8>, w: int, i: int)
    requires
        0 <= w,
        forall|x: T| #[trigger] g(x).len() == w,
    ensures
        ser_seq(xs, g).len() == w * xs.len(),
        0 <= i < xs.len() ==> ser_seq(xs, g).subrange(w * i, w * i + w) == g(xs[i]),
    decreases xs.len(),
{
    if xs.len() > 0 {
        let n = xs.len() - 1;
        let ys = xs.drop_last();
        lemma_ser_seq_fixed(ys, g, w, i);
        assert(w * n + w == w * xs.len()) by (nonlinear_arith)
            requires
                n == xs.len() - 1,
        ;
        assert(ser_seq(xs, g) == ser_seq(ys, g) + g(xs.last()));
        if 0 <= i < xs.len() {
            if i < n {
                assert(w * i + w <= w * n) by (nonlinear_arith)
                    requires
                        0 <= i < n,
                        0 <= w,
                ;
                assert(0 <= w * i) by (nonlinear_arith)
                    requires
                        0 <= i,
                        0 <= w,
                ;
                assert(ser_seq(xs, g).subrange(w * i, w * i + w) =~= ser_seq(ys, g).subrange(w * i, w * i + w));
                assert(ys[i] == xs[i]);
            } else {
                assert(ser_seq(xs, g).subrange(w * i, w * i + w) =~= g(xs.last()));
            }
        }
    }
}

/// Once a repetition has failed, reading more of it fails too.
pub proof fn lemma_parse_rep_fails_on<T>(
    b: Seq<u8>,
    p: int,
    n: nat,
    m: nat,
    f: spec_fn(Seq<u8>, int) -> Option<(T, int)>,
)
    requires
        n <= m,
        parse_rep(b, p, n, f) is None,
    ensures
        parse_rep(b, p, m, f) is None,
    decreases m,
{
    if m > n {
        lemma_parse_rep_fails_on(b, p, n, (m - 1) as nat, f);
    }
}

/// A failed element fails the repetition that reaches it.
pub proof fn lemma_parse_rep_step_fails<T>(
    b: Seq<u8>,
    p: int,
    i: nat,
    m: nat,
    f: spec_fn(Seq<u8>, int) -> Option<(T, int)>,
)
    requires
        i < m,
        parse_rep(b, p, i, f) is Some,
        f(b, parse_rep(b, p, i, f).unwrap().1) is None,
    ensures
        parse_rep(b, p, m, f) is None,
{
    lemma_parse_rep_fails_on(b, p, i + 1, m, f);
}

/// Reading back a repetition of values that each read back.
pub proof fn lemma_parse_rep_ser<T>(
    b: Seq<u8>,
    p: int,
    xs: Seq<T>,
    f: spec_fn(Seq<u8>, int) -> Option<(T, int)>,
    g: spec_fn(T) -> Seq<u8>,
)
    requires
        forall|i: int| 0 <= i < xs.len() ==> #[trigger] decodes(f, g, xs[i]),
        0 <= p,
        p + ser_seq(xs, g).len() <= b.len(),
        b.subrange(p, p + ser_seq(xs, g).len()) == ser_seq(xs, g),
    ensures
        parse_rep(b, p, xs.len(), f) == Some((xs, p + ser_seq(xs, g).len())),
    decreases xs.len(),
{
    if xs.len() > 0 {
        let ys = xs.drop_last();
        let x = xs.last();
        let s1 = ser_seq(ys, g);
        let s2 = g(x);
        assert(ser_seq(xs, g) == s1 + s2);
        lemma_subrange_concat(b, p, s1, s2);
        assert forall|i: int| 0 <= i < ys.len() implies #[trigger] decodes(f, g, ys[i]) by {
            assert(ys[i] == xs[i]);
        }
        lemma_parse_rep_ser(b, p, ys, f, g);
        assert(decodes(f, g, xs[xs.len() - 1]));
        assert(x == xs[xs.len() - 1]);
        assert(f(b, p + s1.len()) == Some((x, p + s1.len() + s2.len())));
        assert(ys.push(x) =~= xs);
    } else {
        assert(xs =~= seq![]);
    }
}

/// Reading back a repetition of values that each read back as their
/// counterpart in `ys`.
pub proof fn lemma_parse_rep_ser_as<T, U>(
    b: Seq<u8>,
    p: int,
    xs: Seq<T>,
    ys: Seq<U>,
    f: spec_fn(Seq<u8>, int) -> Option<(U, int)>,
    g: spec_fn(T) -> Seq<u8>,
)
    requires
        xs.len() == ys.len(),
        forall|i: int| 0 <= i < xs.len() ==> #[trigger] decodes_as(f, g, xs[i], ys[i]),
        0 <= p,
        p + ser_seq(xs, g).len() <= b.len(),
        b.subrange(p, p + ser_seq(xs, g).len()) == ser_seq(xs, g),
    ensures
        parse_rep(b, p, xs.len(), f) == Some((ys, p + ser_seq(xs, g).len())),
    decreases xs.len(),
{
    if xs.len() > 0 {
        let xs0 = xs.drop_last();
        let ys0 = ys.drop_last();
        let x = xs.last();
        let s1 = ser_seq(xs0, g);
        let s2 = g(x);
        assert(ser_seq(xs, g) == s1 + s2);
        lemma_subrange_concat(b, p, s1, s2);
        assert forall|i: int| 0 <= i < xs0.len() implies #[trigger] decodes_as(f, g, xs0[i], ys0[i]) by {
            assert(xs0[i] == xs[i] && ys0[i] == ys[i]);
        }
        lemma_parse_rep_ser_as(b, p, xs0, ys0, f, g);
        assert(decodes_as(f, g, xs[xs.len() - 1], ys[xs.len() - 1]));
        assert(f(b, p + s1.len()) == Some((ys.last(), p + s1.len() + s2.len())));
        assert(ys0.push(ys.last()) =~= ys);
    } else {
        assert(ys =~= seq![]);
    }
}

/// Reading back a counted repetition of values that each read back as their
/// counterpart in `ys`.
pub proof fn lemma_parse_counted_ser_as<T, U>(
    b: Seq<u8>,
    p: int,
    xs: Seq<T>,
    ys: Seq<U>,
    f: spec_fn(Seq<u8>, int) -> Option<(U, int)>,
    g: spec_fn(T) -> Seq<u8>,
)
    requires
        xs.len() <= u32::MAX,
        xs.len() == ys.len(),
        forall|i: int| 0 <= i < xs.len() ==> #[trigger] decodes_as(f, g, xs[i], ys[i]),
        0 <= p,
        p + ser_counted(xs, g).len() <= b.len(),
        b.subrange(p, p + ser_counted(xs, g).len()) == ser_counted(xs, g),
    ensures
        parse_counted(b, p, f) == Some((ys, p + ser_counted(xs, g).len())),
{
    lemma_peel_u32(b, p, xs.len() as u32, ser_seq(xs, g));
    lemma_parse_rep_ser_as(b, p + 4, xs, ys, f, g);
}

/// A repetition of prefix-stable reads is prefix-stable.
pub proof fn lemma_parse_rep_stable<T>(
    b: Seq<u8>,
    c: Seq<u8>,
    p: int,
    n: nat,
    f: spec_fn(Seq<u8>, int) -> Option<(T, int)>,
)
    requires
        prefix_stable(f),
        0 <= p <= b.len(),
        parse_rep(b, p, n, f) is Some,
    ensures
        parse_rep(b + c, p, n, f) == parse_rep(b, p, n, f),
        p <= parse_rep(b, p, n, f).unwrap().1 <= b.len(),
    decreases n,
{
    if n > 0 {
        lemma_parse_rep_stable(b, c, p, (n - 1) as nat, f);
        let q = parse_rep(b, p, (n - 1) as nat, f).unwrap().1;
        assert(reads_within(f, b, c, q));
    }
}

/// A counted list, like each of its items, reads the same when more bytes
/// follow, and ends within its input.
pub proof fn lemma_parse_counted_stable<T>(
    b: Seq<u8>,
    c: Seq<u8>,
    p: int,
    f: spec_fn(Seq<u8>, int) -> Option<(T, int)>,
)
    requires
        prefix_stable(f),
        parse_counted(b, p, f) is Some,
    ensures
        parse_counted(b + c, p, f) == parse_counted(b, p, f),
        p <= parse_counted(b, p, f).unwrap().1 <= b.len(),
{
    let (n, q) = parse_u32(b, p).unwrap();
    assert(parse_u32(b + c, p) == parse_u32(b, p));
    lemma_parse_rep_stable(b, c, q, n as nat, f);
}

// ---------------------------------------------------------------------------
// Names: a `u16` byte length and that many UTF-8 bytes.
// ---------------------------------------------------------------------------

/// Longest name, in UTF-8 bytes, that a record carries whole.
pub open spec fn max_name_len() -> int {
    65535
}

/// The UTF-8 bytes a record keeps of a name: at most `u16::MAX` of them.
pub open spec fn name_bytes(name: Seq<char>) -> Seq<u8> {
    let e = encode_utf8(name);
    if e.len() <= max_name_len() {
        e
    } else {
        e.subrange(0, max_name_len())
    }
}

/// Bytes of a name field.
pub open spec fn ser_name(name: Seq<char>) -> Seq<u8> {
    le16(name_bytes(name).len() as u16) + name_bytes(name)
}

/// What `String::from_utf8_lossy` makes of bytes that are not valid UTF-8.
pub uninterp spec fn utf8_lossy(bytes: Seq<u8>) -> Seq<char>;

/// The text a name field holds: the UTF-8 decoding when the bytes are valid.
pub open spec fn decode_name(bytes: Seq<u8>) -> Seq<char> {
    if valid_utf8(bytes) {
        decode_utf8(bytes)
    } else {
        utf8_lossy(bytes)
    }
}

pub open spec fn parse_name(b: Seq<u8>, p: int) -> Option<(Seq<char>, int)> {
    match parse_u16(b, p) {
        Some((n, q)) => if avail(b, q, n as int) {
            Some((decode_name(b.subrange(q, q + n)), q + n))
        } else {
            None
        },
        None => None,
    }
}

/// The text a name field written for `name` reads back as: the name's first
/// `u16::MAX` UTF-8 bytes, decoded.
pub open spec fn stored_name(name: Seq<char>) -> Seq<char> {
    decode_name(name_bytes(name))
}

/// Whether a name is kept whole by its record.
pub open spec fn name_fits(name: Seq<char>) -> bool {
    encode_utf8(name).len() <= max_name_len()
}

// ---------------------------------------------------------------------------
// Facts about the encodings.
// ---------------------------------------------------------------------------

pub proof fn lemma_le16(v: u16)
    ensures
        le16(v).len() == 2,
        from_le16(le16(v), 0) == v,
{
    assert((v % 256) + 256 * (v / 256) == v);
}

pub proof fn lemma_le32(v: u32)
    ensures
        le32(v).len() == 4,
        from_le32(le32(v), 0) == v,
{
    assert((v % 256) + 256 * (v / 256 % 256) + 65536 * (v / 65536 % 256) + 16777216 * (v
        / 16777216) == v);
}

pub proof fn lemma_le64(v: u64)
    ensures
        le64(v).len() == 8,
        from_le64(le64(v), 0) == v,
{
    let lo = (v % 4294967296) as u32;
    let hi = (v / 4294967296) as u32;
    lemma_le32(lo);
    lemma_le32(hi);
    let s = le64(v);
    assert(s.subrange(4, 8) =~= le32(hi));
    assert(from_le32(s, 4) == from_le32(s.subrange(4, 8), 0));
    assert(from_le32(s, 0) == from_le32(le32(lo), 0));
    assert(lo + 4294967296 * hi == v);
}

/// Reading a `u16` where its bytes stand.
pub proof fn lemma_parse_u16(b: Seq<u8>, p: int, v: u16)
    requires
        0 <= p,
        p + 2 <= b.len(),
        b.subrange(p, p + 2) == le16(v),
    ensures
        parse_u16(b, p) == Some((v, p + 2)),
{
    lemma_le16(v);
    assert(b[p] == le16(v)[0] && b[p + 1] == le16(v)[1]) by {
        assert(b.subrange(p, p + 2)[0] == b[p]);
        assert(b.subrange(p, p + 2)[1] == b[p + 1]);
    }
}

/// Reading a `u32` where its bytes stand.
pub proof fn lemma_parse_u32(b: Seq<u8>, p: int, v: u32)
    requires
        0 <= p,
        p + 4 <= b.len(),
        b.subrange(p, p + 4) == le32(v),
    ensures
        parse_u32(b, p) == Some((v, p + 4)),
{
    lemma_le32(v);
    let s = b.subrange(p, p + 4);
    assert(s[0] == b[p] && s[1] == b[p + 1] && s[2] == b[p + 2] && s[3] == b[p + 3]);
}

/// Reading a `u64` where its bytes stand.
pub proof fn lemma_parse_u64(b: Seq<u8>, p: int, v: u64)
    requires
        0 <= p,
        p + 8 <= b.len(),
        b.subrange(p, p + 8) == le64(v),
    ensures
        parse_u64(b, p) == Some((v, p + 8)),
{
    lemma_le64(v);
    let s = b.subrange(p, p + 8);
    assert(forall|i: int| 0 <= i < 8 ==> s[i] == b[p + i]);
    assert(from_le32(b, p) == from_le32(s, 0));
    assert(from_le32(b, p + 4) == from_le32(s, 4));
}

/// Reading an `f32` pair where its bytes stand.
pub proof fn lemma_parse_pair(b: Seq<u8>, p: int, v: (u32, u32))
    requires
        0 <= p,
        p + 8 <= b.len(),
        b.subrange(p, p + 8) == ser_pair(v),
    ensures
        parse_pair(b, p) == Some((v, p + 8)),
{
    lemma_le32(v.0);
    lemma_le32(v.1);
    let s = b.subrange(p, p + 8);
    assert(s.subrange(0, 4) =~= le32(v.0));
    assert(s.subrange(4, 8) =~= le32(v.1));
    assert(b.subrange(p, p + 4) =~= le32(v.0));
    assert(b.subrange(p + 4, p + 8) =~= le32(v.1));
    lemma_parse_u32(b, p, v.0);
    lemma_parse_u32(b, p + 4, v.1);
}

/// Reading a name field where any name's field stands: the name's stored
/// bytes, decoded.
pub proof fn lemma_parse_any_name(b: Seq<u8>, p: int, name: Seq<char>)
    requires
        0 <= p,
        p + ser_name(name).len() <= b.len(),
        b.subrange(p, p + ser_name(name).len()) == ser_name(name),
    ensures
        parse_name(b, p) == Some((stored_name(name), p + ser_name(name).len())),
{
    let e = name_bytes(name);
    lemma_le16(e.len() as u16);
    let s = ser_name(name);
    assert(s.subrange(0, 2) =~= le16(e.len() as u16));
    assert(b.subrange(p, p + 2) =~= s.subrange(0, 2));
    lemma_parse_u16(b, p, e.len() as u16);
    assert(b.subrange(p + 2, p + 2 + e.len()) =~= s.subrange(2, s.len() as int));
    assert(s.subrange(2, s.len() as int) =~= e);
}

/// A name that fits its field reads back as itself.
pub proof fn lemma_stored_name_fits(name: Seq<char>)
    requires
        name_fits(name),
    ensures
        stored_name(name) == name,
{
}

/// Reading a name field at the front of `ser_name(name) + rest`, for any name.
pub proof fn lemma_peel_any_name(b: Seq<u8>, p: int, name: Seq<char>, rest: Seq<u8>)
    requires
        0 <= p,
        p + ser_name(name).len() + rest.len() <= b.len(),
        b.subrange(p, p + ser_name(name).len() + rest.len()) == ser_name(name) + rest,
    ensures
        parse_name(b, p) == Some((stored_name(name), p + ser_name(name).len())),
        b.subrange(p + ser_name(name).len(), p + ser_name(name).len() + rest.len()) == rest,
{
    lemma_subrange_concat(b, p, ser_name(name), rest);
    lemma_parse_any_name(b, p, name);
}

/// Splitting a sequence in two, and reading the two halves back.
pub proof fn lemma_subrange_concat(b: Seq<u8>, p: int, s1: Seq<u8>, s2: Seq<u8>)
    requires
        0 <= p,
        p + s1.len() + s2.len() <= b.len(),
        b.subrange(p, p + s1.len() + s2.len()) == s1 + s2,
    ensures
        b.subrange(p, p + s1.len()) == s1,
        b.subrange(p + s1.len(), p + s1.len() + s2.len()) == s2,
{
    assert(b.subrange(p, p + s1.len()) =~= (s1 + s2).subrange(0, s1.len() as int));
    assert(b.subrange(p + s1.len(), p + s1.len() + s2.len()) =~= (s1 + s2).subrange(
        s1.len() as int,
        (s1.len() + s2.len()) as int,
    ));
}

/// Reading a byte at the front of `seq![v] + rest`.
pub proof fn lemma_peel_u8(b: Seq<u8>, p: int, v: u8, rest: Seq<u8>)
    requires
        0 <= p,
        p + 1 + rest.len() <= b.len(),
        b.subrange(p, p + 1 + rest.len()) == seq![v] + rest,
    ensures
        parse_u8(b, p) == Some((v, p + 1)),
        b[p] == v,
        b.subrange(p + 1, p + 1 + rest.len()) == rest,
{
    lemma_subrange_concat(b, p, seq![v], rest);
    assert(b.subrange(p, p + 1)[0] == b[p]);
}

/// Reading a `u32` at the front of `le32(v) + rest`.
pub proof fn lemma_peel_u32(b: Seq<u8>, p: int, v: u32, rest: Seq<u8>)
    requires
        0 <= p,
        p + 4 + rest.len() <= b.len(),
        b.subrange(p, p + 4 + rest.len()) == le32(v) + rest,
    ensures
        parse_u32(b, p) == Some((v, p + 4)),
        from_le32(b, p) == v,
        b.subrange(p + 4, p + 4 + rest.len()) == rest,
{
    lemma_le32(v);
    lemma_subrange_concat(b, p, le32(v), rest);
    lemma_parse_u32(b, p, v);
}

/// Reading an `f32` pair at the front of `ser_pair(v) + rest`.
pub proof fn lemma_peel_pair(b: Seq<u8>, p: int, v: (u32, u32), rest: Seq<u8>)
    requires
        0 <= p,
        p + 8 + rest.len() <= b.len(),
        b.subrange(p, p + 8 + rest.len()) == ser_pair(v) + rest,
    ensures
        parse_pair(b, p) == Some((v, p + 8)),
        from_le32(b, p) == v.0,
        from_le32(b, p + 4) == v.1,
        b.subrange(p + 8, p + 8 + rest.len()) == rest,
{
    lemma_le32(v.0);
    lemma_le32(v.1);
    lemma_subrange_concat(b, p, ser_pair(v), rest);
    lemma_parse_pair(b, p, v);
}

/// Reading a counted repetition where its bytes stand.
pub proof fn lemma_parse_counted_ser<T>(
    b: Seq<u8>,
    p: int,
    xs: Seq<T>,
    f: spec_fn(Seq<u8>, int) -> Option<(T, int)>,
    g: spec_fn(T) -> Seq<u8>,
)
    requires
        xs.len() <= u32::MAX,
        forall|i: int| 0 <= i < xs.len() ==> #[trigger] decodes(f, g, xs[i]),
        0 <= p,
        p + ser_counted(xs, g).len() <= b.len(),
        b.subrange(p, p + ser_counted(xs, g).len()) == ser_counted(xs, g),
    ensures
        parse_counted(b, p, f) == Some((xs, p + ser_counted(xs, g).len())),
{
    lemma_peel_u32(b, p, xs.len() as u32, ser_seq(xs, g));
    lemma_parse_rep_ser(b, p + 4, xs, f, g);
}

/// A name reads the same when more bytes follow, and ends within its input.
pub proof fn lemma_parse_name_stable(b: Seq<u8>, c: Seq<u8>, p: int)
    ensures
        parse_name(b, p) is Some ==> parse_name(b + c, p) == parse_name(b, p) && parse_name(
            b,
            p,
        ).unwrap().1 <= b.len(),
{
    if parse_name(b, p) is Some {
        let (n, q) = parse_u16(b, p)->0;
        assert((b + c).subrange(q, q + n) =~= b.subrange(q, q + n));
    }
}

// ---------------------------------------------------------------------------
// Writers.
// ---------------------------------------------------------------------------

pub fn put_u8(out: &mut Vec<u8>, v: u8)
    ensures
        final(out)@ == old(out)@ + seq![v],
{
    out.push(v);
}

pub fn put_u16(out: &mut Vec<u8>, v: u16)
    ensures
        final(out)@ == old(out)@ + le16(v),
{
    out.push((v % 256) as u8);
    out.push((v / 256) as u8);
}

pub fn put_u32(out: &mut Vec<u8>, v: u32)
    ensures
        final(out)@ == old(out)@ + le32(v),
{
    out.push((v % 256) as u8);
    out.push((v / 256 % 256) as u8);
    out.push((v / 65536 % 256) as u8);
    out.push((v / 16777216) as u8);
}

pub fn put_u64(out: &mut Vec<u8>, v: u64)
    ensures
        final(out)@ == old(out)@ + le64(v),
{
    put_u32(out, (v % 4294967296) as u32);
    put_u32(out, (v / 4294967296) as u32);
    assert(final(out)@ =~= old(out)@ + le64(v));
}

/// Writes an `f32` given as its bit pattern.
pub fn put_f32(out: &mut Vec<u8>, bits: u32)
    ensures
        final(out)@ == old(out)@ + le32(bits),
{
    put_u32(out, bits);
}

/// Writes an `f32` pair given as bit patterns.
pub fn put_pair(out: &mut Vec<u8>, v: (u32, u32))
    ensures
        final(out)@ == old(out)@ + ser_pair(v),
{
    put_f32(out, v.0);
    put_f32(out, v.1);
    assert(final(out)@ =~= old(out)@ + ser_pair(v));
}

/// Writes a `u32` count, truncating a longer length as the format does.
pub fn put_count(out: &mut Vec<u8>, n: usize)
    ensures
        final(out)@ == old(out)@ + le32(n as u32),
{
    put_u32(out, n as u32);
}

/// Writes a name field: its UTF-8 length (at most `u16::MAX`) and its bytes.
pub fn put_name(out: &mut Vec<u8>, name: &String)
    ensures
        final(out)@ == old(out)@ + ser_name(name@),
{
    let s = name.as_str();
    let bytes = s.as_bytes();
    proof {
        assert(bytes@ == encode_utf8(name@));
    }
    let n: usize = if bytes.len() < 65535 {
        bytes.len()
    } else {
        65535
    };
    put_u16(out, n as u16);
    let ghost start = out@;
    let mut k: usize = 0;
    while k < n
        invariant
            n <= bytes@.len(),
            k <= n,
            out@ == start + bytes@.subrange(0, k as int),
        decreases n - k,
    {
        out.push(bytes[k]);
        k = k + 1;
        assert(out@ =~= start + bytes@.subrange(0, k as int));
    }
    assert(bytes@.subrange(0, n as int) =~= name_bytes(name@));
}

// ---------------------------------------------------------------------------
// Reading.
// ---------------------------------------------------------------------------

/// The decoded text of a name field, by `String::from_utf8_lossy`: valid UTF-8
/// decodes as itself; what it makes of other bytes is left as a name.
#[verifier::external_body]
fn utf8_lossy_string(bytes: &[u8]) -> (s: String)
    ensures
        s@ == decode_name(bytes@),
        valid_utf8(bytes@) ==> s@ == decode_utf8(bytes@),
        !valid_utf8(bytes@) ==> s@ == utf8_lossy(bytes@),
{
    String::from_utf8_lossy(bytes).into_owned()
}

/// A bounds-checked read position in a byte slice.
pub struct Cursor<'a> {
    pub bytes: &'a [u8],
    pub pos: usize,
}

impl<'a> Cursor<'a> {
    /// The next `n` bytes, advancing past them.
    pub fn take(&mut self, n: usize) -> (r: Option<&'a [u8]>)
        ensures
            final(self).bytes == old(self).bytes,
            if avail(old(self).bytes@, old(self).pos as int, n as int) {
                &&& r matches Some(s)
                &&& s@ == old(self).bytes@.subrange(
                    old(self).pos as int,
                    old(self).pos + n,
                )
                &&& final(self).pos == old(self).pos + n
            } else {
                r is None && final(self).pos == old(self).pos
            },
    {
        if n > self.bytes.len() || self.pos > self.bytes.len() - n {
            return None;
        }
        let end = self.pos + n;
        let slice = &self.bytes[self.pos..end];
        self.pos = end;
        Some(slice)
    }

    pub fn u8(&mut self) -> (r: Option<u8>)
        ensures
            final(self).bytes == old(self).bytes,
            match parse_u8(old(self).bytes@, old(self).pos as int) {
                Some((v, q)) => r == Some(v) && final(self).pos == q,
                None => r is None,
            },
    {
        if self.pos < self.bytes.len() {
            let v = self.bytes[self.pos];
            self.pos = self.pos + 1;
            Some(v)
        } else {
            None
        }
    }

    pub fn u16(&mut self) -> (r: Option<u16>)
        ensures
            final(self).bytes == old(self).bytes,
            match parse_u16(old(self).bytes@, old(self).pos as int) {
                Some((v, q)) => r == Some(v) && final(self).pos == q,
                None => r is None,
            },
    {
        if self.bytes.len() < 2 || self.pos > self.bytes.len() - 2 {
            return None;
        }
        let p = self.pos;
        let v = (self.bytes[p] as u16) + 256 * (self.bytes[p + 1] as u16);
        self.pos = p + 2;
        Some(v)
    }

    pub fn u32(&mut self) -> (r: Option<u32>)
        ensures
            final(self).bytes == old(self).bytes,
            match parse_u32(old(self).bytes@, old(self).pos as int) {
                Some((v, q)) => r == Some(v) && final(self).pos == q,
                None => r is None,
            },
    {
        if self.bytes.len() < 4 || self.pos > self.bytes.len() - 4 {
            return None;
        }
        let p = self.pos;
        let v = (self.bytes[p] as u32) + 256 * (self.bytes[p + 1] as u32) + 65536 * (self.bytes[p
            + 2] as u32) + 16777216 * (self.bytes[p + 3] as u32);
        self.pos = p + 4;
        Some(v)
    }

    pub fn u64(&mut self) -> (r: Option<u64>)
        ensures
            final(self).bytes == old(self).bytes,
            match parse_u64(old(self).bytes@, old(self).pos as int) {
                Some((v, q)) => r == Some(v) && final(self).pos == q,
                None => r is None,
            },
    {
        if self.bytes.len() < 8 || self.pos > self.bytes.len() - 8 {
            return None;
        }
        let lo = self.u32();
        let hi = self.u32();
        match (lo, hi) {
            (Some(lo), Some(hi)) => Some((lo as u64) + 4294967296 * (hi as u64)),
            _ => None,
        }
    }

    /// An `f32`, as its bit pattern.
    pub fn float_bits(&mut self) -> (r: Option<u32>)
        ensures
            final(self).bytes == old(self).bytes,
            match parse_u32(old(self).bytes@, old(self).pos as int) {
                Some((v, q)) => r == Some(v) && final(self).pos == q,
                None => r is None,
            },
    {
        self.u32()
    }

    /// An `f32` pair, as bit patterns.
    pub fn pair(&mut self) -> (r: Option<(u32, u32)>)
        ensures
            final(self).bytes == old(self).bytes,
            match parse_pair(old(self).bytes@, old(self).pos as int) {
                Some((v, q)) => r == Some(v) && final(self).pos == q,
                None => r is None,
            },
    {
        if self.bytes.len() < 8 || self.pos > self.bytes.len() - 8 {
            return None;
        }
        let a = self.u32();
        let b = self.u32();
        match (a, b) {
            (Some(a), Some(b)) => Some((a, b)),
            _ => None,
        }
    }

    /// A name field.
    pub fn name(&mut self) -> (r: Option<String>)
        ensures
            final(self).bytes == old(self).bytes,
            match parse_name(old(self).bytes@, old(self).pos as int) {
                Some((v, q)) => r matches Some(s) && s@ == v && final(self).pos == q,
                None => r is None,
            },
    {
        let len = match self.u16() {
            Some(n) => n,
            None => return None,
        };
        match self.take(len as usize) {
            Some(b) => Some(utf8_lossy_string(b)),
            None => None,
        }
    }
}

} // verus!
