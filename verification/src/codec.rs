//! Byte-layout codec: a self-describing little-endian buffer holding an
//! index, a validated or unchecked read-only view over such a buffer, and a
//! full decode back into an owned index.
//!
//! Layout: four 64-bit header words — `epsilon`, the bottom segment count,
//! a top-level presence flag, the top segment count — followed by the bottom
//! segments and then the top segments, 40 bytes each (slope numerator, slope
//! denominator, anchor position, start key, end key). Every word is stored
//! least-significant byte first and read back arithmetically, so the layout
//! is the same on every host.

use crate::pgm::{
    chosen_segment, ends_sorted, level_wf, locate, predict, search_spec, total_keys_spec,
    wf_model, IndexModel, PGMIndex, PGMIndexError, Segment,
};
use vstd::arithmetic::div_mod::{lemma_div_denominator, lemma_fundamental_div_mod};
use vstd::prelude::*;

verus! {

/// Validation failures of `from_bytes` and `as_archived`: the buffer is not a
/// well-formed serialized index (truncated, inconsistent, or corrupted).
#[derive(Clone, Copy, Debug, PartialEq, Eq, Structural)]
pub enum ValidationError {
    /// The buffer's length, header, or segment contents are inconsistent.
    Malformed,
}

/// `256^n`: the number of values `n` bytes can hold.
pub open spec fn pow256(n: nat) -> int
    decreases n,
{
    if n == 0 {
        1
    } else {
        256 * pow256((n - 1) as nat)
    }
}

/// The `n` little-endian bytes of `v`.
pub open spec fn le_bytes(v: int, n: nat) -> Seq<u8>
    decreases n,
{
    if n == 0 {
        Seq::empty()
    } else {
        seq![(v % 256) as u8] + le_bytes(v / 256, (n - 1) as nat)
    }
}

/// The value a little-endian byte sequence stands for.
pub open spec fn le_val(s: Seq<u8>) -> int
    decreases s.len(),
{
    if s.len() == 0 {
        0
    } else {
        s[0] + 256 * le_val(s.drop_first())
    }
}

/// The 64-bit word stored at byte offset `off`.
pub open spec fn rd(b: Seq<u8>, off: int) -> int {
    le_val(b.subrange(off, off + 8))
}

proof fn lemma_pow256_values()
    ensures
        pow256(7) == 0x100_0000_0000_0000,
        pow256(8) == 0x1_0000_0000_0000_0000,
{
    reveal_with_fuel(pow256, 9);
}

proof fn lemma_pow256_le(a: nat, b: nat)
    requires
        a <= b,
    ensures
        1 <= pow256(a) <= pow256(b),
    decreases b,
{
    if b == 0 {
    } else if a == b {
        lemma_pow256_le((a - 1) as nat, (b - 1) as nat);
    } else {
        lemma_pow256_le(a, (b - 1) as nat);
    }
}

proof fn lemma_le_bytes_len(v: int, n: nat)
    ensures
        le_bytes(v, n).len() == n,
    decreases n,
{
    if n > 0 {
        lemma_le_bytes_len(v / 256, (n - 1) as nat);
    }
}

proof fn lemma_le_val_bound(s: Seq<u8>)
    ensures
        0 <= le_val(s) < pow256(s.len()),
    decreases s.len(),
{
    if s.len() > 0 {
        lemma_le_val_bound(s.drop_first());
    }
}

proof fn lemma_le_val_le_bytes(v: int, n: nat)
    requires
        0 <= v < pow256(n),
    ensures
        le_val(le_bytes(v, n)) == v,
    decreases n,
{
    if n > 0 {
        lemma_fundamental_div_mod(v, 256);
        assert(v / 256 < pow256((n - 1) as nat)) by {
            assert(v < 256 * pow256((n - 1) as nat));
            vstd::arithmetic::div_mod::lemma_multiply_divide_lt(v, pow256((n - 1) as nat), 256);
        }
        lemma_le_val_le_bytes(v / 256, (n - 1) as nat);
        lemma_le_bytes_len(v / 256, (n - 1) as nat);
        let s = le_bytes(v, n);
        assert(s.drop_first() =~= le_bytes(v / 256, (n - 1) as nat));
    }
}

/// Reads the 64-bit little-endian word at `off`.
fn read_u64(bytes: &[u8], off: usize) -> (r: u64)
    requires
        off + 8 <= bytes@.len(),
    ensures
        r == rd(bytes@, off as int),
{
    let blen = bytes.len();
    let mut k: usize = 8;
    let mut v: u64 = 0;
    proof {
        assert(bytes@.subrange(off + 8, off as int + 8) =~= Seq::<u8>::empty());
    }
    while k > 0
        invariant
            k <= 8,
            blen == bytes@.len(),
            off + 8 <= blen,
            v == le_val(bytes@.subrange(off + k, off as int + 8)),
            v < pow256((8 - k) as nat),
        decreases k,
    {
        k = k - 1;
        proof {
            assert(bytes@.subrange(off + k, off as int + 8).drop_first() =~= bytes@.subrange(
                off + k + 1,
                off as int + 8,
            ));
            lemma_pow256_le((7 - k) as nat, 7);
            lemma_pow256_values();
        }
        v = bytes[off + k] as u64 + v * 256;
    }
    proof {
        lemma_le_val_bound(bytes@.subrange(off as int, off as int + 8));
    }
    v
}

proof fn lemma_le_bytes_index(v: int, n: nat, i: int)
    requires
        0 <= v,
        0 <= i < n,
    ensures
        le_bytes(v, n)[i] == ((v / pow256(i as nat)) % 256) as u8,
    decreases n,
{
    lemma_le_bytes_len(v / 256, (n - 1) as nat);
    if i == 0 {
        assert(pow256(0) == 1);
        assert(v / 1 == v);
    } else {
        lemma_le_bytes_index(v / 256, (n - 1) as nat, i - 1);
        lemma_pow256_le((i - 1) as nat, (i - 1) as nat);
        lemma_div_denominator(v, 256, pow256((i - 1) as nat));
        assert(pow256(i as nat) == 256 * pow256((i - 1) as nat));
        assert(le_bytes(v, n)[i] == le_bytes(v / 256, (n - 1) as nat)[i - 1]);
    }
}

/// Appends the 64-bit little-endian bytes of `v`.
fn write_u64(out: &mut Vec<u8>, v: u64)
    ensures
        final(out)@ == old(out)@ + le_bytes(v as int, 8),
{
    let mut x: u64 = v;
    let mut k: usize = 0;
    proof {
        assert(out@ =~= out@ + le_bytes(v as int, 8).subrange(0, 0));
        assert(pow256(0) == 1);
        assert(v as int / 1 == v as int);
    }
    while k < 8
        invariant
            k <= 8,
            out@ == old(out)@ + le_bytes(v as int, 8).subrange(0, k as int),
            x == (v as int) / pow256(k as nat),
        decreases 8 - k,
    {
        proof {
            lemma_le_bytes_len(v as int, 8);
            lemma_le_bytes_index(v as int, 8, k as int);
            lemma_pow256_le(k as nat, k as nat);
            lemma_div_denominator(v as int, pow256(k as nat), 256);
            assert(pow256((k + 1) as nat) == 256 * pow256(k as nat));
            assert(le_bytes(v as int, 8).subrange(0, k + 1) =~= le_bytes(v as int, 8).subrange(
                0,
                k as int,
            ).push(le_bytes(v as int, 8)[k as int]));
        }
        out.push((x % 256) as u8);
        x = x / 256;
        k = k + 1;
    }
    proof {
        lemma_le_bytes_len(v as int, 8);
        assert(le_bytes(v as int, 8).subrange(0, 8) =~= le_bytes(v as int, 8));
    }
}

/// The 40 bytes of one segment.
pub open spec fn seg_bytes(s: Segment) -> Seq<u8> {
    le_bytes(s.slope_num as int, 8) + le_bytes(s.slope_den as int, 8) + le_bytes(
        s.anchor_pos as int,
        8,
    ) + le_bytes(s.start_key as int, 8) + le_bytes(s.end_key as int, 8)
}

/// The concatenated bytes of a segment sequence.
pub open spec fn segs_bytes(segs: Seq<Segment>) -> Seq<u8>
    decreases segs.len(),
{
    if segs.len() == 0 {
        Seq::empty()
    } else {
        seg_bytes(segs.first()) + segs_bytes(segs.drop_first())
    }
}

/// The top-level segments, or the empty sequence when the level is absent.
pub open spec fn top_or_empty(m: IndexModel) -> Seq<Segment> {
    match m.top_level {
        Some(t) => t,
        None => Seq::empty(),
    }
}

/// The serialized form of an index model.
pub open spec fn encode_spec(m: IndexModel) -> Seq<u8> {
    le_bytes(m.epsilon as int, 8) + le_bytes(m.segments.len() as int, 8) + le_bytes(
        if m.top_level is Some {
            1
        } else {
            0
        },
        8,
    ) + le_bytes(top_or_empty(m).len() as int, 8) + segs_bytes(m.segments) + segs_bytes(
        top_or_empty(m),
    )
}

/// Whether a model's counts and error bound fit the fixed-width header words.
pub open spec fn encodable(m: IndexModel) -> bool {
    &&& m.segments.len() < pow256(8)
    &&& top_or_empty(m).len() < pow256(8)
    &&& m.epsilon <= usize::MAX
}

/// The segment stored at byte offset `base`.
pub open spec fn seg_at_spec(b: Seq<u8>, base: int) -> Segment {
    Segment {
        slope_num: rd(b, base) as u64,
        slope_den: rd(b, base + 8) as u64,
        anchor_pos: rd(b, base + 16) as u64,
        start_key: rd(b, base + 24) as u64,
        end_key: rd(b, base + 32) as u64,
    }
}

/// The `n` segments stored from byte offset `base` on.
pub open spec fn decode_segs(b: Seq<u8>, base: int, n: int) -> Seq<Segment> {
    Seq::new(n as nat, |i: int| seg_at_spec(b, base + 40 * i))
}

/// The index model a buffer holds.
pub open spec fn decode_spec(b: Seq<u8>) -> IndexModel {
    IndexModel {
        segments: decode_segs(b, 32, rd(b, 8)),
        top_level: if rd(b, 16) == 1 {
            Some(decode_segs(b, 32 + 40 * rd(b, 8), rd(b, 24)))
        } else {
            None
        },
        epsilon: rd(b, 0) as nat,
    }
}

/// Structural validity of a buffer: consistent length and header, positive
/// slope denominators, and ordered end keys on both levels.
pub open spec fn valid_encoding(b: Seq<u8>) -> bool {
    let eps = rd(b, 0);
    let nb = rd(b, 8);
    let has = rd(b, 16);
    let nt = rd(b, 24);
    &&& b.len() >= 32
    &&& (has == 0 || has == 1)
    &&& (has == 0 ==> nt == 0)
    &&& (has == 1 ==> nt >= 1)
    &&& nb >= 1
    &&& b.len() == 32 + 40 * (nb + nt)
    &&& eps <= usize::MAX
    &&& level_wf(decode_segs(b, 32, nb))
    &&& (has == 1 ==> level_wf(decode_segs(b, 32 + 40 * nb, nt)))
}

proof fn lemma_segs_bytes_len(segs: Seq<Segment>)
    ensures
        segs_bytes(segs).len() == 40 * segs.len(),
    decreases segs.len(),
{
    if segs.len() == 0 {
    } else {
        lemma_seg_bytes_fields(segs.first());
        lemma_segs_bytes_len(segs.drop_first());
    }
}

proof fn lemma_rd_prefix(x: Seq<u8>, y: Seq<u8>, off: int)
    requires
        0 <= off,
        off + 8 <= x.len(),
    ensures
        rd(x + y, off) == rd(x, off),
{
    assert((x + y).subrange(off, off + 8) =~= x.subrange(off, off + 8));
}

proof fn lemma_rd_suffix(x: Seq<u8>, y: Seq<u8>, off: int)
    requires
        x.len() <= off,
        off + 8 <= x.len() + y.len(),
    ensures
        rd(x + y, off) == rd(y, off - x.len()),
{
    assert((x + y).subrange(off, off + 8) =~= y.subrange(off - x.len(), off - x.len() + 8));
}

proof fn lemma_seg_bytes_fields(s: Segment)
    ensures
        seg_bytes(s).len() == 40,
        rd(seg_bytes(s), 0) == s.slope_num,
        rd(seg_bytes(s), 8) == s.slope_den,
        rd(seg_bytes(s), 16) == s.anchor_pos,
        rd(seg_bytes(s), 24) == s.start_key,
        rd(seg_bytes(s), 32) == s.end_key,
{
    lemma_pow256_values();
    let b1 = le_bytes(s.slope_num as int, 8);
    let b2 = le_bytes(s.slope_den as int, 8);
    let b3 = le_bytes(s.anchor_pos as int, 8);
    let b4 = le_bytes(s.start_key as int, 8);
    let b5 = le_bytes(s.end_key as int, 8);
    lemma_le_bytes_len(s.slope_num as int, 8);
    lemma_le_bytes_len(s.slope_den as int, 8);
    lemma_le_bytes_len(s.anchor_pos as int, 8);
    lemma_le_bytes_len(s.start_key as int, 8);
    lemma_le_bytes_len(s.end_key as int, 8);
    lemma_le_val_le_bytes(s.slope_num as int, 8);
    lemma_le_val_le_bytes(s.slope_den as int, 8);
    lemma_le_val_le_bytes(s.anchor_pos as int, 8);
    lemma_le_val_le_bytes(s.start_key as int, 8);
    lemma_le_val_le_bytes(s.end_key as int, 8);
    assert(seg_bytes(s).subrange(0, 8) =~= b1);
    assert(seg_bytes(s).subrange(8, 16) =~= b2);
    assert(seg_bytes(s).subrange(16, 24) =~= b3);
    assert(seg_bytes(s).subrange(24, 32) =~= b4);
    assert(seg_bytes(s).subrange(32, 40) =~= b5);
}

proof fn lemma_segs_extract(segs: Seq<Segment>, i: int)
    requires
        0 <= i < segs.len(),
    ensures
        seg_at_spec(segs_bytes(segs), 40 * i) == segs[i],
    decreases i,
{
    let head = seg_bytes(segs.first());
    let tail = segs_bytes(segs.drop_first());
    lemma_seg_bytes_fields(segs.first());
    lemma_segs_bytes_len(segs.drop_first());
    if i == 0 {
        lemma_rd_prefix(head, tail, 0);
        lemma_rd_prefix(head, tail, 8);
        lemma_rd_prefix(head, tail, 16);
        lemma_rd_prefix(head, tail, 24);
        lemma_rd_prefix(head, tail, 32);
    } else {
        lemma_segs_extract(segs.drop_first(), i - 1);
        lemma_rd_suffix(head, tail, 40 * i);
        lemma_rd_suffix(head, tail, 40 * i + 8);
        lemma_rd_suffix(head, tail, 40 * i + 16);
        lemma_rd_suffix(head, tail, 40 * i + 24);
        lemma_rd_suffix(head, tail, 40 * i + 32);
        assert(40 * i - 40 == 40 * (i - 1));
    }
}

/// What the header words and every stored segment of an encoded model read
/// back as.
proof fn lemma_encode_reads(m: IndexModel)
    requires
        encodable(m),
    ensures
        encode_spec(m).len() == 32 + 40 * (m.segments.len() + top_or_empty(m).len()),
        rd(encode_spec(m), 0) == m.epsilon,
        rd(encode_spec(m), 8) == m.segments.len(),
        rd(encode_spec(m), 16) == if m.top_level is Some {
            1int
        } else {
            0int
        },
        rd(encode_spec(m), 24) == top_or_empty(m).len(),
        forall|i: int|
            0 <= i < m.segments.len() ==> seg_at_spec(encode_spec(m), 32 + 40 * i)
                == m.segments[i],
        forall|i: int|
            0 <= i < top_or_empty(m).len() ==> seg_at_spec(
                encode_spec(m),
                32 + 40 * m.segments.len() + 40 * i,
            ) == top_or_empty(m)[i],
{
    lemma_pow256_values();
    let b = encode_spec(m);
    let eps = m.epsilon as int;
    let nb = m.segments.len() as int;
    let has: int = if m.top_level is Some {
        1
    } else {
        0
    };
    let nt = top_or_empty(m).len() as int;
    let h1 = le_bytes(eps, 8);
    let h2 = le_bytes(nb, 8);
    let h3 = le_bytes(has, 8);
    let h4 = le_bytes(nt, 8);
    let sb = segs_bytes(m.segments);
    let st = segs_bytes(top_or_empty(m));
    lemma_le_bytes_len(eps, 8);
    lemma_le_bytes_len(nb, 8);
    lemma_le_bytes_len(has, 8);
    lemma_le_bytes_len(nt, 8);
    lemma_le_val_le_bytes(eps, 8);
    lemma_le_val_le_bytes(nb, 8);
    lemma_le_val_le_bytes(has, 8);
    lemma_le_val_le_bytes(nt, 8);
    lemma_segs_bytes_len(m.segments);
    lemma_segs_bytes_len(top_or_empty(m));
    assert(b.subrange(0, 8) =~= h1);
    assert(b.subrange(8, 16) =~= h2);
    assert(b.subrange(16, 24) =~= h3);
    assert(b.subrange(24, 32) =~= h4);
    let hdr = h1 + h2 + h3 + h4;
    assert(b =~= hdr + sb + st);
    assert forall|i: int| 0 <= i < m.segments.len() implies seg_at_spec(b, 32 + 40 * i)
        == m.segments[i] by {
        lemma_segs_extract(m.segments, i);
        lemma_rd_prefix(hdr + sb, st, 32 + 40 * i);
        lemma_rd_prefix(hdr + sb, st, 32 + 40 * i + 8);
        lemma_rd_prefix(hdr + sb, st, 32 + 40 * i + 16);
        lemma_rd_prefix(hdr + sb, st, 32 + 40 * i + 24);
        lemma_rd_prefix(hdr + sb, st, 32 + 40 * i + 32);
        lemma_rd_suffix(hdr, sb, 32 + 40 * i);
        lemma_rd_suffix(hdr, sb, 32 + 40 * i + 8);
        lemma_rd_suffix(hdr, sb, 32 + 40 * i + 16);
        lemma_rd_suffix(hdr, sb, 32 + 40 * i + 24);
        lemma_rd_suffix(hdr, sb, 32 + 40 * i + 32);
        assert(b == (hdr + sb) + st);
    }
    assert forall|i: int| 0 <= i < top_or_empty(m).len() implies seg_at_spec(
        b,
        32 + 40 * m.segments.len() + 40 * i,
    ) == top_or_empty(m)[i] by {
        lemma_segs_extract(top_or_empty(m), i);
        let base = 32 + 40 * nb + 40 * i;
        lemma_rd_suffix(hdr + sb, st, base);
        lemma_rd_suffix(hdr + sb, st, base + 8);
        lemma_rd_suffix(hdr + sb, st, base + 16);
        lemma_rd_suffix(hdr + sb, st, base + 24);
        lemma_rd_suffix(hdr + sb, st, base + 32);
        assert(b == (hdr + sb) + st);
        assert(base - (32 + 40 * nb) == 40 * i);
    }
}

/// The header words of a valid buffer are non-negative and, with the length
/// equation, small enough that every offset computation fits in `usize`.
proof fn lemma_valid_bounds(b: Seq<u8>)
    requires
        valid_encoding(b),
        b.len() <= usize::MAX,
    ensures
        0 <= rd(b, 0) <= usize::MAX,
        1 <= rd(b, 8),
        0 <= rd(b, 16) <= 1,
        0 <= rd(b, 24),
        32 + 40 * rd(b, 8) + 40 * rd(b, 24) == b.len(),
{
    lemma_le_val_bound(b.subrange(0, 8));
    lemma_le_val_bound(b.subrange(8, 16));
    lemma_le_val_bound(b.subrange(16, 24));
    lemma_le_val_bound(b.subrange(24, 32));
}

proof fn lemma_segs_bytes_push(segs: Seq<Segment>, x: Segment)
    ensures
        segs_bytes(segs.push(x)) == segs_bytes(segs) + seg_bytes(x),
    decreases segs.len(),
{
    if segs.len() == 0 {
        assert(segs.push(x).drop_first() =~= Seq::<Segment>::empty());
        assert(segs.push(x).first() == x);
        assert(segs_bytes(segs.push(x)) == seg_bytes(x) + segs_bytes(Seq::<Segment>::empty()));
        assert(seg_bytes(x) + Seq::<u8>::empty() =~= Seq::<u8>::empty() + seg_bytes(x));
    } else {
        assert(segs.push(x).drop_first() =~= segs.drop_first().push(x));
        lemma_segs_bytes_push(segs.drop_first(), x);
        assert(seg_bytes(segs.first()) + (segs_bytes(segs.drop_first()) + seg_bytes(x)) =~= (
        seg_bytes(segs.first()) + segs_bytes(segs.drop_first())) + seg_bytes(x));
    }
}

/// Appends the 40 bytes of one segment.
fn write_segment(out: &mut Vec<u8>, s: &Segment)
    ensures
        final(out)@ == old(out)@ + seg_bytes(*s),
{
    write_u64(out, s.slope_num);
    write_u64(out, s.slope_den);
    write_u64(out, s.anchor_pos);
    write_u64(out, s.start_key);
    write_u64(out, s.end_key);
    proof {
        assert(out@ =~= old(out)@ + seg_bytes(*s));
    }
}

/// Reads the segment stored at byte offset `base`.
fn read_segment(bytes: &[u8], base: usize) -> (r: Segment)
    requires
        base + 40 <= bytes@.len(),
    ensures
        r == seg_at_spec(bytes@, base as int),
{
    let blen = bytes.len();
    Segment {
        slope_num: read_u64(bytes, base),
        slope_den: read_u64(bytes, base + 8),
        anchor_pos: read_u64(bytes, base + 16),
        start_key: read_u64(bytes, base + 24),
        end_key: read_u64(bytes, base + 32),
    }
}

/// Checks one stored level: positive slope denominators and ordered end keys.
fn check_level(bytes: &[u8], base: usize, count: usize) -> (r: bool)
    requires
        count >= 1,
        base + 40 * (count as int) <= bytes@.len(),
    ensures
        r == level_wf(decode_segs(bytes@, base as int, count as int)),
{
    let ghost level = decode_segs(bytes@, base as int, count as int);
    let blen = bytes.len();
    let mut k: usize = 0;
    let mut prev_end: u64 = 0;
    while k < count
        invariant
            k <= count,
            count >= 1,
            blen == bytes@.len(),
            base + 40 * (count as int) <= blen,
            level == decode_segs(bytes@, base as int, count as int),
            forall|i: int| 0 <= i < k ==> #[trigger] level[i].slope_den >= 1,
            forall|i: int, j: int| 0 <= i <= j < k ==> level[i].end_key <= level[j].end_key,
            k > 0 ==> prev_end == level[k - 1].end_key,
        decreases count - k,
    {
        let s = read_segment(bytes, base + 40 * k);
        proof {
            assert(level[k as int] == seg_at_spec(bytes@, base + 40 * (k as int)));
        }
        if s.slope_den == 0 {
            return false;
        }
        if k > 0 && s.end_key < prev_end {
            return false;
        }
        prev_end = s.end_key;
        k = k + 1;
    }
    true
}

/// Checks a whole buffer for structural validity.
fn validate(bytes: &[u8]) -> (r: bool)
    ensures
        r == valid_encoding(bytes@),
{
    let len = bytes.len();
    if len < 32 {
        return false;
    }
    let eps64 = read_u64(bytes, 0);
    let nb64 = read_u64(bytes, 8);
    let has64 = read_u64(bytes, 16);
    let nt64 = read_u64(bytes, 24);
    if has64 > 1 {
        return false;
    }
    if has64 == 0 && nt64 != 0 {
        return false;
    }
    if has64 == 1 && nt64 == 0 {
        return false;
    }
    if nb64 == 0 {
        return false;
    }
    let need: u128 = 32 + 40 * (nb64 as u128 + nt64 as u128);
    if (len as u128) != need {
        return false;
    }
    if eps64 > usize::MAX as u64 {
        return false;
    }
    let nb = nb64 as usize;
    let nt = nt64 as usize;
    if !check_level(bytes, 32, nb) {
        return false;
    }
    if has64 == 1 {
        if !check_level(bytes, 32 + 40 * nb, nt) {
            return false;
        }
    }
    true
}

/// Reads `count` stored segments into an owned vector.
fn read_level(bytes: &[u8], base: usize, count: usize) -> (r: Vec<Segment>)
    requires
        base + 40 * (count as int) <= bytes@.len(),
    ensures
        r@ == decode_segs(bytes@, base as int, count as int),
{
    let mut v: Vec<Segment> = Vec::new();
    let blen = bytes.len();
    let mut k: usize = 0;
    while k < count
        invariant
            k <= count,
            blen == bytes@.len(),
            base + 40 * (count as int) <= blen,
            v@.len() == k,
            forall|i: int| 0 <= i < k ==> v@[i] == seg_at_spec(bytes@, base + 40 * i),
        decreases count - k,
    {
        let s = read_segment(bytes, base + 40 * k);
        v.push(s);
        k = k + 1;
    }
    proof {
        assert(v@ =~= decode_segs(bytes@, base as int, count as int));
    }
    v
}

/// A read-only view over a serialized index: every access decodes the fixed
/// little-endian fields in place, and nothing is copied out of the buffer.
/// The view borrows the buffer and can never outlive it.
pub struct ArchivedPGMIndex<'a> {
    bytes: &'a [u8],
}

impl<'a> View for ArchivedPGMIndex<'a> {
    type V = IndexModel;

    closed spec fn view(&self) -> IndexModel {
        decode_spec(self.bytes@)
    }
}

impl<'a> ArchivedPGMIndex<'a> {
    /// The backing buffer is a structurally valid serialized index.
    pub closed spec fn wf(&self) -> bool {
        valid_encoding(self.bytes@)
    }

    /// One more than the last bottom segment's end key.
    fn total_keys(&self) -> (r: usize)
        requires
            self.wf(),
            self@.segments.last().end_key < usize::MAX,
        ensures
            r == total_keys_spec(self@),
    {
        let blen = self.bytes.len();
        proof {
            lemma_valid_bounds(self.bytes@);
        }
        let nb = read_u64(self.bytes, 8) as usize;
        let last_end = read_u64(self.bytes, 32 + 40 * (nb - 1) + 32);
        proof {
            assert(self@.segments.last() == seg_at_spec(self.bytes@, 32 + 40 * (nb - 1)));
        }
        (last_end as usize) + 1
    }

    /// Returns the inclusive position range `[lo, hi]` where `key` may
    /// appear, computed directly over the buffer by the same selection and
    /// prediction procedure as the owned index; the range is always
    /// well-formed.
    pub fn search(&self, key: u64) -> (r: (usize, usize))
        requires
            self.wf(),
            self@.segments.last().end_key < usize::MAX,
        ensures
            r.0 == search_spec(self@, key).0,
            r.1 == search_spec(self@, key).1,
            r.0 <= r.1 <= total_keys_spec(self@) - 1,
    {
        let bytes = self.bytes;
        let blen = bytes.len();
        proof {
            lemma_valid_bounds(bytes@);
        }
        let eps = read_u64(bytes, 0) as usize;
        let nb = read_u64(bytes, 8) as usize;
        let has = read_u64(bytes, 16);
        let nt = read_u64(bytes, 24) as usize;
        let si: usize = if has == 1 {
            let t = locate_bytes(bytes, 32 + 40 * nb, nt, key);
            let ts = read_segment(bytes, 32 + 40 * nb + 40 * t);
            proof {
                assert(ts == decode_segs(bytes@, 32 + 40 * nb, nt as int)[t as int]);
            }
            let est = predict(&ts, key);
            if est < nb - 1 {
                est
            } else {
                nb - 1
            }
        } else {
            locate_bytes(bytes, 32, nb, key)
        };
        assert(si == chosen_segment(self@, key));
        let seg = read_segment(bytes, 32 + 40 * si);
        proof {
            assert(seg == self@.segments[si as int]);
        }
        let predicted = predict(&seg, key);
        let total_minus_1 = self.total_keys() - 1;
        let pos = if predicted < total_minus_1 {
            predicted
        } else {
            total_minus_1
        };
        let lo = if pos > eps {
            pos - eps
        } else {
            0
        };
        let sum: u128 = pos as u128 + eps as u128;
        let hi = if sum < total_minus_1 as u128 {
            pos + eps
        } else {
            total_minus_1
        };
        (lo, hi)
    }
}

/// Binary search over the segments stored from `base` on, for the first one
/// whose end key is at least `key`, falling back to the last one.
fn locate_bytes(bytes: &[u8], base: usize, count: usize, key: u64) -> (r: usize)
    requires
        count >= 1,
        base + 40 * (count as int) <= bytes@.len(),
        ends_sorted(decode_segs(bytes@, base as int, count as int)),
    ensures
        r == locate(decode_segs(bytes@, base as int, count as int), key),
        r < count,
{
    let ghost level = decode_segs(bytes@, base as int, count as int);
    let blen = bytes.len();
    let mut lo: usize = 0;
    let mut hi: usize = count;
    while lo < hi
        invariant
            lo <= hi <= count,
            count >= 1,
            blen == bytes@.len(),
            base + 40 * (count as int) <= blen,
            level == decode_segs(bytes@, base as int, count as int),
            ends_sorted(level),
            forall|j: int| 0 <= j < lo ==> level[j].end_key < key,
            forall|j: int| hi <= j < count ==> level[j].end_key >= key,
        decreases hi - lo,
    {
        let mid = lo + (hi - lo) / 2;
        let end = read_u64(bytes, base + 40 * mid + 32);
        proof {
            assert(level[mid as int] == seg_at_spec(bytes@, base + 40 * (mid as int)));
        }
        if end < key {
            lo = mid + 1;
        } else {
            hi = mid;
        }
    }
    let r = if lo < count - 1 {
        lo
    } else {
        count - 1
    };
    proof {
        crate::pgm::lemma_locate_from_bounds(level, key, lo as int);
    }
    r
}

impl PGMIndex {
    /// Serializes the index into its self-describing byte buffer. Fails only
    /// when the serialized size would not fit in `usize`.
    pub fn to_bytes(&self) -> (r: Result<Vec<u8>, PGMIndexError>)
        ensures
            r is Ok <==> 32 + 40 * (self@.segments.len() + top_or_empty(self@).len())
                <= usize::MAX,
            r matches Ok(b) ==> b@ == encode_spec(self@),
            r is Err ==> (r matches Err(e) && e == PGMIndexError::IndexTooLarge),
    {
        let nb = self.segments.len();
        let nt = match &self.top_level {
            Some(t) => t.len(),
            None => 0,
        };
        let need: u128 = 32 + 40 * (nb as u128 + nt as u128);
        if need > usize::MAX as u128 {
            return Err(PGMIndexError::IndexTooLarge);
        }
        let mut out: Vec<u8> = Vec::new();
        write_u64(&mut out, self.epsilon as u64);
        write_u64(&mut out, nb as u64);
        write_u64(
            &mut out,
            if self.top_level.is_some() {
                1
            } else {
                0
            },
        );
        write_u64(&mut out, nt as u64);
        let ghost hdr = le_bytes(self@.epsilon as int, 8) + le_bytes(
            self@.segments.len() as int,
            8,
        ) + le_bytes(
            if self@.top_level is Some {
                1int
            } else {
                0int
            },
            8,
        ) + le_bytes(top_or_empty(self@).len() as int, 8);
        proof {
            assert(out@ =~= hdr + segs_bytes(self@.segments.take(0)));
        }
        let mut k: usize = 0;
        while k < nb
            invariant
                k <= nb,
                nb == self@.segments.len(),
                out@ == hdr + segs_bytes(self@.segments.take(k as int)),
            decreases nb - k,
        {
            proof {
                lemma_segs_bytes_push(self@.segments.take(k as int), self@.segments[k as int]);
                assert(self@.segments.take(k + 1) =~= self@.segments.take(k as int).push(
                    self@.segments[k as int],
                ));
            }
            write_segment(&mut out, &self.segments[k]);
            proof {
                assert(out@ =~= hdr + segs_bytes(self@.segments.take(k + 1)));
            }
            k = k + 1;
        }
        proof {
            assert(self@.segments.take(nb as int) =~= self@.segments);
        }
        match &self.top_level {
            Some(top) => {
                let mut k: usize = 0;
                proof {
                    assert(out@ =~= hdr + segs_bytes(self@.segments) + segs_bytes(top@.take(0)));
                }
                while k < nt
                    invariant
                        k <= nt,
                        self.top_level matches Some(t) && t@ == top@,
                        nt == top@.len(),
                        out@ == hdr + segs_bytes(self@.segments) + segs_bytes(top@.take(k as int)),
                    decreases nt - k,
                {
                    proof {
                        lemma_segs_bytes_push(top@.take(k as int), top@[k as int]);
                        assert(top@.take(k + 1) =~= top@.take(k as int).push(top@[k as int]));
                    }
                    write_segment(&mut out, &top[k]);
                    proof {
                        assert(out@ =~= hdr + segs_bytes(self@.segments) + segs_bytes(
                            top@.take(k + 1),
                        ));
                    }
                    k = k + 1;
                }
                proof {
                    assert(top@.take(nt as int) =~= top@);
                    assert(out@ =~= encode_spec(self@));
                }
            },
            None => {
                proof {
                    assert(segs_bytes(top_or_empty(self@)) =~= Seq::<u8>::empty());
                    assert(out@ =~= encode_spec(self@));
                }
            },
        }
        Ok(out)
    }

    /// Fully decodes a buffer into an owned index, after validating it.
    pub fn from_bytes(bytes: &[u8]) -> (r: Result<Self, ValidationError>)
        ensures
            r is Ok <==> valid_encoding(bytes@),
            r matches Ok(idx) ==> idx@ == decode_spec(bytes@) && idx.wf(),
            r is Err ==> (r matches Err(e) && e == ValidationError::Malformed),
    {
        if !validate(bytes) {
            return Err(ValidationError::Malformed);
        }
        let blen = bytes.len();
        proof {
            lemma_valid_bounds(bytes@);
        }
        let eps = read_u64(bytes, 0) as usize;
        let nb = read_u64(bytes, 8) as usize;
        let has = read_u64(bytes, 16);
        let nt = read_u64(bytes, 24) as usize;
        let segments = read_level(bytes, 32, nb);
        let top_level = if has == 1 {
            Some(read_level(bytes, 32 + 40 * nb, nt))
        } else {
            None
        };
        let idx = PGMIndex { segments, top_level, epsilon: eps };
        proof {
            assert(idx@ =~= decode_spec(bytes@));
        }
        Ok(idx)
    }

    /// Validates a buffer and returns a zero-copy view over it; the view
    /// borrows the buffer for its whole lifetime.
    pub fn as_archived<'a>(bytes: &'a [u8]) -> (r: Result<
        ArchivedPGMIndex<'a>,
        ValidationError,
    >)
        ensures
            r is Ok <==> valid_encoding(bytes@),
            r matches Ok(v) ==> v.wf() && v@ == decode_spec(bytes@),
            r is Err ==> (r matches Err(e) && e == ValidationError::Malformed),
    {
        if validate(bytes) {
            Ok(ArchivedPGMIndex { bytes })
        } else {
            Err(ValidationError::Malformed)
        }
    }

    /// Returns a zero-copy view without any validation. Callers must
    /// guarantee themselves that the buffer is a valid serialized index, as
    /// produced by `to_bytes`; nothing is checked here.
    pub fn as_archived_unchecked<'a>(bytes: &'a [u8]) -> (r: ArchivedPGMIndex<'a>)
        requires
            valid_encoding(bytes@),
        ensures
            r.wf(),
            r@ == decode_spec(bytes@),
    {
        ArchivedPGMIndex { bytes }
    }
}

/// Round trip: a well-formed index serializes to a valid buffer, and decoding
/// that buffer restores the very same model — the same `epsilon`, the same
/// segments on both levels, and therefore the same `search` results.
pub proof fn lemma_round_trip(m: IndexModel)
    requires
        wf_model(m),
        encodable(m),
    ensures
        valid_encoding(encode_spec(m)),
        decode_spec(encode_spec(m)) == m,
{
    lemma_encode_reads(m);
    let b = encode_spec(m);
    let nb = m.segments.len() as int;
    let nt = top_or_empty(m).len() as int;
    assert(decode_segs(b, 32, nb) =~= m.segments);
    if m.top_level is Some {
        assert(decode_segs(b, 32 + 40 * nb, nt) =~= top_or_empty(m));
    }
    assert(decode_spec(b) =~= m);
}

/// Zero-copy equivalence: over the buffer an index serializes to, the view's
/// `search` agrees with the owned index's `search` on every key.
pub proof fn lemma_view_search_equiv(m: IndexModel, key: u64)
    requires
        wf_model(m),
        encodable(m),
    ensures
        search_spec(decode_spec(encode_spec(m)), key) == search_spec(m, key),
{
    lemma_round_trip(m);
}

} // verus!
