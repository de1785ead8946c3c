//! The piecewise-linear index: segment construction, the two-level structure,
//! and the query algorithm over the owned representation.
//!
//! Every segment's linear function is kept as an exact rational: a slope
//! `slope_num / slope_den` anchored at `(start_key, anchor_pos)`. Predictions
//! are computed with exact integer arithmetic and rounded to the nearest
//! position, so the construction-time error bound is a statement about the
//! same numbers the query evaluates.

use crate::ratio::{div_round, mul64, ratio_le};
use vstd::arithmetic::div_mod::{lemma_basic_div, lemma_div_by_multiple, lemma_div_is_ordered};
use vstd::prelude::*;

verus! {

/// One linear piece: over keys in `[start_key, end_key]` the position of a key
/// `k` is approximated by `anchor_pos + (k - start_key) * slope_num / slope_den`,
/// rounded to the nearest integer and clamped to be non-negative.
#[derive(Clone, Copy, Debug, PartialEq, Eq, Structural)]
pub struct Segment {
    /// Numerator of the slope.
    pub slope_num: u64,
    /// Denominator of the slope; always at least 1.
    pub slope_den: u64,
    /// Position of the anchor point, whose key is `start_key`.
    pub anchor_pos: u64,
    /// First key this piece was fitted over.
    pub start_key: u64,
    /// Last key this piece was fitted over.
    pub end_key: u64,
}

/// The two-level index: bottom segments over the keys, an optional top level
/// over the bottom segments' start keys, and the error bound both were built
/// with.
pub struct PGMIndex {
    /// Bottom-level segments, ordered by key range.
    pub segments: Vec<Segment>,
    /// Present exactly when more than two bottom segments exist.
    pub top_level: Option<Vec<Segment>>,
    /// Maximum allowed distance between a prediction and a true position.
    pub epsilon: usize,
}

/// Construction-time failures.
#[derive(Clone, Copy, Debug, PartialEq, Eq, Structural)]
pub enum PGMIndexError {
    /// The key sequence handed to `build` contains an inversion.
    KeysNotSorted,
    /// The serialized form of the index would not fit in memory.
    IndexTooLarge,
}

/// The mathematical content of an index: the contracts speak of this model.
#[verifier::ext_equal]
pub ghost struct IndexModel {
    pub segments: Seq<Segment>,
    pub top_level: Option<Seq<Segment>>,
    pub epsilon: nat,
}

impl View for PGMIndex {
    type V = IndexModel;

    open spec fn view(&self) -> IndexModel {
        IndexModel {
            segments: self.segments@,
            top_level: match self.top_level {
                Some(t) => Some(t@),
                None => None,
            },
            epsilon: self.epsilon as nat,
        }
    }
}

/// Segment end keys appear in non-decreasing order.
pub open spec fn ends_sorted(segs: Seq<Segment>) -> bool {
    forall|i: int, j: int| 0 <= i <= j < segs.len() ==> segs[i].end_key <= segs[j].end_key
}

/// Segment start keys appear in non-decreasing order.
pub open spec fn starts_sorted(segs: Seq<Segment>) -> bool {
    forall|i: int, j: int| 0 <= i <= j < segs.len() ==> segs[i].start_key <= segs[j].start_key
}

/// What both levels of a well-formed index satisfy: at least one segment,
/// positive slope denominators, and end keys in order.
pub open spec fn level_wf(segs: Seq<Segment>) -> bool {
    &&& segs.len() >= 1
    &&& forall|i: int| 0 <= i < segs.len() ==> #[trigger] segs[i].slope_den >= 1
    &&& ends_sorted(segs)
}

/// Well-formedness of the whole structure.
pub open spec fn wf_model(m: IndexModel) -> bool {
    &&& level_wf(m.segments)
    &&& match m.top_level {
        Some(t) => level_wf(t),
        None => true,
    }
}

/// The key sequence is non-decreasing.
pub open spec fn keys_sorted(keys: Seq<u64>) -> bool {
    forall|i: int, j: int| 0 <= i <= j < keys.len() ==> keys[i] <= keys[j]
}

/// A segment's prediction for `key`: the linear function evaluated exactly,
/// clamped to be non-negative, rounded to the nearest integer (halves up),
/// and saturated at `usize::MAX`.
pub open spec fn seg_predict(s: Segment, key: u64) -> int {
    let n = s.anchor_pos * s.slope_den + (key - s.start_key) * s.slope_num;
    if n <= 0 {
        0
    } else {
        let r = (2 * n + s.slope_den) / (2 * s.slope_den);
        if r > usize::MAX {
            usize::MAX as int
        } else {
            r
        }
    }
}

/// The index of the first segment whose `end_key` is at least `key`, or the
/// last index when every `end_key` is below `key`.
pub open spec fn locate(segs: Seq<Segment>, key: u64) -> int
    decreases segs.len(),
{
    if segs.len() <= 1 {
        0
    } else if segs[0].end_key >= key {
        0
    } else {
        1 + locate(segs.drop_first(), key)
    }
}

/// The bottom segment the query consults: predicted through the top level when
/// one is present, found by binary search otherwise.
pub open spec fn chosen_segment(m: IndexModel, key: u64) -> int {
    match m.top_level {
        Some(top) => {
            let t = locate(top, key);
            let est = seg_predict(top[t], key);
            if est < m.segments.len() - 1 {
                est
            } else {
                m.segments.len() - 1
            }
        },
        None => locate(m.segments, key),
    }
}

/// One more than the last bottom segment's end key: the number of positions
/// the index assumes the original sequence has.
pub open spec fn total_keys_spec(m: IndexModel) -> int {
    m.segments.last().end_key + 1
}

/// The candidate range around a predicted position: the position is first
/// clamped into `[0, total - 1]`, then widened by `epsilon` on either side,
/// with both bounds clamped to the same interval. The result is always a
/// well-formed inclusive range, `0 <= lo <= hi <= total - 1`, even when the
/// prediction overshoots the position space by more than `epsilon`.
pub open spec fn clamp_range(pos: int, eps: int, total: int) -> (int, int) {
    let p = if pos < total - 1 {
        pos
    } else {
        total - 1
    };
    let lo = if p - eps > 0 {
        p - eps
    } else {
        0
    };
    let hi = if p + eps < total - 1 {
        p + eps
    } else {
        total - 1
    };
    (lo, hi)
}

/// What a query returns: the chosen bottom segment's prediction, clamped
/// into the index's position space and widened by `epsilon` on either side.
pub open spec fn search_spec(m: IndexModel, key: u64) -> (int, int) {
    let pos = seg_predict(m.segments[chosen_segment(m, key)], key);
    clamp_range(pos, m.epsilon as int, total_keys_spec(m))
}

/// Evaluates a segment's linear function at `key`, exactly.
pub(crate) fn predict(s: &Segment, key: u64) -> (r: usize)
    requires
        s.slope_den >= 1,
    ensures
        r == seg_predict(*s, key),
{
    let anchor_term: u128 = mul64(s.anchor_pos, s.slope_den);
    if key >= s.start_key {
        let rise: u128 = mul64(key - s.start_key, s.slope_num);
        match anchor_term.checked_add(rise) {
            Some(n) => round_and_clamp(n, s.slope_den, Ghost(*s), Ghost(key)),
            None => {
                proof {
                    lemma_predict_saturates(*s, key, anchor_term as int + rise as int);
                }
                usize::MAX
            },
        }
    } else {
        let fall: u128 = mul64(s.start_key - key, s.slope_num);
        proof {
            assert((key - s.start_key) * s.slope_num == -((s.start_key - key) * s.slope_num))
                by (nonlinear_arith);
        }
        if fall >= anchor_term {
            0
        } else {
            round_and_clamp(anchor_term - fall, s.slope_den, Ghost(*s), Ghost(key))
        }
    }
}

/// Rounds the exact numerator `n` over `den` and saturates at `usize::MAX`.
fn round_and_clamp(n: u128, den: u64, s: Ghost<Segment>, key: Ghost<u64>) -> (r: usize)
    requires
        den == s@.slope_den,
        den >= 1,
        n == s@.anchor_pos * s@.slope_den + (key@ - s@.start_key) * s@.slope_num,
    ensures
        r == seg_predict(s@, key@),
{
    let rounded: u128 = div_round(n, den);
    proof {
        if n == 0 {
            lemma_basic_div(den as int, 2 * (den as int));
        }
    }
    if rounded > usize::MAX as u128 {
        usize::MAX
    } else {
        rounded as usize
    }
}

/// When the exact numerator does not even fit in 128 bits, the rounded
/// quotient exceeds `usize::MAX`, so the prediction saturates.
proof fn lemma_predict_saturates(s: Segment, key: u64, n: int)
    requires
        s.slope_den >= 1,
        n == s.anchor_pos * s.slope_den + (key - s.start_key) * s.slope_num,
        n > u128::MAX,
    ensures
        seg_predict(s, key) == usize::MAX as int,
{
    let d = s.slope_den as int;
    let m = usize::MAX as int + 1;
    assert(m * (2 * d) <= 2 * n + d) by (nonlinear_arith)
        requires
            n > u128::MAX,
            1 <= d <= u64::MAX,
            1 <= m <= u64::MAX as int + 1,
            u128::MAX as int + 1 == (u64::MAX as int + 1) * (u64::MAX as int + 1),
    ;
    lemma_div_by_multiple(m, 2 * d);
    lemma_div_is_ordered(m * (2 * d), 2 * n + d, 2 * d);
}

/// Binary search for the first segment whose `end_key` is at least `key`,
/// falling back to the last segment.
pub(crate) fn locate_level(segs: &Vec<Segment>, key: u64) -> (r: usize)
    requires
        segs@.len() >= 1,
        ends_sorted(segs@),
    ensures
        r == locate(segs@, key),
        r < segs@.len(),
{
    let n = segs.len();
    let mut lo: usize = 0;
    let mut hi: usize = n;
    while lo < hi
        invariant
            lo <= hi <= n,
            n == segs@.len(),
            ends_sorted(segs@),
            forall|j: int| 0 <= j < lo ==> segs@[j].end_key < key,
            forall|j: int| hi <= j < n ==> segs@[j].end_key >= key,
        decreases hi - lo,
    {
        let mid = lo + (hi - lo) / 2;
        if segs[mid].end_key < key {
            lo = mid + 1;
        } else {
            hi = mid;
        }
    }
    let r = if lo < n - 1 {
        lo
    } else {
        n - 1
    };
    proof {
        lemma_locate_from_bounds(segs@, key, lo as int);
    }
    r
}

/// The first index with `end_key >= key` (or the sequence's length when there
/// is none) determines `locate`: it is that index, clamped to the last one.
pub(crate) proof fn lemma_locate_from_bounds(segs: Seq<Segment>, key: u64, f: int)
    requires
        segs.len() >= 1,
        0 <= f <= segs.len(),
        forall|j: int| 0 <= j < f ==> segs[j].end_key < key,
        f < segs.len() ==> segs[f].end_key >= key,
    ensures
        locate(segs, key) == if f < segs.len() - 1 {
            f
        } else {
            segs.len() - 1
        },
    decreases segs.len(),
{
    if segs.len() == 1 {
    } else if segs[0].end_key >= key {
        assert(f == 0);
    } else {
        assert(segs[0].end_key < key);
        let tail = segs.drop_first();
        assert(forall|j: int| 0 <= j < f - 1 ==> tail[j] == segs[j + 1]);
        lemma_locate_from_bounds(tail, key, f - 1);
    }
}

/// For one predicted position, a larger error bound never narrows the
/// candidate range: the clamped width grows monotonically with `eps`. Two
/// builds of the same keys with different bounds generally predict different
/// positions, so this states the monotonicity of the clamping step alone.
pub proof fn lemma_wider_epsilon_widens(pos: int, eps1: int, eps2: int, total: int)
    requires
        0 <= pos,
        0 <= eps1 <= eps2,
        1 <= total,
    ensures
        clamp_range(pos, eps2, total).1 - clamp_range(pos, eps2, total).0 >= clamp_range(
            pos,
            eps1,
            total,
        ).1 - clamp_range(pos, eps1, total).0,
{
}

/// Whenever the chosen segment's prediction errs from a position `p` by at
/// most `epsilon`, the returned candidate range covers `p`. The construction
/// pass aims at exactly this error bound for the keys each segment was fitted
/// over, so this is the clamping half of the lookup guarantee.
pub proof fn lemma_search_covers(m: IndexModel, key: u64, p: int)
    requires
        wf_model(m),
        m.segments.last().end_key < usize::MAX,
        0 <= p < total_keys_spec(m),
        seg_predict(m.segments[chosen_segment(m, key)], key) - m.epsilon <= p,
        p <= seg_predict(m.segments[chosen_segment(m, key)], key) + m.epsilon,
    ensures
        search_spec(m, key).0 <= p,
        p <= search_spec(m, key).1,
{
}

/// A lower slope bound `(-1)^neg * num / den`; when negative, `num >= 1`.
struct LoBound {
    neg: bool,
    num: u64,
    den: u64,
}

/// An upper slope bound `num / den`; numerators can reach `2^65`.
struct HiBound {
    num: u128,
    den: u64,
}

/// The signed numerator a lower bound stands for.
spec fn lo_val(b: LoBound) -> int {
    if b.neg {
        -(b.num as int)
    } else {
        b.num as int
    }
}

/// A lower bound is canonical: positive denominator, and a negative value is
/// carried with a positive magnitude.
spec fn lo_ok(b: LoBound) -> bool {
    b.den >= 1 && (b.neg ==> b.num >= 1)
}

/// Whether the lower bound `a` is strictly greater than the lower bound `b`.
fn lo_gt(a: &LoBound, b: &LoBound) -> (r: bool)
    requires
        lo_ok(*a),
        lo_ok(*b),
    ensures
        r == (lo_val(*a) * b.den > lo_val(*b) * a.den),
{
    if !a.neg && b.neg {
        proof {
            assert(lo_val(*a) * b.den >= 0 && lo_val(*b) * a.den <= -1) by (nonlinear_arith)
                requires
                    lo_val(*a) >= 0,
                    lo_val(*b) <= -1,
                    a.den >= 1,
                    b.den >= 1,
            ;
        }
        true
    } else if a.neg && !b.neg {
        proof {
            assert(lo_val(*a) * b.den <= -1 && lo_val(*b) * a.den >= 0) by (nonlinear_arith)
                requires
                    lo_val(*a) <= -1,
                    lo_val(*b) >= 0,
                    a.den >= 1,
                    b.den >= 1,
            ;
        }
        false
    } else if !a.neg && !b.neg {
        !ratio_le(a.num as u128, a.den, b.num as u128, b.den)
    } else {
        proof {
            assert((-(a.num as int)) * b.den == -((a.num as int) * b.den)
                && (-(b.num as int)) * a.den == -((b.num as int) * a.den)) by (nonlinear_arith);
        }
        !ratio_le(b.num as u128, b.den, a.num as u128, a.den)
    }
}

/// Whether the upper bound `a` is strictly less than the upper bound `b`.
fn hi_lt(a: &HiBound, b: &HiBound) -> (r: bool)
    requires
        a.den >= 1,
        b.den >= 1,
    ensures
        r == ((a.num as int) * b.den < (b.num as int) * a.den),
{
    !ratio_le(b.num, b.den, a.num, a.den)
}

/// Whether the lower bound `a` exceeds the upper bound `b`: the test that the
/// admissible slope interval has become empty.
fn lo_hi_gt(a: &LoBound, b: &HiBound) -> (r: bool)
    requires
        lo_ok(*a),
        b.den >= 1,
    ensures
        r == (lo_val(*a) * b.den > (b.num as int) * a.den),
{
    if a.neg {
        proof {
            assert(lo_val(*a) * b.den <= -1 && (b.num as int) * a.den >= 0) by (nonlinear_arith)
                requires
                    lo_val(*a) <= -1,
                    b.num as int >= 0,
                    a.den >= 1,
                    b.den >= 1,
            ;
        }
        false
    } else {
        !ratio_le(a.num as u128, a.den, b.num, b.den)
    }
}

/// The builder's running state: the current anchor, the admissible slope
/// interval over the points seen since it, and the closed segments so far.
/// When `bounded` is false the interval is still the full line and the
/// numerator and denominator fields are the placeholders of `builder_init`.
#[verifier::ext_equal]
pub ghost struct BuilderState {
    pub start: int,
    pub bounded: bool,
    pub lo_num: int,
    pub lo_den: int,
    pub hi_num: int,
    pub hi_den: int,
    pub acc: Seq<Segment>,
}

/// The builder's state before any point is examined.
pub open spec fn builder_init() -> BuilderState {
    BuilderState {
        start: 0,
        bounded: false,
        lo_num: 0,
        lo_den: 1,
        hi_num: 0,
        hi_den: 1,
        acc: Seq::empty(),
    }
}

/// The segment closed over anchor `a` and end point `b`: the two-point line
/// through `(keys[a], a)` and `(keys[b], b)`, slope zero when the keys agree.
pub open spec fn close_seg(keys: Seq<u64>, a: int, b: int) -> Segment {
    if keys[b] == keys[a] {
        Segment {
            slope_num: 0,
            slope_den: 1,
            anchor_pos: a as u64,
            start_key: keys[a],
            end_key: keys[b],
        }
    } else {
        Segment {
            slope_num: (b - a) as u64,
            slope_den: (keys[b] - keys[a]) as u64,
            anchor_pos: a as u64,
            start_key: keys[a],
            end_key: keys[b],
        }
    }
}

/// One step of the single forward pass: point `i` either leaves the state
/// unchanged (key equal to the anchor's), tightens the admissible slope
/// interval, or — when the interval empties — closes a segment at `i - 1`
/// and restarts there with the interval reset.
pub open spec fn builder_step(keys: Seq<u64>, eps: int, i: int, st: BuilderState) -> BuilderState {
    let x0 = keys[st.start] as int;
    let xi = keys[i] as int;
    if xi == x0 {
        st
    } else {
        let d = xi - x0;
        let nlo = i - st.start - eps;
        let nhi = i - st.start + eps;
        let lo_new = !st.bounded || nlo * st.lo_den > st.lo_num * d;
        let hi_new = !st.bounded || nhi * st.hi_den < st.hi_num * d;
        let ln = if lo_new {
            nlo
        } else {
            st.lo_num
        };
        let ld = if lo_new {
            d
        } else {
            st.lo_den
        };
        let hn = if hi_new {
            nhi
        } else {
            st.hi_num
        };
        let hd = if hi_new {
            d
        } else {
            st.hi_den
        };
        if ln * hd > hn * ld {
            BuilderState {
                start: i - 1,
                bounded: false,
                lo_num: 0,
                lo_den: 1,
                hi_num: 0,
                hi_den: 1,
                acc: st.acc.push(close_seg(keys, st.start, i - 1)),
            }
        } else {
            BuilderState {
                start: st.start,
                bounded: true,
                lo_num: ln,
                lo_den: ld,
                hi_num: hn,
                hi_den: hd,
                acc: st.acc,
            }
        }
    }
}

/// The builder's state after points `1 .. i` have been examined.
pub open spec fn builder_run(keys: Seq<u64>, eps: int, i: int) -> BuilderState
    decreases i,
{
    if i <= 1 {
        builder_init()
    } else {
        builder_step(keys, eps, i - 1, builder_run(keys, eps, i - 1))
    }
}

/// Everything `build_segments` returns: the pass over all points, then the
/// final segment flushed from the last anchor to the last key.
pub open spec fn build_segments_spec(keys: Seq<u64>, eps: int) -> Seq<Segment> {
    let st = builder_run(keys, eps, keys.len() as int);
    st.acc.push(close_seg(keys, st.start, keys.len() - 1))
}

/// The executable form of `close_seg`.
fn make_seg(keys: &[u64], a: usize, b: usize) -> (r: Segment)
    requires
        a <= b < keys@.len(),
        keys@[a as int] <= keys@[b as int],
    ensures
        r == close_seg(keys@, a as int, b as int),
{
    let xa = keys[a];
    let xb = keys[b];
    if xb == xa {
        Segment { slope_num: 0, slope_den: 1, anchor_pos: a as u64, start_key: xa, end_key: xb }
    } else {
        Segment {
            slope_num: (b - a) as u64,
            slope_den: xb - xa,
            anchor_pos: a as u64,
            start_key: xa,
            end_key: xb,
        }
    }
}

/// Partitions the sorted keys into segments by the single forward pass.
pub(crate) fn build_segments(keys: &[u64], epsilon: usize) -> (r: Vec<Segment>)
    requires
        keys@.len() >= 1,
        keys_sorted(keys@),
    ensures
        r@ == build_segments_spec(keys@, epsilon as int),
        level_wf(r@),
        starts_sorted(r@),
        r@.last().end_key == keys@.last(),
{
    let ghost eps: int = epsilon as int;
    let n = keys.len();
    let mut segments: Vec<Segment> = Vec::new();
    let mut start: usize = 0;
    let mut cur: Option<(LoBound, HiBound)> = None;
    let mut i: usize = 1;
    while i < n
        invariant
            1 <= i,
            i <= n || i == 1,
            n == keys@.len(),
            eps == epsilon as int,
            keys_sorted(keys@),
            start < i,
            start < n,
            ({
                let st = builder_run(keys@, eps, i as int);
                &&& st.start == start
                &&& st.acc == segments@
                &&& st.bounded == cur is Some
                &&& match cur {
                    Some((lo, hi)) => {
                        &&& lo_ok(lo)
                        &&& st.lo_num == lo_val(lo)
                        &&& st.lo_den == lo.den
                        &&& st.hi_num == hi.num
                        &&& st.hi_den == hi.den
                        &&& hi.den >= 1
                    },
                    None => true,
                }
            }),
            forall|k: int| 0 <= k < segments@.len() ==> #[trigger] segments@[k].slope_den >= 1,
            forall|k: int|
                0 <= k < segments@.len() ==> #[trigger] segments@[k].end_key <= keys@[start as int],
            forall|k: int|
                0 <= k < segments@.len() ==> #[trigger] segments@[k].start_key
                    <= keys@[start as int],
            ends_sorted(segments@),
            starts_sorted(segments@),
        decreases n - i,
    {
        let ghost st = builder_run(keys@, eps, i as int);
        proof {
            assert(builder_run(keys@, eps, i + 1) == builder_step(keys@, eps, i as int, st));
        }
        let xi = keys[i];
        let x0 = keys[start];
        if xi != x0 {
            let d: u64 = xi - x0;
            let eps_u: u64 = epsilon as u64;
            let dy: u64 = (i - start) as u64;
            let new_lo: LoBound = if dy >= eps_u {
                LoBound { neg: false, num: dy - eps_u, den: d }
            } else {
                LoBound { neg: true, num: eps_u - dy, den: d }
            };
            let new_hi: HiBound = HiBound { num: dy as u128 + eps_u as u128, den: d };
            let (lo_b, hi_b) = match cur {
                None => (new_lo, new_hi),
                Some((old_lo, old_hi)) => {
                    let tighter_lo = lo_gt(&new_lo, &old_lo);
                    let tighter_hi = hi_lt(&new_hi, &old_hi);
                    (
                        if tighter_lo {
                            new_lo
                        } else {
                            old_lo
                        },
                        if tighter_hi {
                            new_hi
                        } else {
                            old_hi
                        },
                    )
                },
            };
            if lo_hi_gt(&lo_b, &hi_b) {
                let seg = make_seg(keys, start, i - 1);
                segments.push(seg);
                start = i - 1;
                cur = None;
            } else {
                cur = Some((lo_b, hi_b));
            }
        }
        i = i + 1;
    }
    let seg = make_seg(keys, start, n - 1);
    segments.push(seg);
    segments
}

/// The start keys of a segment sequence: the input of the top-level build.
pub open spec fn start_keys(segs: Seq<Segment>) -> Seq<u64> {
    Seq::new(segs.len(), |i: int| segs[i].start_key)
}

/// The whole structure built from sorted keys: bottom segments over the keys,
/// and a top level over their start keys exactly when more than two bottom
/// segments exist.
pub open spec fn build_spec(keys: Seq<u64>, eps: int) -> IndexModel {
    let bottom = build_segments_spec(keys, eps);
    IndexModel {
        segments: bottom,
        top_level: if bottom.len() > 2 {
            Some(build_segments_spec(start_keys(bottom), eps))
        } else {
            None
        },
        epsilon: eps as nat,
    }
}

impl PGMIndex {
    /// Structural well-formedness: what `build` establishes and the query
    /// relies on.
    pub open spec fn wf(&self) -> bool {
        wf_model(self@)
    }

    /// One more than the last segment's end key, the position count the
    /// structure assumes for the original sequence.
    fn total_keys(&self) -> (r: usize)
        requires
            self@.segments.len() >= 1,
            self@.segments.last().end_key < usize::MAX,
        ensures
            r == total_keys_spec(self@),
    {
        let n = self.segments.len();
        (self.segments[n - 1].end_key as usize) + 1
    }

    /// Builds the index after checking that the keys are non-decreasing; an
    /// inversion anywhere in the sequence is reported as `KeysNotSorted`.
    pub fn build(keys: &[u64], epsilon: usize) -> (r: Result<Self, PGMIndexError>)
        requires
            keys@.len() >= 1,
        ensures
            (exists|i: int, j: int| 0 <= i < j < keys@.len() && keys@[i] > keys@[j])
                <==> (r matches Err(e) && e == PGMIndexError::KeysNotSorted),
            r is Ok <==> keys_sorted(keys@),
            r matches Ok(idx) ==> {
                &&& idx@ == build_spec(keys@, epsilon as int)
                &&& idx.wf()
                &&& (idx@.top_level is Some <==> idx@.segments.len() > 2)
            },
    {
        let n = keys.len();
        let mut k: usize = 1;
        while k < n
            invariant
                1 <= k,
                k <= n || k == 1,
                n == keys@.len(),
                forall|a: int, b: int| 0 <= a <= b < k ==> keys@[a] <= keys@[b],
            decreases n - k,
        {
            if keys[k - 1] > keys[k] {
                return Err(PGMIndexError::KeysNotSorted);
            }
            k = k + 1;
        }
        Self::build_unsafe(keys, epsilon)
    }

    /// Builds the index without the sortedness scan; callers must guarantee
    /// the keys are non-decreasing themselves.
    pub fn build_unsafe(keys: &[u64], epsilon: usize) -> (r: Result<Self, PGMIndexError>)
        requires
            keys@.len() >= 1,
            keys_sorted(keys@),
        ensures
            r matches Ok(idx) && idx@ == build_spec(keys@, epsilon as int),
            r matches Ok(idx) ==> idx.wf(),
            r matches Ok(idx) ==> (idx@.top_level is Some <==> idx@.segments.len() > 2),
    {
        let segments = build_segments(keys, epsilon);
        let nseg = segments.len();
        let mut top_keys: Vec<u64> = Vec::new();
        let mut k: usize = 0;
        while k < nseg
            invariant
                k <= nseg,
                nseg == segments@.len(),
                top_keys@ == start_keys(segments@).take(k as int),
            decreases nseg - k,
        {
            proof {
                assert(start_keys(segments@).take(k + 1) =~= start_keys(segments@).take(
                    k as int,
                ).push(segments@[k as int].start_key));
            }
            top_keys.push(segments[k].start_key);
            k = k + 1;
        }
        proof {
            assert(top_keys@ =~= start_keys(segments@));
            assert(keys_sorted(top_keys@));
        }
        let top_level = if top_keys.len() > 2 {
            Some(build_segments(top_keys.as_slice(), epsilon))
        } else {
            None
        };
        let idx = PGMIndex { segments, top_level, epsilon };
        proof {
            assert(idx@ =~= build_spec(keys@, epsilon as int));
        }
        Ok(idx)
    }

    /// Returns the inclusive position range `[lo, hi]` where `key` may appear.
    /// The range is the chosen segment's prediction, clamped into the index's
    /// position space and widened by `epsilon`; it is always well-formed, and
    /// callers must still test for the key within it.
    pub fn search(&self, key: u64) -> (r: (usize, usize))
        requires
            self.wf(),
            self@.segments.last().end_key < usize::MAX,
        ensures
            r.0 == search_spec(self@, key).0,
            r.1 == search_spec(self@, key).1,
            r.0 <= r.1 <= total_keys_spec(self@) - 1,
    {
        let nseg = self.segments.len();
        let si: usize = match &self.top_level {
            Some(top) => {
                let t = locate_level(top, key);
                let est = predict(&top[t], key);
                if est < nseg - 1 {
                    est
                } else {
                    nseg - 1
                }
            },
            None => locate_level(&self.segments, key),
        };
        assert(si == chosen_segment(self@, key));
        let predicted = predict(&self.segments[si], key);
        let eps = self.epsilon;
        let total_minus_1 = self.total_keys() - 1;
        let pos = if predicted < total_minus_1 {
            predicted
        } else {
            total_minus_1
        };
        let lo = if pos > eps {
            pos - eps
        } else {
            0
        };
        let sum: u128 = pos as u128 + eps as u128;
        let hi = if sum < total_minus_1 as u128 {
            pos + eps
        } else {
            total_minus_1
        };
        (lo, hi)
    }
}

} // verus!
