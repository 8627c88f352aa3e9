//! The Allen interval algebra over event intervals `[start, end]`, with the
//! optional tolerance parameters of the temporal operators. Differences
//! wrap like Java `long` arithmetic.

use vstd::prelude::*;

verus! {

/// The temporal operators between a subject interval B and an anchor A
/// ("B op A").
#[derive(Clone, Copy, Debug, PartialEq, Eq, Structural)]
pub enum AllenOp {
    After,
    Before,
    Coincides,
    Meets,
    MetBy,
    Overlaps,
    OverlappedBy,
    During,
    Includes,
    Starts,
    StartedBy,
    Finishes,
    FinishedBy,
}

/// `a - b` wrapped into 64 bits (two's complement).
pub open spec fn wsub(a: i64, b: i64) -> i64 {
    if a - b > i64::MAX {
        (a - b - 0x1_0000_0000_0000_0000) as i64
    } else if a - b < i64::MIN {
        (a - b + 0x1_0000_0000_0000_0000) as i64
    } else {
        (a - b) as i64
    }
}

/// Magnitude wrapped into 64 bits: `|MIN|` stays `MIN`.
pub open spec fn wabs(a: i64) -> i64 {
    if a == i64::MIN {
        i64::MIN
    } else if a < 0 {
        (-a) as i64
    } else {
        a
    }
}

/// Wrapped subtraction.
pub fn wrap_sub(a: i64, b: i64) -> (r: i64)
    ensures
        r == wsub(a, b),
{
    a.wrapping_sub(b)
}

/// Wrapped magnitude.
pub fn wrap_abs(a: i64) -> (r: i64)
    ensures
        r == wabs(a),
{
    if a == i64::MIN {
        i64::MIN
    } else if a < 0 {
        -a
    } else {
        a
    }
}

/// Overlap-distance bounds `(min, max)`: bare defaults to `[1, MAX]`,
/// `[max]` to `[1, max]`, `[min, max]` sets both.
pub open spec fn spec_overlap_bounds(p: Seq<i64>) -> (i64, i64) {
    if p.len() == 1 {
        (1, p[0])
    } else if p.len() == 2 {
        (p[0], p[1])
    } else {
        (1, i64::MAX)
    }
}

/// Overlap-distance bounds of `overlaps`/`overlappedby`.
pub fn overlap_bounds(params: &[i64]) -> (r: (i64, i64))
    ensures
        r == spec_overlap_bounds(params@),
{
    if params.len() == 1 {
        (1, params[0])
    } else if params.len() == 2 {
        (params[0], params[1])
    } else {
        (1, i64::MAX)
    }
}

/// `during`/`includes` windows (start-min, start-max, end-min, end-max):
/// bare is strictly inside (`[1, MAX]` on both ends), `[v]` is `[1, v]` on
/// both, `[lo, hi]` on both, and four values split start and end.
pub open spec fn spec_during_bounds(p: Seq<i64>) -> (i64, i64, i64, i64) {
    if p.len() == 1 {
        (1, p[0], 1, p[0])
    } else if p.len() == 2 {
        (p[0], p[1], p[0], p[1])
    } else if p.len() == 4 {
        (p[0], p[1], p[2], p[3])
    } else {
        (1, i64::MAX, 1, i64::MAX)
    }
}

/// Endpoint windows of `during`/`includes`.
pub fn during_bounds(params: &[i64]) -> (r: (i64, i64, i64, i64))
    ensures
        r == spec_during_bounds(params@),
{
    if params.len() == 1 {
        (1, params[0], 1, params[0])
    } else if params.len() == 2 {
        (params[0], params[1], params[0], params[1])
    } else if params.len() == 4 {
        (params[0], params[1], params[2], params[3])
    } else {
        (1, i64::MAX, 1, i64::MAX)
    }
}

/// The first tolerance parameter, 0 when there is none.
pub open spec fn dev0(p: Seq<i64>) -> i64 {
    if p.len() > 0 {
        p[0]
    } else {
        0
    }
}

/// `after` and `before` read two bounds; the other operators take any
/// parameter list.
pub open spec fn allen_params_ok(op: AllenOp, p: Seq<i64>) -> bool {
    (op is After || op is Before) ==> p.len() >= 2
}

/// "B op A" for B = `[bs, be]` and A = `[as_, ae]`, bounds inclusive:
/// - after: `bs - ae` in `[lo, hi]`; before: `as_ - be` in `[lo, hi]`;
/// - coincides: `|bs - as_| <= sdev` and `|be - ae| <= edev` (bare: 0, 0;
///   one value: both);
/// - meets: `|be - as_| <= dev`; metby: `|bs - ae| <= dev` (bare: 0);
/// - overlaps: `bs < as_ < be < ae` with `be - as_` within the overlap
///   bounds; overlappedby: `as_ < bs < ae < be` with `ae - bs` within them;
/// - during: `bs - as_` and `ae - be` within the start/end windows;
///   includes: `as_ - bs` and `be - ae` within them;
/// - starts/startedby: `|bs - as_| <= dev` and `be < ae` / `be > ae`;
/// - finishes/finishedby: `|be - ae| <= dev` and `bs > as_` / `bs < as_`.
pub open spec fn allen_holds(op: AllenOp, p: Seq<i64>, bs: i64, be: i64, as_: i64, ae: i64) -> bool {
    match op {
        AllenOp::After => {
            let d = wsub(bs, ae);
            p[0] <= d && d <= p[1]
        },
        AllenOp::Before => {
            let d = wsub(as_, be);
            p[0] <= d && d <= p[1]
        },
        AllenOp::Coincides => {
            let (sdev, edev) = if p.len() == 1 {
                (p[0], p[0])
            } else if p.len() == 2 {
                (p[0], p[1])
            } else {
                (0i64, 0i64)
            };
            wabs(wsub(bs, as_)) <= sdev && wabs(wsub(be, ae)) <= edev
        },
        AllenOp::Meets => wabs(wsub(be, as_)) <= dev0(p),
        AllenOp::MetBy => wabs(wsub(bs, ae)) <= dev0(p),
        AllenOp::Overlaps => {
            let (mn, mx) = spec_overlap_bounds(p);
            let ov = wsub(be, as_);
            bs < as_ && as_ < be && be < ae && mn <= ov && ov <= mx
        },
        AllenOp::OverlappedBy => {
            let (mn, mx) = spec_overlap_bounds(p);
            let ov = wsub(ae, bs);
            as_ < bs && bs < ae && ae < be && mn <= ov && ov <= mx
        },
        AllenOp::During => {
            let (smin, smax, emin, emax) = spec_during_bounds(p);
            let ds = wsub(bs, as_);
            let de = wsub(ae, be);
            smin <= ds && ds <= smax && emin <= de && de <= emax
        },
        AllenOp::Includes => {
            let (smin, smax, emin, emax) = spec_during_bounds(p);
            let ds = wsub(as_, bs);
            let de = wsub(be, ae);
            smin <= ds && ds <= smax && emin <= de && de <= emax
        },
        AllenOp::Starts => wabs(wsub(bs, as_)) <= dev0(p) && be < ae,
        AllenOp::StartedBy => wabs(wsub(bs, as_)) <= dev0(p) && be > ae,
        AllenOp::Finishes => wabs(wsub(be, ae)) <= dev0(p) && bs > as_,
        AllenOp::FinishedBy => wabs(wsub(be, ae)) <= dev0(p) && bs < as_,
    }
}

/// The first parameter, 0 when there is none.
fn first_or_zero(params: &[i64]) -> (r: i64)
    ensures
        r == dev0(params@),
{
    if params.len() > 0 {
        params[0]
    } else {
        0
    }
}

/// Evaluate the Allen relation `op` (with its tolerance `params`) between
/// the subject interval `[bs, be]` and the anchor interval `[as_, ae]`.
pub fn eval_allen(op: AllenOp, params: &[i64], bs: i64, be: i64, as_: i64, ae: i64) -> (r: bool)
    requires
        allen_params_ok(op, params@),
    ensures
        r == allen_holds(op, params@, bs, be, as_, ae),
{
    match op {
        AllenOp::After => {
            let d = wrap_sub(bs, ae);
            d >= params[0] && d <= params[1]
        },
        AllenOp::Before => {
            let d = wrap_sub(as_, be);
            d >= params[0] && d <= params[1]
        },
        AllenOp::Coincides => {
            let (sdev, edev) = if params.len() == 1 {
                (params[0], params[0])
            } else if params.len() == 2 {
                (params[0], params[1])
            } else {
                (0i64, 0i64)
            };
            wrap_abs(wrap_sub(bs, as_)) <= sdev && wrap_abs(wrap_sub(be, ae)) <= edev
        },
        AllenOp::Meets => wrap_abs(wrap_sub(be, as_)) <= first_or_zero(params),
        AllenOp::MetBy => wrap_abs(wrap_sub(bs, ae)) <= first_or_zero(params),
        AllenOp::Overlaps => {
            let (mn, mx) = overlap_bounds(params);
            let ov = wrap_sub(be, as_);
            bs < as_ && as_ < be && be < ae && ov >= mn && ov <= mx
        },
        AllenOp::OverlappedBy => {
            let (mn, mx) = overlap_bounds(params);
            let ov = wrap_sub(ae, bs);
            as_ < bs && bs < ae && ae < be && ov >= mn && ov <= mx
        },
        AllenOp::During => {
            let (smin, smax, emin, emax) = during_bounds(params);
            let ds = wrap_sub(bs, as_);
            let de = wrap_sub(ae, be);
            ds >= smin && ds <= smax && de >= emin && de <= emax
        },
        AllenOp::Includes => {
            let (smin, smax, emin, emax) = during_bounds(params);
            let ds = wrap_sub(as_, bs);
            let de = wrap_sub(be, ae);
            ds >= smin && ds <= smax && de >= emin && de <= emax
        },
        AllenOp::Starts => wrap_abs(wrap_sub(bs, as_)) <= first_or_zero(params) && be < ae,
        AllenOp::StartedBy => wrap_abs(wrap_sub(bs, as_)) <= first_or_zero(params) && be > ae,
        AllenOp::Finishes => wrap_abs(wrap_sub(be, ae)) <= first_or_zero(params) && bs > as_,
        AllenOp::FinishedBy => wrap_abs(wrap_sub(be, ae)) <= first_or_zero(params) && bs < as_,
    }
}


/// The converse operator: "B op A" holds exactly when "A converse(op) B"
/// holds.
pub open spec fn converse(op: AllenOp) -> AllenOp {
    match op {
        AllenOp::After => AllenOp::Before,
        AllenOp::Before => AllenOp::After,
        AllenOp::Coincides => AllenOp::Coincides,
        AllenOp::Meets => AllenOp::MetBy,
        AllenOp::MetBy => AllenOp::Meets,
        AllenOp::Overlaps => AllenOp::OverlappedBy,
        AllenOp::OverlappedBy => AllenOp::Overlaps,
        AllenOp::During => AllenOp::Includes,
        AllenOp::Includes => AllenOp::During,
        AllenOp::Starts => AllenOp::StartedBy,
        AllenOp::StartedBy => AllenOp::Starts,
        AllenOp::Finishes => AllenOp::FinishedBy,
        AllenOp::FinishedBy => AllenOp::Finishes,
    }
}

/// A wrapped difference has the same wrapped magnitude either way round.
pub proof fn lemma_wabs_wsub_symmetric(a: i64, b: i64)
    ensures
        wabs(wsub(a, b)) == wabs(wsub(b, a)),
{
}

/// Directionality: the relation read from the other interval is the
/// converse relation with the same parameters (`during` against
/// `includes`, `overlaps` against `overlappedby`, `after` against
/// `before`, and so on; `coincides` is its own converse).
pub proof fn law_allen_converse(op: AllenOp, p: Seq<i64>, bs: i64, be: i64, as_: i64, ae: i64)
    requires
        allen_params_ok(op, p),
    ensures
        allen_holds(op, p, bs, be, as_, ae) == allen_holds(converse(op), p, as_, ae, bs, be),
{
    lemma_wabs_wsub_symmetric(bs, as_);
    lemma_wabs_wsub_symmetric(be, ae);
    lemma_wabs_wsub_symmetric(be, as_);
    lemma_wabs_wsub_symmetric(bs, ae);
}

/// Timestamps far enough from the ends of the 64-bit range that no
/// difference of two of them wraps.
pub open spec fn unwrapped(t: i64) -> bool {
    -0x2000_0000_0000_0000 <= t && t <= 0x2000_0000_0000_0000
}

/// Point reduction: for two point events (zero duration) and no
/// parameters, `coincides`, `meets` and `metby` hold exactly when the two
/// timestamps are equal, and the strict interval relations (`overlaps`,
/// `overlappedby`, `during`, `includes`, `starts`, `startedby`,
/// `finishes`, `finishedby`) never hold.
pub proof fn law_allen_point_reduction(b: i64, a: i64)
    requires
        unwrapped(b),
        unwrapped(a),
    ensures
        allen_holds(AllenOp::Coincides, Seq::empty(), b, b, a, a) == (b == a),
        allen_holds(AllenOp::Meets, Seq::empty(), b, b, a, a) == (b == a),
        allen_holds(AllenOp::MetBy, Seq::empty(), b, b, a, a) == (b == a),
        !allen_holds(AllenOp::Overlaps, Seq::empty(), b, b, a, a),
        !allen_holds(AllenOp::OverlappedBy, Seq::empty(), b, b, a, a),
        !allen_holds(AllenOp::During, Seq::empty(), b, b, a, a),
        !allen_holds(AllenOp::Includes, Seq::empty(), b, b, a, a),
        !allen_holds(AllenOp::Starts, Seq::empty(), b, b, a, a),
        !allen_holds(AllenOp::StartedBy, Seq::empty(), b, b, a, a),
        !allen_holds(AllenOp::Finishes, Seq::empty(), b, b, a, a),
        !allen_holds(AllenOp::FinishedBy, Seq::empty(), b, b, a, a),
{
    let e = Seq::<i64>::empty();
    assert(e.len() == 0);
    assert(dev0(e) == 0);
    assert(wsub(b, a) == b - a);
    assert(wsub(a, b) == a - b);
    assert(spec_overlap_bounds(e) == (1i64, i64::MAX));
    assert(spec_during_bounds(e) == (1i64, i64::MAX, 1i64, i64::MAX));
}

/// With durations, `after[lo, hi]` measures from the end of the anchor:
/// for unwrapped endpoints the subject starts `lo..=hi` after the anchor
/// ends, and `before[lo, hi]` measures from the end of the subject to the
/// start of the anchor.
pub proof fn law_after_before_distance(lo: i64, hi: i64, bs: i64, be: i64, as_: i64, ae: i64)
    requires
        unwrapped(bs),
        unwrapped(be),
        unwrapped(as_),
        unwrapped(ae),
    ensures
        allen_holds(AllenOp::After, seq![lo, hi], bs, be, as_, ae) == (lo <= bs - ae <= hi),
        allen_holds(AllenOp::Before, seq![lo, hi], bs, be, as_, ae) == (lo <= as_ - be <= hi),
{
    let p = seq![lo, hi];
    assert(p[0] == lo && p[1] == hi);
    assert(wsub(bs, ae) == bs - ae);
    assert(wsub(as_, be) == as_ - be);
}

/// Magnitude of a mathematical integer.
pub open spec fn mag(x: int) -> int {
    if x < 0 {
        -x
    } else {
        x
    }
}

/// Between unwrapped timestamps every difference is exact and so is its
/// wrapped magnitude.
proof fn lemma_unwrapped_diff(a: i64, b: i64)
    requires
        unwrapped(a),
        unwrapped(b),
    ensures
        wsub(a, b) == a - b,
        wabs(wsub(a, b)) == mag(a - b),
{
}

/// The bare relations between two intervals, for unwrapped timestamps,
/// read as plain endpoint comparisons: coincides is equal endpoints,
/// meets/metby touch, overlaps/overlappedby cross strictly, during and
/// includes nest strictly, starts/startedby share the start with the
/// end before/after, finishes/finishedby share the end with the start
/// after/before.
pub proof fn law_allen_bare(bs: i64, be: i64, as_: i64, ae: i64)
    requires
        unwrapped(bs),
        unwrapped(be),
        unwrapped(as_),
        unwrapped(ae),
    ensures
        allen_holds(AllenOp::Coincides, Seq::empty(), bs, be, as_, ae) == (bs == as_ && be == ae),
        allen_holds(AllenOp::Meets, Seq::empty(), bs, be, as_, ae) == (be == as_),
        allen_holds(AllenOp::MetBy, Seq::empty(), bs, be, as_, ae) == (bs == ae),
        allen_holds(AllenOp::Overlaps, Seq::empty(), bs, be, as_, ae) == (bs < as_ && as_ < be && be < ae),
        allen_holds(AllenOp::OverlappedBy, Seq::empty(), bs, be, as_, ae) == (as_ < bs && bs < ae && ae < be),
        allen_holds(AllenOp::During, Seq::empty(), bs, be, as_, ae) == (as_ < bs && be < ae),
        allen_holds(AllenOp::Includes, Seq::empty(), bs, be, as_, ae) == (bs < as_ && ae < be),
        allen_holds(AllenOp::Starts, Seq::empty(), bs, be, as_, ae) == (bs == as_ && be < ae),
        allen_holds(AllenOp::StartedBy, Seq::empty(), bs, be, as_, ae) == (bs == as_ && be > ae),
        allen_holds(AllenOp::Finishes, Seq::empty(), bs, be, as_, ae) == (be == ae && bs > as_),
        allen_holds(AllenOp::FinishedBy, Seq::empty(), bs, be, as_, ae) == (be == ae && bs < as_),
{
    let e = Seq::<i64>::empty();
    assert(e.len() == 0);
    lemma_unwrapped_diff(bs, as_);
    lemma_unwrapped_diff(as_, bs);
    lemma_unwrapped_diff(be, ae);
    lemma_unwrapped_diff(ae, be);
    lemma_unwrapped_diff(be, as_);
    lemma_unwrapped_diff(bs, ae);
    lemma_unwrapped_diff(ae, bs);
}

/// Tolerances and bounds, for unwrapped timestamps: `coincides[d]`
/// bounds both endpoint gaps by `d` (the same as `coincides[d, d]`),
/// `coincides[s, e]` the start gap by `s` and the end gap by `e`;
/// `meets[d]`, `metby[d]`, `starts[d]`, `startedby[d]`, `finishes[d]`,
/// `finishedby[d]` bound their shared endpoint's gap by `d`;
/// `overlaps[m]` bounds the overlap by `m`, `overlaps[lo, hi]` keeps it
/// within `[lo, hi]`; `during[v]` keeps both gaps within `[1, v]`,
/// `during[lo, hi]` both within `[lo, hi]`, and
/// `during[a, b, c, d]` the start gap within `[a, b]` and the end gap
/// within `[c, d]`.
pub proof fn law_allen_tolerances(d: i64, e: i64, f: i64, g: i64, bs: i64, be: i64, as_: i64, ae: i64)
    requires
        unwrapped(bs),
        unwrapped(be),
        unwrapped(as_),
        unwrapped(ae),
    ensures
        allen_holds(AllenOp::Coincides, seq![d], bs, be, as_, ae) == (mag(bs - as_) <= d && mag(be - ae) <= d),
        allen_holds(AllenOp::Coincides, seq![d], bs, be, as_, ae) == allen_holds(AllenOp::Coincides, seq![d, d], bs, be, as_, ae),
        allen_holds(AllenOp::Coincides, seq![d, e], bs, be, as_, ae) == (mag(bs - as_) <= d && mag(be - ae) <= e),
        allen_holds(AllenOp::Meets, seq![d], bs, be, as_, ae) == (mag(be - as_) <= d),
        allen_holds(AllenOp::MetBy, seq![d], bs, be, as_, ae) == (mag(bs - ae) <= d),
        allen_holds(AllenOp::Starts, seq![d], bs, be, as_, ae) == (mag(bs - as_) <= d && be < ae),
        allen_holds(AllenOp::StartedBy, seq![d], bs, be, as_, ae) == (mag(bs - as_) <= d && be > ae),
        allen_holds(AllenOp::Finishes, seq![d], bs, be, as_, ae) == (mag(be - ae) <= d && bs > as_),
        allen_holds(AllenOp::FinishedBy, seq![d], bs, be, as_, ae) == (mag(be - ae) <= d && bs < as_),
        allen_holds(AllenOp::Overlaps, seq![d], bs, be, as_, ae) == (bs < as_ && as_ < be && be < ae && be - as_ <= d),
        allen_holds(AllenOp::Overlaps, seq![d, e], bs, be, as_, ae) == (bs < as_ && as_ < be && be < ae && d <= be - as_ <= e),
        allen_holds(AllenOp::OverlappedBy, seq![d], bs, be, as_, ae) == (as_ < bs && bs < ae && ae < be && ae - bs <= d),
        allen_holds(AllenOp::OverlappedBy, seq![d, e], bs, be, as_, ae) == (as_ < bs && bs < ae && ae < be && d <= ae - bs <= e),
        allen_holds(AllenOp::During, seq![d], bs, be, as_, ae) == (1 <= bs - as_ <= d && 1 <= ae - be <= d),
        allen_holds(AllenOp::During, seq![d, e], bs, be, as_, ae) == (d <= bs - as_ <= e && d <= ae - be <= e),
        allen_holds(AllenOp::During, seq![d, e, f, g], bs, be, as_, ae) == (d <= bs - as_ <= e && f <= ae - be <= g),
        allen_holds(AllenOp::Includes, seq![d], bs, be, as_, ae) == (1 <= as_ - bs <= d && 1 <= be - ae <= d),
        allen_holds(AllenOp::Includes, seq![d, e], bs, be, as_, ae) == (d <= as_ - bs <= e && d <= be - ae <= e),
        allen_holds(AllenOp::Includes, seq![d, e, f, g], bs, be, as_, ae) == (d <= as_ - bs <= e && f <= be - ae <= g),
{
    let p1 = seq![d];
    let p2 = seq![d, e];
    let p22 = seq![d, d];
    let p4 = seq![d, e, f, g];
    assert(p1.len() == 1 && p1[0] == d);
    assert(p2.len() == 2 && p2[0] == d && p2[1] == e);
    assert(p22.len() == 2 && p22[0] == d && p22[1] == d);
    assert(p4.len() == 4 && p4[0] == d && p4[1] == e && p4[2] == f && p4[3] == g);
    lemma_unwrapped_diff(bs, as_);
    lemma_unwrapped_diff(as_, bs);
    lemma_unwrapped_diff(be, ae);
    lemma_unwrapped_diff(ae, be);
    lemma_unwrapped_diff(be, as_);
    lemma_unwrapped_diff(bs, ae);
    lemma_unwrapped_diff(ae, bs);
}

/// A single `coincides` tolerance bounds both endpoint gaps alike, for any
/// timestamps: `coincides[d]` is `coincides[d, d]`, and it treats the start
/// pair and the end pair the same way (exchanging them keeps the verdict).
pub proof fn law_coincides_one_tolerance_both_ends(d: i64, bs: i64, be: i64, as_: i64, ae: i64)
    ensures
        allen_holds(AllenOp::Coincides, seq![d], bs, be, as_, ae) == allen_holds(AllenOp::Coincides, seq![d, d], bs, be, as_, ae),
        allen_holds(AllenOp::Coincides, seq![d], bs, be, as_, ae) == allen_holds(AllenOp::Coincides, seq![d], be, bs, ae, as_),
        allen_holds(AllenOp::Coincides, seq![d, d], bs, be, as_, ae) == allen_holds(AllenOp::Coincides, seq![d, d], be, bs, ae, as_),
{
    let p1 = seq![d];
    let p22 = seq![d, d];
    assert(p1.len() == 1 && p1[0] == d);
    assert(p22.len() == 2 && p22[0] == d && p22[1] == d);
}

} // verus!
