//! Properties of the tempo timeline.
//!
//! Each public lemma here states one law of the exact integrals of
//! [`crate::timeline`]: continuity at interval boundaries, monotonicity
//! of the forward and inverse integrals, non-negativity of the scroll
//! distance, the zero laws, and the inverse law.

use vstd::prelude::*;

use crate::rat::Qv;
use crate::rat::lemma_q_add_le_iff;
use crate::rat::lemma_q_add_compat;
use crate::rat::lemma_q_add_sub;
use crate::rat::lemma_q_eq_trans;
use crate::rat::lemma_q_le_add_mono;
use crate::rat::lemma_q_le_compat;
use crate::rat::lemma_q_le_mul_pos;
use crate::rat::lemma_q_le_sub_mono;
use crate::rat::lemma_q_le_trans;
use crate::rat::lemma_q_mul_comm;
use crate::rat::lemma_q_mul_compat;
use crate::rat::lemma_q_mul_div_cancel;
use crate::rat::lemma_q_mul_sign;
use crate::rat::lemma_q_ops_wf;
use crate::rat::q_add;
use crate::rat::q_div;
use crate::rat::q_eq;
use crate::rat::q_int;
use crate::rat::q_le;
use crate::rat::q_lt;
use crate::rat::q_max;
use crate::rat::q_min;
use crate::rat::q_mul;
use crate::rat::q_sub;
use crate::rat::q_wf;
use crate::rat::q_zero;
use crate::timeline::Interval;
use crate::timeline::beat_from;
use crate::timeline::beat_of;
use crate::timeline::dist_from;
use crate::timeline::dist_of;
use crate::timeline::lemma_beat_from_wf;
use crate::timeline::lemma_dist_from_empty;
use crate::timeline::lemma_dist_from_wf;
use crate::timeline::lemma_q_minmax_basic;
use crate::timeline::lemma_seg_time_val_wf;
use crate::timeline::lemma_time_from_wf;
use crate::timeline::seg_beat_val;
use crate::timeline::seg_ok;
use crate::timeline::seg_time_val;
use crate::timeline::time_from;
use crate::timeline::time_of;
use crate::timeline::tl_wf;

verus! {

/// Interval starts are strictly increasing along a well-formed timeline.
pub proof fn lemma_starts_lt(s: Seq<Interval>, i: int, j: int)
    requires
        tl_wf(s),
        0 <= i < j < s.len(),
    ensures
        q_lt(s[i].start@, s[j].start@),
    decreases j - i,
{
    assert(seg_ok(s, i));
    let e = s[i].end->Some_0;
    assert(e == s[i + 1].start);
    if i + 1 == j {
    } else {
        lemma_starts_lt(s, i + 1, j);
        assert(seg_ok(s, j));
        assert(seg_ok(s, i + 1));
        lemma_q_le_trans(s[i].start@, s[i + 1].start@, s[j].start@);
    }
}

/// Crossing a longer stretch of one segment takes at least as long, and
/// strictly longer for a strictly longer stretch.
proof fn lemma_seg_time_mono(start: Qv, b1: Qv, b2: Qv, v: Qv)
    requires
        q_wf(start),
        q_wf(b1),
        q_wf(b2),
        q_wf(v),
        q_lt(q_zero(), v),
        q_le(b1, b2),
    ensures
        q_le(seg_time_val(start, b1, v), seg_time_val(start, b2, v)),
        q_lt(b1, b2) ==> q_lt(seg_time_val(start, b1, v), seg_time_val(start, b2, v)),
{
    let d1 = q_sub(b1, start);
    let d2 = q_sub(b2, start);
    lemma_q_le_sub_mono(b1, b2, start);
    lemma_q_ops_wf(b1, start);
    lemma_q_ops_wf(b2, start);
    lemma_q_le_mul_pos(d1, d2, q_int(60));
    lemma_q_ops_wf(q_int(60), d1);
    lemma_q_ops_wf(q_int(60), d2);
    // the monotone step is `60 * d`, written with sixty on the left
    lemma_q_le_mul_pos(q_mul(q_int(60), d1), q_mul(q_int(60), d2), v);
}

/// A crossing of a segment takes non-negative time, positive when the
/// stretch is non-empty.
proof fn lemma_seg_time_sign(start: Qv, b: Qv, v: Qv)
    requires
        q_wf(start),
        q_wf(b),
        q_wf(v),
        q_lt(q_zero(), v),
    ensures
        q_le(start, b) ==> q_le(q_zero(), seg_time_val(start, b, v)),
        q_lt(start, b) ==> q_lt(q_zero(), seg_time_val(start, b, v)),
{
    lemma_q_le_sub_mono(b, b, start);
    lemma_q_ops_wf(b, start);
    let d = q_sub(b, start);
    lemma_q_le_mul_pos(q_zero(), d, q_int(60));
    lemma_q_ops_wf(q_int(60), d);
    // 60 * 0 is the zero value itself
    assert(q_mul(q_int(60), q_zero()) == q_zero());
    lemma_q_mul_sign(q_mul(q_int(60), d), v);
    if q_le(start, b) {
        assert(q_le(q_zero(), q_mul(q_int(60), d)));
    }
}

/// The exact forward integral from interval `i` is non-negative for
/// queries at or past the interval's start, and positive strictly past
/// it.
pub proof fn lemma_time_from_sign(s: Seq<Interval>, i: int, x: Qv)
    requires
        tl_wf(s),
        q_wf(x),
        0 <= i < s.len(),
    ensures
        q_le(s[i].start@, x) ==> q_le(q_zero(), time_from(s, i, x)),
        q_lt(s[i].start@, x) ==> q_lt(q_zero(), time_from(s, i, x)),
    decreases s.len() - i,
{
    assert(seg_ok(s, i));
    let it = s[i];
    lemma_seg_time_sign(it.start@, x, it.value@);
    match it.end {
        None => {},
        Some(e) => {
            if q_le(x, e@) {
            } else {
                // x lies past this bounded interval: a full positive
                // crossing plus a positive remainder.
                assert(e == s[i + 1].start);
                lemma_time_from_sign(s, i + 1, x);
                lemma_seg_time_sign(it.start@, e@, it.value@);
                let full = seg_time_val(it.start@, e@, it.value@);
                let rest = time_from(s, i + 1, x);
                lemma_seg_time_val_wf(it.start@, e@, it.value@);
                lemma_time_from_wf(s, i + 1, x);
                lemma_q_le_add_mono(q_zero(), full, q_zero(), rest);
                lemma_q_ops_wf(q_zero(), q_zero());
                lemma_q_ops_wf(full, rest);
                lemma_q_add_sub(q_zero(), q_zero());
                lemma_q_le_compat(
                    q_add(q_zero(), q_zero()),
                    q_add(full, rest),
                    q_zero(),
                    q_add(full, rest),
                );
            }
        },
    }
}

/// The time spent in all intervals `i` (inclusive) up to `j`
/// (exclusive), each crossed in full; meaningful for `j` at most the
/// index of the last, unbounded interval.
pub open spec fn fulls_between(s: Seq<Interval>, i: int, j: int) -> Qv
    decreases j - i,
{
    if i < 0 || i >= j {
        q_zero()
    } else {
        q_add(
            seg_time_val(s[i].start@, s[i].end->Some_0@, s[i].value@),
            fulls_between(s, i + 1, j),
        )
    }
}

/// The sum of full crossings has a positive denominator.
pub proof fn lemma_fulls_between_wf(s: Seq<Interval>, i: int, j: int)
    requires
        tl_wf(s),
        j < s.len(),
    ensures
        q_wf(fulls_between(s, i, j)),
    decreases j - i,
{
    if 0 <= i < j {
        assert(seg_ok(s, i));
        lemma_fulls_between_wf(s, i + 1, j);
        lemma_seg_time_val_wf(s[i].start@, s[i].end->Some_0@, s[i].value@);
        lemma_q_ops_wf(
            seg_time_val(s[i].start@, s[i].end->Some_0@, s[i].value@),
            fulls_between(s, i + 1, j),
        );
    }
}

/// Evaluating the forward integral exactly at the start of interval `j`
/// yields the sum of the full crossings of all earlier intervals.
proof fn lemma_time_from_at_start(s: Seq<Interval>, i: int, j: int)
    requires
        tl_wf(s),
        0 <= i < j < s.len(),
    ensures
        q_eq(time_from(s, i, s[j].start@), fulls_between(s, i, j)),
    decreases j - i,
{
    assert(seg_ok(s, i));
    assert(seg_ok(s, j));
    let it = s[i];
    let b = s[j].start@;
    let e = it.end->Some_0;
    assert(e == s[i + 1].start);
    let full = seg_time_val(it.start@, e@, it.value@);
    lemma_seg_time_val_wf(it.start@, e@, it.value@);
    if i + 1 == j {
        // the query sits exactly on this interval's end: the partial
        // crossing is the full one
        assert(q_le(b, e@));
        assert(fulls_between(s, i + 1, j) == q_zero());
        lemma_q_ops_wf(full, q_zero());
        lemma_q_add_sub(full, q_zero());
    } else {
        lemma_starts_lt(s, i + 1, j);
        assert(q_lt(e@, b));
        lemma_time_from_at_start(s, i + 1, j);
        lemma_fulls_between_wf(s, i + 1, j);
        lemma_time_from_wf(s, i + 1, b);
        lemma_q_add_compat(full, time_from(s, i + 1, b), full, fulls_between(s, i + 1, j));
    }
}

/// Continuity at an interval boundary: the forward integral at the
/// boundary beat equals the sum of the full crossings of the earlier
/// intervals (the value obtained by closing the earlier interval), and
/// opening the later interval there adds exactly nothing.
pub proof fn lemma_time_continuous_at_boundary(s: Seq<Interval>, j: int)
    requires
        tl_wf(s),
        1 <= j < s.len(),
    ensures
        q_eq(time_of(s, s[j].start@), fulls_between(s, 0, j)),
        q_eq(
            q_add(fulls_between(s, 0, j), seg_time_val(s[j].start@, s[j].start@, s[j].value@)),
            fulls_between(s, 0, j),
        ),
{
    assert(seg_ok(s, 0));
    assert(seg_ok(s, j));
    let b = s[j].start@;
    lemma_starts_lt(s, 0, j);
    lemma_q_le_compat(s[0].start@, b, q_zero(), b);
    assert(!q_le(b, q_zero()));
    lemma_time_from_at_start(s, 0, j);
    // the zero-length opening partial crossing is worth zero
    let z = seg_time_val(b, b, s[j].value@);
    lemma_q_add_sub(b, b);
    lemma_q_ops_wf(b, b);
    lemma_q_mul_compat(q_int(60), q_sub(b, b), q_int(60), q_zero());
    lemma_q_ops_wf(q_int(60), q_sub(b, b));
    lemma_q_ops_wf(q_int(60), q_zero());
    assert(q_mul(q_int(60), q_zero()) == q_zero());
    lemma_q_mul_compat(
        q_mul(q_int(60), q_sub(b, b)),
        s[j].value@,
        q_zero(),
        s[j].value@,
    );
    lemma_q_ops_wf(q_mul(q_int(60), q_sub(b, b)), s[j].value@);
    lemma_q_ops_wf(q_zero(), s[j].value@);
    // dividing zero by the rate leaves zero
    assert(q_eq(q_div(q_zero(), s[j].value@), q_zero())) by {
        assert(s[j].value@.n > 0) by (nonlinear_arith)
            requires
                0 * s[j].value@.d < s[j].value@.n * 1,
        ;
        assert(0 * s[j].value@.d * 1 == 0 * (1 * s[j].value@.n)) by (nonlinear_arith);
    }
    lemma_seg_time_val_wf(b, b, s[j].value@);
    lemma_q_eq_trans(z, q_div(q_zero(), s[j].value@), q_zero());
    let f = fulls_between(s, 0, j);
    lemma_fulls_between_wf(s, 0, j);
    lemma_q_add_compat(f, z, f, q_zero());
    lemma_q_ops_wf(f, z);
    lemma_q_ops_wf(f, q_zero());
    lemma_q_add_sub(f, q_zero());
    lemma_q_eq_trans(q_add(f, z), q_add(f, q_zero()), f);
}

/// Monotonicity of the exact forward integral from interval `i`, for
/// queries at or past the interval's start.
proof fn lemma_time_from_mono(s: Seq<Interval>, i: int, x1: Qv, x2: Qv)
    requires
        tl_wf(s),
        q_wf(x1),
        q_wf(x2),
        0 <= i < s.len(),
        q_le(s[i].start@, x1),
        q_le(x1, x2),
    ensures
        q_le(time_from(s, i, x1), time_from(s, i, x2)),
    decreases s.len() - i,
{
    assert(seg_ok(s, i));
    let it = s[i];
    lemma_seg_time_mono(it.start@, x1, x2, it.value@);
    match it.end {
        None => {},
        Some(e) => {
            let full = seg_time_val(it.start@, e@, it.value@);
            lemma_seg_time_val_wf(it.start@, e@, it.value@);
            if q_le(x1, e@) {
                if q_le(x2, e@) {
                } else {
                    // x1 stays inside, x2 crosses on: partial <= full
                    // and the tail is non-negative
                    assert(e == s[i + 1].start);
                    lemma_seg_time_mono(it.start@, x1, e@, it.value@);
                    lemma_seg_time_val_wf(it.start@, x1, it.value@);
                    lemma_time_from_sign(s, i + 1, x2);
                    let rest = time_from(s, i + 1, x2);
                    lemma_time_from_wf(s, i + 1, x2);
                    lemma_q_add_le_iff(full, rest);
                    lemma_q_ops_wf(full, rest);
                    lemma_q_le_trans(
                        seg_time_val(it.start@, x1, it.value@),
                        full,
                        q_add(full, rest),
                    );
                }
            } else {
                assert(e == s[i + 1].start);
                lemma_q_le_trans(e@, x1, x2);
                assert(!q_le(x2, e@));
                lemma_time_from_mono(s, i + 1, x1, x2);
                let r1 = time_from(s, i + 1, x1);
                let r2 = time_from(s, i + 1, x2);
                lemma_time_from_wf(s, i + 1, x1);
                lemma_time_from_wf(s, i + 1, x2);
                lemma_q_le_add_mono(full, full, r1, r2);
            }
        },
    }
}

/// Monotonicity of the forward integral: a later beat is never reached
/// at an earlier time.
pub proof fn lemma_time_monotonic(s: Seq<Interval>, x1: Qv, x2: Qv)
    requires
        tl_wf(s),
        q_wf(x1),
        q_wf(x2),
        q_le(x1, x2),
    ensures
        q_le(time_of(s, x1), time_of(s, x2)),
{
    assert(seg_ok(s, 0));
    if q_le(x1, q_zero()) {
        if q_le(x2, q_zero()) {
        } else {
            lemma_q_le_compat(s[0].start@, x2, q_zero(), x2);
            lemma_time_from_sign(s, 0, x2);
        }
    } else {
        lemma_q_le_compat(s[0].start@, x1, q_zero(), x1);
        assert(q_le(s[0].start@, x1));
        lemma_time_from_mono(s, 0, x1, x2);
        lemma_q_le_trans(q_zero(), x1, x2);
        assert(!q_le(x2, q_zero()));
    }
}

/// The beat solved within one segment grows with the time spent there.
proof fn lemma_seg_beat_mono(start: Qv, y1: Qv, y2: Qv, v: Qv)
    requires
        q_wf(start),
        q_wf(y1),
        q_wf(y2),
        q_wf(v),
        q_lt(q_zero(), v),
        q_le(y1, y2),
    ensures
        q_le(seg_beat_val(start, y1, v), seg_beat_val(start, y2, v)),
{
    lemma_q_le_mul_pos(y1, y2, v);
    lemma_q_ops_wf(y1, v);
    lemma_q_ops_wf(y2, v);
    lemma_q_le_mul_pos(q_mul(y1, v), q_mul(y2, v), q_int(60));
    lemma_q_ops_wf(q_mul(y1, v), q_int(60));
    lemma_q_ops_wf(q_mul(y2, v), q_int(60));
    lemma_q_le_add_mono(
        start,
        start,
        q_div(q_mul(y1, v), q_int(60)),
        q_div(q_mul(y2, v), q_int(60)),
    );
}

/// The exact inverse integral from interval `i` stays at or past the
/// interval's start for non-negative remaining time.
pub proof fn lemma_beat_from_lower(s: Seq<Interval>, i: int, y: Qv)
    requires
        tl_wf(s),
        q_wf(y),
        0 <= i < s.len(),
        q_le(q_zero(), y),
    ensures
        q_le(s[i].start@, beat_from(s, i, y)),
    decreases s.len() - i,
{
    assert(seg_ok(s, i));
    let it = s[i];
    // start + y*v/60 is at or past start
    lemma_q_le_mul_pos(q_zero(), y, it.value@);
    lemma_q_ops_wf(y, it.value@);
    assert(q_mul(q_zero(), it.value@) == Qv { n: 0 * it.value@.n, d: 1 * it.value@.d });
    assert(q_le(q_zero(), q_mul(q_zero(), it.value@))) by {
        assert(0 * it.value@.n == 0) by (nonlinear_arith);
        assert(0 * (1 * it.value@.d) == 0 && (0 * it.value@.n) * 1 == 0) by (nonlinear_arith);
    }
    lemma_q_le_trans(q_zero(), q_mul(q_zero(), it.value@), q_mul(y, it.value@));
    lemma_q_ops_wf(q_zero(), it.value@);
    lemma_q_mul_sign(q_mul(y, it.value@), q_int(60));
    assert(q_le(q_zero(), q_div(q_mul(y, it.value@), q_int(60))));
    lemma_q_add_le_iff(it.start@, q_div(q_mul(y, it.value@), q_int(60)));
    lemma_q_ops_wf(q_mul(y, it.value@), q_int(60));
    match it.end {
        None => {},
        Some(e) => {
            let full = seg_time_val(it.start@, e@, it.value@);
            lemma_seg_time_val_wf(it.start@, e@, it.value@);
            if q_le(y, full) {
            } else {
                assert(e == s[i + 1].start);
                lemma_q_le_sub_mono(y, y, full);
                lemma_q_ops_wf(y, full);
                lemma_beat_from_lower(s, i + 1, q_sub(y, full));
                assert(q_lt(it.start@, e@));
                lemma_beat_from_wf(s, i + 1, q_sub(y, full));
                lemma_q_le_trans(it.start@, s[i + 1].start@, beat_from(s, i + 1, q_sub(y, full)));
            }
        },
    }
}

/// Monotonicity of the exact inverse integral from interval `i`, for
/// non-negative remaining times.
proof fn lemma_beat_from_mono(s: Seq<Interval>, i: int, y1: Qv, y2: Qv)
    requires
        tl_wf(s),
        q_wf(y1),
        q_wf(y2),
        0 <= i < s.len(),
        q_le(q_zero(), y1),
        q_le(y1, y2),
    ensures
        q_le(beat_from(s, i, y1), beat_from(s, i, y2)),
    decreases s.len() - i,
{
    assert(seg_ok(s, i));
    let it = s[i];
    lemma_seg_beat_mono(it.start@, y1, y2, it.value@);
    match it.end {
        None => {},
        Some(e) => {
            let full = seg_time_val(it.start@, e@, it.value@);
            lemma_seg_time_val_wf(it.start@, e@, it.value@);
            if q_le(y1, full) {
                if q_le(y2, full) {
                } else {
                    // y1 resolves here, y2 in a later interval: the
                    // in-segment solution stays at or before the
                    // boundary, and the tail starts there
                    assert(e == s[i + 1].start);
                    lemma_seg_beat_mono(it.start@, y1, full, it.value@);
                    lemma_seg_roundtrip(it.start@, e@, it.value@);
                    lemma_q_ops_wf(y1, it.value@);
                    lemma_q_ops_wf(q_mul(y1, it.value@), q_int(60));
                    lemma_q_ops_wf(it.start@, q_div(q_mul(y1, it.value@), q_int(60)));
                    lemma_q_ops_wf(full, it.value@);
                    lemma_q_ops_wf(q_mul(full, it.value@), q_int(60));
                    lemma_q_ops_wf(it.start@, q_div(q_mul(full, it.value@), q_int(60)));
                    lemma_q_le_compat(
                        seg_beat_val(it.start@, y1, it.value@),
                        seg_beat_val(it.start@, full, it.value@),
                        seg_beat_val(it.start@, y1, it.value@),
                        e@,
                    );
                    lemma_q_le_sub_mono(y2, y2, full);
                    lemma_q_ops_wf(y2, full);
                    lemma_beat_from_lower(s, i + 1, q_sub(y2, full));
                    lemma_beat_from_wf(s, i + 1, q_sub(y2, full));
                    lemma_q_le_trans(
                        seg_beat_val(it.start@, y1, it.value@),
                        s[i + 1].start@,
                        beat_from(s, i + 1, q_sub(y2, full)),
                    );
                }
            } else {
                if q_le(y2, full) {
                    // impossible: y1 <= y2 <= full would put y1 in range
                    lemma_q_le_trans(y1, y2, full);
                }
                lemma_q_le_sub_mono(y1, y2, full);
                lemma_q_ops_wf(y1, full);
                lemma_q_ops_wf(y2, full);
                lemma_beat_from_mono(s, i + 1, q_sub(y1, full), q_sub(y2, full));
            }
        },
    }
}

/// Monotonicity of the inverse integral: more elapsed time never maps
/// to an earlier beat.
pub proof fn lemma_beat_monotonic(s: Seq<Interval>, y1: Qv, y2: Qv)
    requires
        tl_wf(s),
        q_wf(y1),
        q_wf(y2),
        q_le(y1, y2),
    ensures
        q_le(beat_of(s, y1), beat_of(s, y2)),
{
    assert(seg_ok(s, 0));
    if q_le(y1, q_zero()) {
        if q_le(y2, q_zero()) {
        } else {
            lemma_beat_from_lower(s, 0, y2);
            lemma_beat_from_wf(s, 0, y2);
            lemma_q_le_compat(s[0].start@, beat_from(s, 0, y2), q_zero(), beat_from(s, 0, y2));
        }
    } else {
        lemma_beat_from_mono(s, 0, y1, y2);
        lemma_q_le_trans(q_zero(), y1, y2);
        assert(!q_le(y2, q_zero()));
    }
}

/// Solving a segment for the time of its own full crossing lands on its
/// end.
proof fn lemma_seg_roundtrip(start: Qv, b: Qv, v: Qv)
    requires
        q_wf(start),
        q_wf(b),
        q_wf(v),
        q_lt(q_zero(), v),
    ensures
        q_eq(seg_beat_val(start, seg_time_val(start, b, v), v), b),
{
    let d = q_sub(b, start);
    let a = q_mul(q_int(60), d);
    let t = q_div(a, v);
    lemma_q_ops_wf(b, start);
    lemma_q_ops_wf(q_int(60), d);
    lemma_q_ops_wf(a, v);
    // (a / v) * v gives a back
    lemma_q_mul_div_cancel(a, v);
    lemma_q_ops_wf(t, v);
    // a / 60 gives d back, via commuting 60 * d
    lemma_q_mul_comm(q_int(60), d);
    lemma_q_ops_wf(d, q_int(60));
    lemma_q_mul_div_cancel(d, q_int(60));
    lemma_q_mul_compat(t, v, t, v);
    // chain: (t*v)/60 ~ a/60 ~ d
    crate::rat::lemma_q_mul_compat(q_mul(t, v), q_int(60), a, q_int(60));
    lemma_q_ops_wf(q_mul(t, v), q_int(60));
    lemma_q_ops_wf(a, q_int(60));
    lemma_q_mul_compat(a, q_int(60), q_mul(d, q_int(60)), q_int(60));
    lemma_q_ops_wf(q_mul(d, q_int(60)), q_int(60));
    lemma_q_eq_trans(
        q_div(q_mul(t, v), q_int(60)),
        q_div(a, q_int(60)),
        q_div(q_mul(d, q_int(60)), q_int(60)),
    );
    lemma_q_eq_trans(
        q_div(q_mul(t, v), q_int(60)),
        q_div(q_mul(d, q_int(60)), q_int(60)),
        d,
    );
    // start + d gives b back
    lemma_q_add_compat(start, q_div(q_mul(t, v), q_int(60)), start, d);
    lemma_q_ops_wf(start, d);
    lemma_q_add_sub(b, start);
    lemma_q_ops_wf(start, q_div(q_mul(t, v), q_int(60)));
    lemma_q_eq_trans(
        q_add(start, q_div(q_mul(t, v), q_int(60))),
        q_add(start, d),
        b,
    );
}

/// The inverse law from interval `i` on: evaluating the forward
/// integral from `i` at a beat in range and feeding the result to the
/// inverse walk returns the beat.
proof fn lemma_inverse_from(s: Seq<Interval>, i: int, x: Qv)
    requires
        tl_wf(s),
        q_wf(x),
        0 <= i < s.len(),
        q_le(s[i].start@, x),
    ensures
        q_eq(beat_from(s, i, time_from(s, i, x)), x),
    decreases s.len() - i,
{
    assert(seg_ok(s, i));
    let it = s[i];
    match it.end {
        None => {
            lemma_seg_roundtrip(it.start@, x, it.value@);
        },
        Some(e) => {
            let full = seg_time_val(it.start@, e@, it.value@);
            lemma_seg_time_val_wf(it.start@, e@, it.value@);
            if q_le(x, e@) {
                // the forward value stays within this segment's crossing
                lemma_seg_time_mono(it.start@, x, e@, it.value@);
                lemma_seg_roundtrip(it.start@, x, it.value@);
            } else {
                assert(e == s[i + 1].start);
                let rest = time_from(s, i + 1, x);
                lemma_time_from_wf(s, i + 1, x);
                lemma_time_from_sign(s, i + 1, x);
                assert(q_lt(q_zero(), rest));
                // full + rest exceeds full, so the inverse walk recurses
                lemma_q_add_le_iff(full, rest);
                lemma_q_ops_wf(full, rest);
                assert(!q_le(q_add(full, rest), full));
                // and the remaining time is exactly rest
                lemma_q_add_sub(rest, full);
                lemma_q_ops_wf(rest, full);
                lemma_q_add_sub(full, rest);
                crate::rat::lemma_q_add_compat(
                    q_add(full, rest),
                    full,
                    q_add(rest, full),
                    full,
                );
                lemma_q_ops_wf(q_add(full, rest), full);
                lemma_q_ops_wf(q_add(rest, full), full);
                lemma_q_eq_trans(
                    q_sub(q_add(full, rest), full),
                    q_sub(q_add(rest, full), full),
                    rest,
                );
                lemma_inverse_from(s, i + 1, x);
                crate::timeline::lemma_beat_from_congr(
                    s,
                    i + 1,
                    q_sub(q_add(full, rest), full),
                    rest,
                );
                lemma_beat_from_wf(s, i + 1, q_sub(q_add(full, rest), full));
                lemma_beat_from_wf(s, i + 1, rest);
                lemma_q_eq_trans(
                    beat_from(s, i + 1, q_sub(q_add(full, rest), full)),
                    beat_from(s, i + 1, rest),
                    x,
                );
            }
        },
    }
}

/// The inverse law: for every beat at or past zero, mapping it to
/// elapsed time and back returns the same beat.
pub proof fn lemma_inverse_law(s: Seq<Interval>, x: Qv)
    requires
        tl_wf(s),
        q_wf(x),
        q_le(q_zero(), x),
    ensures
        q_eq(beat_of(s, time_of(s, x)), x),
{
    assert(seg_ok(s, 0));
    if q_le(x, q_zero()) {
        // x is the zero value: both integrals collapse to zero
        assert(q_eq(x, q_zero()));
        assert(q_le(time_of(s, x), q_zero()));
    } else {
        lemma_q_le_compat(q_zero(), x, s[0].start@, x);
        lemma_q_le_compat(s[0].start@, x, q_zero(), x);
        assert(q_lt(s[0].start@, x));
        lemma_time_from_sign(s, 0, x);
        let y = time_from(s, 0, x);
        lemma_time_from_wf(s, 0, x);
        assert(!q_le(y, q_zero()));
        lemma_inverse_from(s, 0, x);
    }
}

/// The zero laws: the forward and inverse integrals of zero are zero,
/// and the distance from any coordinate to itself is zero.
pub proof fn lemma_zero_laws(s: Seq<Interval>, x: Qv)
    requires
        tl_wf(s),
        q_wf(x),
    ensures
        time_of(s, q_zero()) == q_zero(),
        beat_of(s, q_zero()) == q_zero(),
        q_eq(dist_of(s, x, x), q_zero()),
{
    lemma_dist_from_empty(s, 0, q_min(x, x), q_max(x, x));
}

/// The scroll distance is never negative.
pub proof fn lemma_dist_from_nonneg(s: Seq<Interval>, i: int, lo: Qv, hi: Qv)
    requires
        tl_wf(s),
        q_wf(lo),
        q_wf(hi),
    ensures
        q_le(q_zero(), dist_from(s, i, lo, hi)),
    decreases s.len() - i,
{
    if 0 <= i < s.len() {
        assert(seg_ok(s, i));
        let it = s[i];
        let lo0 = q_max(lo, q_zero());
        lemma_q_ops_wf(lo, q_zero());
        match it.end {
            None => {
                if q_lt(lo0, hi) {
                    lemma_q_le_sub_mono(hi, hi, lo0);
                    lemma_q_ops_wf(hi, lo0);
                    lemma_q_mul_sign(q_sub(hi, lo0), it.value@);
                }
            },
            Some(e) => {
                let full = seg_time_val(it.start@, e@, it.value@);
                lemma_seg_time_val_wf(it.start@, e@, it.value@);
                let xe = q_min(hi, full);
                lemma_q_ops_wf(hi, full);
                let c = if q_lt(lo0, xe) {
                    q_mul(q_sub(xe, lo0), it.value@)
                } else {
                    q_zero()
                };
                if q_lt(lo0, xe) {
                    lemma_q_le_sub_mono(xe, xe, lo0);
                    lemma_q_ops_wf(xe, lo0);
                    lemma_q_mul_sign(q_sub(xe, lo0), it.value@);
                }
                lemma_q_ops_wf(xe, lo0);
                lemma_q_ops_wf(q_sub(xe, lo0), it.value@);
                lemma_q_ops_wf(lo, full);
                lemma_q_ops_wf(hi, full);
                lemma_dist_from_nonneg(s, i + 1, q_sub(lo, full), q_sub(hi, full));
                let rest = dist_from(s, i + 1, q_sub(lo, full), q_sub(hi, full));
                lemma_dist_from_wf(s, i + 1, q_sub(lo, full), q_sub(hi, full));
                lemma_q_le_add_mono(q_zero(), c, q_zero(), rest);
                lemma_q_ops_wf(q_zero(), q_zero());
                lemma_q_ops_wf(c, rest);
                lemma_q_add_sub(q_zero(), q_zero());
                lemma_q_le_compat(
                    q_add(q_zero(), q_zero()),
                    q_add(c, rest),
                    q_zero(),
                    q_add(c, rest),
                );
            },
        }
    }
}

/// The smaller and larger of two values move with their arguments.
proof fn lemma_q_minmax_mono(a: Qv, b: Qv, t: Qv)
    requires
        q_wf(a),
        q_wf(b),
        q_wf(t),
        q_le(a, b),
    ensures
        q_le(q_min(a, t), q_min(b, t)),
        q_le(q_max(a, t), q_max(b, t)),
{
    if q_le(b, t) && !q_le(a, t) {
        lemma_q_le_trans(a, b, t);
    }
}

/// A value at or below both operands is at or below their smaller one.
proof fn lemma_q_min_glb(x: Qv, p: Qv, q: Qv)
    requires
        q_wf(x),
        q_wf(p),
        q_wf(q),
        q_le(x, p),
        q_le(x, q),
    ensures
        q_le(x, q_min(p, q)),
{
}

/// Splitting one interval's clipped overlap contribution at a midpoint
/// `b` of the window from `a` to `c`: the contribution over the whole
/// window is the sum of the contributions over the two parts.
proof fn lemma_contrib_split(a: Qv, b: Qv, c: Qv, bound: Option<Qv>, v: Qv)
    requires
        q_wf(a),
        q_wf(b),
        q_wf(c),
        q_wf(v),
        bound matches Some(f) ==> q_wf(f),
        q_lt(q_zero(), v),
        q_le(a, b),
        q_le(b, c),
    ensures
        ({
            let aa = q_max(a, q_zero());
            let mm = q_max(b, q_zero());
            let hb = match bound {
                None => b,
                Some(f) => q_min(b, f),
            };
            let hc = match bound {
                None => c,
                Some(f) => q_min(c, f),
            };
            let cac = if q_lt(aa, hc) {
                q_mul(q_sub(hc, aa), v)
            } else {
                q_zero()
            };
            let cab = if q_lt(aa, hb) {
                q_mul(q_sub(hb, aa), v)
            } else {
                q_zero()
            };
            let cbc = if q_lt(mm, hc) {
                q_mul(q_sub(hc, mm), v)
            } else {
                q_zero()
            };
            q_wf(cac) && q_wf(cab) && q_wf(cbc) && q_eq(cac, q_add(cab, cbc))
        }),
{
    let aa = q_max(a, q_zero());
    let mm = q_max(b, q_zero());
    let hb = match bound {
        None => b,
        Some(f) => q_min(b, f),
    };
    let hc = match bound {
        None => c,
        Some(f) => q_min(c, f),
    };
    lemma_q_ops_wf(a, q_zero());
    lemma_q_ops_wf(b, q_zero());
    lemma_q_minmax_basic(a, q_zero());
    lemma_q_minmax_basic(b, q_zero());
    lemma_q_minmax_mono(a, b, q_zero());
    match bound {
        None => {},
        Some(f) => {
            lemma_q_ops_wf(b, f);
            lemma_q_ops_wf(c, f);
            lemma_q_minmax_basic(b, f);
            lemma_q_minmax_basic(c, f);
            lemma_q_minmax_mono(b, c, f);
        },
    }
    assert(q_wf(hb) && q_wf(hc) && q_wf(aa) && q_wf(mm));
    assert(q_le(hb, hc));
    assert(q_le(hb, b));
    assert(q_le(q_zero(), aa));
    assert(q_le(aa, mm));
    lemma_q_ops_wf(hc, aa);
    lemma_q_ops_wf(hb, aa);
    lemma_q_ops_wf(hc, mm);
    lemma_q_ops_wf(q_sub(hc, aa), v);
    lemma_q_ops_wf(q_sub(hb, aa), v);
    lemma_q_ops_wf(q_sub(hc, mm), v);
    if !q_lt(aa, hc) {
        // no overlap at all: every part is empty
        lemma_q_le_trans(hb, hc, aa);
        lemma_q_le_trans(hc, aa, mm);
        lemma_q_ops_wf(q_zero(), q_zero());
    } else {
        if !q_lt(mm, hc) {
            // the upper part is empty: the window effectively ends at b
            if q_le(b, q_zero()) {
                lemma_q_le_trans(hc, mm, aa);
                assert(false);
            }
            assert(mm == b);
            assert(q_le(hc, b));
            match bound {
                None => {},
                Some(f) => {
                    lemma_q_min_glb(hc, b, f);
                },
            }
            assert(q_le(hc, hb));
            assert(q_eq(hb, hc));
            lemma_q_le_compat(aa, hc, aa, hb);
            assert(q_lt(aa, hb));
            crate::rat::lemma_q_add_compat(hc, aa, hb, aa);
            lemma_q_mul_compat(q_sub(hc, aa), v, q_sub(hb, aa), v);
            crate::rat::lemma_q_add_sub(q_mul(q_sub(hb, aa), v), q_zero());
            lemma_q_ops_wf(q_mul(q_sub(hb, aa), v), q_zero());
            lemma_q_eq_trans(
                q_mul(q_sub(hc, aa), v),
                q_mul(q_sub(hb, aa), v),
                q_add(q_mul(q_sub(hb, aa), v), q_zero()),
            );
        } else {
            if !q_lt(aa, hb) {
                // the lower part is empty: the window starts at b
                if q_le(b, q_zero()) {
                    lemma_q_le_trans(a, b, q_zero());
                    assert(aa == q_zero() && mm == q_zero());
                } else {
                    assert(mm == b);
                    match bound {
                        None => {},
                        Some(f) => {
                            if !q_le(b, f) {
                                assert(q_le(hc, f));
                                lemma_q_le_trans(hc, f, aa);
                                assert(false);
                            }
                            assert(hb == b);
                        },
                    }
                    assert(q_le(b, aa));
                    assert(q_eq(aa, mm));
                }
                lemma_q_le_compat(mm, hc, aa, hc);
                assert(q_lt(aa, hc));
                crate::rat::lemma_q_add_compat(hc, aa, hc, mm);
                lemma_q_mul_compat(q_sub(hc, aa), v, q_sub(hc, mm), v);
                crate::rat::lemma_q_add_zero_left(q_mul(q_sub(hc, mm), v));
                lemma_q_ops_wf(q_zero(), q_mul(q_sub(hc, mm), v));
                lemma_q_eq_trans(
                    q_mul(q_sub(hc, aa), v),
                    q_mul(q_sub(hc, mm), v),
                    q_add(q_zero(), q_mul(q_sub(hc, mm), v)),
                );
            } else {
                // all three overlap: split the width at b itself
                lemma_q_le_trans(q_zero(), aa, hb);
                assert(q_lt(q_zero(), b)) by {
                    lemma_q_le_trans(q_zero(), hb, b);
                }
                assert(!q_le(b, q_zero()));
                assert(mm == b);
                match bound {
                    None => {},
                    Some(f) => {
                        assert(q_le(hc, f));
                        lemma_q_le_trans(b, hc, f);
                        assert(hb == b);
                    },
                }
                crate::rat::lemma_q_mul_sub_split(hc, b, aa, v);
            }
        }
    }
}

/// The exact distance integral from interval `i` splits at any midpoint
/// of its window.
pub proof fn lemma_dist_from_split(s: Seq<Interval>, i: int, a: Qv, b: Qv, c: Qv)
    requires
        tl_wf(s),
        q_wf(a),
        q_wf(b),
        q_wf(c),
        q_le(a, b),
        q_le(b, c),
    ensures
        q_eq(dist_from(s, i, a, c), q_add(dist_from(s, i, a, b), dist_from(s, i, b, c))),
    decreases s.len() - i,
{
    if i < 0 || i >= s.len() {
        assert(q_eq(q_zero(), q_add(q_zero(), q_zero())));
    } else {
        assert(seg_ok(s, i));
        let it = s[i];
        let v = it.value@;
        match it.end {
            None => {
                lemma_contrib_split(a, b, c, None, v);
            },
            Some(e) => {
                let full = seg_time_val(it.start@, e@, it.value@);
                lemma_seg_time_val_wf(it.start@, e@, it.value@);
                lemma_contrib_split(a, b, c, Some(full), v);
                lemma_q_le_sub_mono(a, b, full);
                lemma_q_le_sub_mono(b, c, full);
                lemma_q_ops_wf(a, full);
                lemma_q_ops_wf(b, full);
                lemma_q_ops_wf(c, full);
                lemma_dist_from_split(s, i + 1, q_sub(a, full), q_sub(b, full), q_sub(c, full));
                let rac = dist_from(s, i + 1, q_sub(a, full), q_sub(c, full));
                let rab = dist_from(s, i + 1, q_sub(a, full), q_sub(b, full));
                let rbc = dist_from(s, i + 1, q_sub(b, full), q_sub(c, full));
                lemma_dist_from_wf(s, i + 1, q_sub(a, full), q_sub(c, full));
                lemma_dist_from_wf(s, i + 1, q_sub(a, full), q_sub(b, full));
                lemma_dist_from_wf(s, i + 1, q_sub(b, full), q_sub(c, full));
                let aa = q_max(a, q_zero());
                let mm = q_max(b, q_zero());
                let hb = q_min(b, full);
                let hc = q_min(c, full);
                let cac = if q_lt(aa, hc) {
                    q_mul(q_sub(hc, aa), v)
                } else {
                    q_zero()
                };
                let cab = if q_lt(aa, hb) {
                    q_mul(q_sub(hb, aa), v)
                } else {
                    q_zero()
                };
                let cbc = if q_lt(mm, hc) {
                    q_mul(q_sub(hc, mm), v)
                } else {
                    q_zero()
                };
                // dist(a,c) ~ (cab + cbc) + (rab + rbc)
                //          ~ (cab + rab) + (cbc + rbc)
                lemma_q_ops_wf(cab, cbc);
                lemma_q_ops_wf(rab, rbc);
                crate::rat::lemma_q_add_compat(cac, rac, q_add(cab, cbc), q_add(rab, rbc));
                lemma_q_ops_wf(cac, rac);
                lemma_q_ops_wf(q_add(cab, cbc), q_add(rab, rbc));
                crate::rat::lemma_q_add_exchange(cab, cbc, rab, rbc);
                lemma_q_ops_wf(cab, rab);
                lemma_q_ops_wf(cbc, rbc);
                lemma_q_ops_wf(q_add(cab, rab), q_add(cbc, rbc));
                lemma_q_eq_trans(
                    q_add(cac, rac),
                    q_add(q_add(cab, cbc), q_add(rab, rbc)),
                    q_add(q_add(cab, rab), q_add(cbc, rbc)),
                );
            },
        }
    }
}

/// Additivity of the scroll distance: for time coordinates
/// `a <= b <= c`, the distance from `a` to `c` is the sum of the
/// distances from `a` to `b` and from `b` to `c`.
pub proof fn lemma_distance_additive(s: Seq<Interval>, a: Qv, b: Qv, c: Qv)
    requires
        tl_wf(s),
        q_wf(a),
        q_wf(b),
        q_wf(c),
        q_le(a, b),
        q_le(b, c),
    ensures
        q_eq(dist_of(s, a, c), q_add(dist_of(s, a, b), dist_of(s, b, c))),
{
    lemma_q_le_trans(a, b, c);
    assert(q_min(a, c) == a && q_max(a, c) == c);
    assert(q_min(a, b) == a && q_max(a, b) == b);
    assert(q_min(b, c) == b && q_max(b, c) == c);
    lemma_dist_from_split(s, 0, a, b, c);
}

/// Non-negativity of the scroll distance between any two coordinates.
pub proof fn lemma_dist_nonneg(s: Seq<Interval>, a: Qv, b: Qv)
    requires
        tl_wf(s),
        q_wf(a),
        q_wf(b),
    ensures
        q_le(q_zero(), dist_of(s, a, b)),
{
    lemma_q_ops_wf(a, b);
    lemma_dist_from_nonneg(s, 0, q_min(a, b), q_max(a, b));
}

} // verus!
