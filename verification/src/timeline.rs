//! Piecewise-constant tempo timeline over the beat axis.
//!
//! A [`BpmCrotchetFunction`] holds an ordered, contiguous sequence of
//! [`Interval`]s, each carrying a strictly positive rate (tempo in beats
//! per minute).  Only the last interval is unbounded.  It supports the
//! forward time-of-beat integral, its inverse, and the scroll-distance
//! integral of the raw rate.

use vstd::prelude::*;

use crate::rat::Qv;
use crate::rat::Rat;
use crate::rat::lemma_norm_some;
use crate::rat::lemma_q_add_assoc;
use crate::rat::lemma_q_add_compat;
use crate::rat::lemma_q_eq_trans;
use crate::rat::lemma_q_mul_compat;
use crate::rat::lemma_q_ops_wf;
use crate::rat::norm;
use crate::rat::q_add;
use crate::rat::q_div;
use crate::rat::q_eq;
use crate::rat::q_int;
use crate::rat::q_le;
use crate::rat::q_lt;
use crate::rat::q_max;
use crate::rat::q_min;
use crate::rat::q_mul;
use crate::rat::q_sub;
use crate::rat::q_wf;
use crate::rat::q_zero;

verus! {

/// Why a chart or a timeline was rejected at load time.
#[derive(Clone, Copy, Debug, PartialEq, Eq, Structural)]
pub enum ChartError {
    /// The timeline holds no interval at all.
    EmptyTimeline,
    /// A rational field has a non-positive denominator or the smallest
    /// representable numerator.
    InvalidNumber,
    /// An interval's rate is zero or negative.
    NonPositiveRate,
    /// The first interval does not begin at beat zero.
    FirstStartNotZero,
    /// An interval other than the last one is unbounded.
    MiddleUnbounded,
    /// The last interval has a finite end.
    LastBounded,
    /// An interval's end differs from the next interval's start.
    Discontiguous,
    /// An event or interval does not move strictly forward.
    NonMonotonic,
    /// A fraction was given with a zero denominator or one too large to
    /// represent.
    InvalidFraction,
    /// A measure's beat count is zero or negative.
    NonPositiveBeats,
    /// An exact intermediate value does not fit the bounded rationals.
    Overflow,
}

/// One piece of the piecewise-constant rate function: the rate `value`
/// holds on the beat range from `start` to `end`; `end` is `None` for the
/// final, unbounded piece.
#[derive(Clone, Copy, Debug)]
pub struct Interval {
    pub start: Rat,
    pub end: Option<Rat>,
    pub value: Rat,
}

/// Ghost image of an interval: unbounded rational endpoints and rate.
pub struct IvalV {
    pub start: Qv,
    pub end: Option<Qv>,
    pub value: Qv,
}

impl View for Interval {
    type V = IvalV;

    open spec fn view(&self) -> IvalV {
        IvalV {
            start: self.start@,
            end: match self.end {
                Some(e) => Some(e@),
                None => None,
            },
            value: self.value@,
        }
    }
}

/// The per-index well-formedness of interval `i` within the sequence `s`:
/// well-formed positive rate, a zero start for the first interval, a
/// finite end equal to the next start (and strictly after the own start)
/// everywhere but at the last interval, which is unbounded.
pub open spec fn seg_ok(s: Seq<Interval>, i: int) -> bool {
    let it = s[i];
    &&& it.start.wf()
    &&& it.value.wf()
    &&& q_lt(q_zero(), it.value@)
    &&& (i == 0 ==> q_eq(it.start@, q_zero()))
    &&& (i == s.len() - 1 ==> it.end is None)
    &&& (i < s.len() - 1 ==> (it.end matches Some(e) && e.wf() && e == s[i + 1].start && q_lt(
        it.start@,
        e@,
    )))
}

/// A well-formed timeline: non-empty, and every interval in place.
pub open spec fn tl_wf(s: Seq<Interval>) -> bool {
    s.len() > 0 && (forall|i: int| 0 <= i < s.len() ==> #[trigger] seg_ok(s, i))
}

/// The validation scan, one interval at a time, in the order the
/// constructor checks them; `Ok` when every interval from `i` on is in
/// place.
pub open spec fn scan_intervals(s: Seq<Interval>, i: int) -> Result<(), ChartError>
    decreases s.len() - i,
{
    if i < 0 || i >= s.len() {
        Ok(())
    } else {
        let it = s[i];
        if !(it.start.den > 0 && it.start.num > i64::MIN && it.value.den > 0 && it.value.num
            > i64::MIN) {
            Err(ChartError::InvalidNumber)
        } else if !(it.value.num > 0) {
            Err(ChartError::NonPositiveRate)
        } else if i == 0 && !(it.start.num == 0) {
            Err(ChartError::FirstStartNotZero)
        } else if i == s.len() - 1 {
            if it.end is Some {
                Err(ChartError::LastBounded)
            } else {
                scan_intervals(s, i + 1)
            }
        } else {
            match it.end {
                None => Err(ChartError::MiddleUnbounded),
                Some(e) => if !(e.den > 0 && e.num > i64::MIN) {
                    Err(ChartError::InvalidNumber)
                } else if !(e == s[i + 1].start) {
                    Err(ChartError::Discontiguous)
                } else if !q_lt(it.start@, e@) {
                    Err(ChartError::NonMonotonic)
                } else {
                    scan_intervals(s, i + 1)
                },
            }
        }
    }
}

/// What the timeline constructor decides for a given interval sequence.
pub open spec fn validate_timeline(s: Seq<Interval>) -> Result<(), ChartError> {
    if s.len() == 0 {
        Err(ChartError::EmptyTimeline)
    } else {
        scan_intervals(s, 0)
    }
}

/// A clean scan from position `i` establishes `seg_ok` everywhere from
/// `i` on, and conversely.
proof fn lemma_scan_ok(s: Seq<Interval>, i: int)
    requires
        0 <= i <= s.len(),
    ensures
        scan_intervals(s, i) is Ok <==> (forall|j: int| i <= j < s.len() ==> #[trigger] seg_ok(
            s,
            j,
        )),
    decreases s.len() - i,
{
    if i < s.len() {
        let it = s[i];
        assert((it.value.num as int) * 1 == it.value.num as int);
        assert(0 * (it.value.den as int) == 0);
        assert((it.start.num as int) * 1 == it.start.num as int);
        assert(0 * (it.start.den as int) == 0);
        lemma_scan_ok(s, i + 1);
        if scan_intervals(s, i) is Ok {
            assert(seg_ok(s, i));
        }
        if forall|j: int| i <= j < s.len() ==> #[trigger] seg_ok(s, j) {
            assert(seg_ok(s, i));
        }
    }
}

/// The validation verdict accepts exactly the well-formed timelines.
pub proof fn lemma_validate_timeline(s: Seq<Interval>)
    ensures
        validate_timeline(s) is Ok <==> tl_wf(s),
{
    if s.len() > 0 {
        lemma_scan_ok(s, 0);
    }
}

/// The piecewise tempo function: time as an integral of `60 / rate` over
/// the beat axis, crossing the [`Interval`]s in order.
#[derive(Clone, Debug)]
pub struct BpmCrotchetFunction {
    pub intervals: Vec<Interval>,
}

impl BpmCrotchetFunction {
    /// The intervals form a well-formed timeline.
    pub open spec fn wf(self) -> bool {
        tl_wf(self.intervals@)
    }

    /// Wrap an interval sequence, rejecting every malformed timeline with
    /// the first violation the scan meets.
    pub fn new(intervals: Vec<Interval>) -> (r: Result<BpmCrotchetFunction, ChartError>)
        ensures
            r matches Ok(t) ==> t.wf() && t.intervals@ == intervals@,
            r is Ok <==> tl_wf(intervals@),
            r matches Err(e) ==> validate_timeline(intervals@) == Err::<(), ChartError>(e),
    {
        proof {
            lemma_validate_timeline(intervals@);
        }
        let n: usize = intervals.len();
        if n == 0 {
            return Err(ChartError::EmptyTimeline);
        }
        let mut i: usize = 0;
        while i < n
            invariant
                0 <= i <= n,
                n == intervals@.len(),
                n >= 1,
                scan_intervals(intervals@, 0) == scan_intervals(intervals@, i as int),
                tl_wf(intervals@) <==> scan_intervals(intervals@, 0) is Ok,
            decreases n - i,
        {
            let it = intervals[i];
            if !(it.start.den > 0 && it.start.num > i64::MIN && it.value.den > 0 && it.value.num
                > i64::MIN) {
                return Err(ChartError::InvalidNumber);
            }
            if !(it.value.num > 0) {
                return Err(ChartError::NonPositiveRate);
            }
            if i == 0 && !(it.start.num == 0) {
                return Err(ChartError::FirstStartNotZero);
            }
            if i == n - 1 {
                if it.end.is_some() {
                    return Err(ChartError::LastBounded);
                }
            } else {
                match it.end {
                    None => {
                        return Err(ChartError::MiddleUnbounded);
                    },
                    Some(e) => {
                        if !(e.den > 0 && e.num > i64::MIN) {
                            return Err(ChartError::InvalidNumber);
                        }
                        if !(e == intervals[i + 1].start) {
                            return Err(ChartError::Discontiguous);
                        }
                        if !it.start.lt(&e) {
                            return Err(ChartError::NonMonotonic);
                        }
                    },
                }
            }
            i = i + 1;
        }
        proof {
            lemma_scan_ok(intervals@, 0);
        }
        Ok(BpmCrotchetFunction { intervals })
    }
}

/// The bounded rational with value zero.
pub open spec fn rat_zero() -> Rat {
    Rat { num: 0, den: 1 }
}

/// Time spent crossing one segment: `60 * (bound - start) / value`, as an
/// exact value.
pub open spec fn seg_time_val(start: Qv, bound: Qv, value: Qv) -> Qv {
    q_div(q_mul(q_int(60), q_sub(bound, start)), value)
}

/// Elapsed time accumulated from interval `i` on, for a query beat `x`
/// assumed past the start of interval `i`: the partial crossing of the
/// interval holding `x`, or a full crossing plus the rest.
pub open spec fn time_from(s: Seq<Interval>, i: int, x: Qv) -> Qv
    decreases s.len() - i,
{
    if i < 0 || i >= s.len() {
        q_zero()
    } else {
        let it = s[i];
        match it.end {
            None => seg_time_val(it.start@, x, it.value@),
            Some(e) => if q_le(x, e@) {
                seg_time_val(it.start@, x, it.value@)
            } else {
                q_add(seg_time_val(it.start@, e@, it.value@), time_from(s, i + 1, x))
            },
        }
    }
}

/// The forward tempo integral: elapsed time at beat `x`, zero for every
/// `x <= 0`.
pub open spec fn time_of(s: Seq<Interval>, x: Qv) -> Qv {
    if q_le(x, q_zero()) {
        q_zero()
    } else {
        time_from(s, 0, x)
    }
}

/// The bounded computation of one segment crossing, in the exact order
/// the code performs it.
pub open spec fn seg_time_checked(start: Rat, bound: Rat, value: Rat) -> Option<Rat> {
    match norm(q_sub(bound@, start@)) {
        None => None,
        Some(len) => match norm(q_mul(q_int(60), len@)) {
            None => None,
            Some(t) => norm(q_div(t@, value@)),
        },
    }
}

/// The bounded left-to-right walk of the forward integral with the
/// running total `acc`; `None` exactly when some intermediate value does
/// not fit the bounded rationals.
pub open spec fn time_steps(s: Seq<Interval>, i: int, acc: Rat, x: Rat) -> Option<Rat>
    decreases s.len() - i,
{
    if i < 0 || i >= s.len() {
        Some(acc)
    } else {
        let it = s[i];
        match it.end {
            None => match seg_time_checked(it.start, x, it.value) {
                None => None,
                Some(t) => norm(q_add(acc@, t@)),
            },
            Some(e) => if q_le(x@, e@) {
                match seg_time_checked(it.start, x, it.value) {
                    None => None,
                    Some(t) => norm(q_add(acc@, t@)),
                }
            } else {
                match seg_time_checked(it.start, e, it.value) {
                    None => None,
                    Some(t) => match norm(q_add(acc@, t@)) {
                        None => None,
                        Some(acc2) => time_steps(s, i + 1, acc2, x),
                    },
                }
            },
        }
    }
}

/// What the bounded forward evaluation returns.
pub open spec fn time_at_spec(s: Seq<Interval>, x: Rat) -> Option<Rat> {
    if q_le(x@, q_zero()) {
        Some(rat_zero())
    } else {
        time_steps(s, 0, rat_zero(), x)
    }
}

/// The exact segment-crossing value has a positive denominator.
pub proof fn lemma_seg_time_val_wf(start: Qv, bound: Qv, value: Qv)
    requires
        q_wf(start),
        q_wf(bound),
        q_wf(value),
        q_lt(q_zero(), value),
    ensures
        q_wf(seg_time_val(start, bound, value)),
        q_wf(q_sub(bound, start)),
        q_wf(q_mul(q_int(60), q_sub(bound, start))),
{
    lemma_q_ops_wf(bound, start);
    lemma_q_ops_wf(q_int(60), q_sub(bound, start));
    lemma_q_ops_wf(q_mul(q_int(60), q_sub(bound, start)), value);
}

/// The exact forward integral has a positive denominator.
pub proof fn lemma_time_from_wf(s: Seq<Interval>, i: int, x: Qv)
    requires
        tl_wf(s),
        q_wf(x),
    ensures
        q_wf(time_from(s, i, x)),
    decreases s.len() - i,
{
    if 0 <= i < s.len() {
        assert(seg_ok(s, i));
        let it = s[i];
        match it.end {
            None => {
                lemma_seg_time_val_wf(it.start@, x, it.value@);
            },
            Some(e) => {
                if q_le(x, e@) {
                    lemma_seg_time_val_wf(it.start@, x, it.value@);
                } else {
                    lemma_seg_time_val_wf(it.start@, e@, it.value@);
                    lemma_time_from_wf(s, i + 1, x);
                    lemma_q_ops_wf(seg_time_val(it.start@, e@, it.value@), time_from(s, i + 1, x));
                }
            },
        }
    }
}

/// A fitting bounded segment crossing equals the exact one.
pub proof fn lemma_seg_time_checked(start: Rat, bound: Rat, value: Rat)
    requires
        start.wf(),
        bound.wf(),
        value.wf(),
        q_lt(q_zero(), value@),
    ensures
        seg_time_checked(start, bound, value) matches Some(t) ==> t.wf() && q_eq(
            t@,
            seg_time_val(start@, bound@, value@),
        ),
{
    lemma_seg_time_val_wf(start@, bound@, value@);
    lemma_q_ops_wf(bound@, start@);
    lemma_norm_some(q_sub(bound@, start@));
    match norm(q_sub(bound@, start@)) {
        None => {},
        Some(len) => {
            lemma_q_ops_wf(q_int(60), len@);
            lemma_norm_some(q_mul(q_int(60), len@));
            match norm(q_mul(q_int(60), len@)) {
                None => {},
                Some(t) => {
                    lemma_q_ops_wf(t@, value@);
                    lemma_norm_some(q_div(t@, value@));
                    match norm(q_div(t@, value@)) {
                        None => {},
                        Some(r) => {
                            // t ~ 60 * len ~ 60 * (bound - start), then
                            // divide by value.
                            lemma_q_mul_compat(q_int(60), len@, q_int(60), q_sub(bound@, start@));
                            lemma_q_ops_wf(q_int(60), q_sub(bound@, start@));
                            lemma_q_eq_trans(
                                t@,
                                q_mul(q_int(60), len@),
                                q_mul(q_int(60), q_sub(bound@, start@)),
                            );
                            lemma_q_mul_compat(
                                t@,
                                value@,
                                q_mul(q_int(60), q_sub(bound@, start@)),
                                value@,
                            );
                            lemma_q_ops_wf(q_mul(q_int(60), q_sub(bound@, start@)), value@);
                            lemma_q_ops_wf(t@, value@);
                            lemma_q_eq_trans(
                                r@,
                                q_div(t@, value@),
                                seg_time_val(start@, bound@, value@),
                            );
                        },
                    }
                },
            }
        },
    }
}

/// A fitting bounded walk from interval `i` equals `acc` plus the exact
/// integral from interval `i`.
pub proof fn lemma_time_steps_sound(s: Seq<Interval>, i: int, acc: Rat, x: Rat)
    requires
        tl_wf(s),
        0 <= i < s.len(),
        acc.wf(),
        x.wf(),
    ensures
        time_steps(s, i, acc, x) matches Some(t) ==> t.wf() && q_eq(
            t@,
            q_add(acc@, time_from(s, i, x@)),
        ),
    decreases s.len() - i,
{
    assert(seg_ok(s, i));
    let it = s[i];
    lemma_time_from_wf(s, i, x@);
    let bound_a: Option<Rat> = match it.end {
        None => Some(x),
        Some(e) => if q_le(x@, e@) {
            Some(x)
        } else {
            None
        },
    };
    match bound_a {
        Some(bx) => {
            // The walk ends in this interval: one partial crossing.
            lemma_seg_time_checked(it.start, bx, it.value);
            match seg_time_checked(it.start, bx, it.value) {
                None => {},
                Some(t) => {
                    lemma_seg_time_val_wf(it.start@, x@, it.value@);
                    lemma_q_ops_wf(acc@, t@);
                    lemma_norm_some(q_add(acc@, t@));
                    match norm(q_add(acc@, t@)) {
                        None => {},
                        Some(r) => {
                            lemma_q_add_compat(
                                acc@,
                                t@,
                                acc@,
                                seg_time_val(it.start@, x@, it.value@),
                            );
                            lemma_q_ops_wf(acc@, seg_time_val(it.start@, x@, it.value@));
                            lemma_q_eq_trans(
                                r@,
                                q_add(acc@, t@),
                                q_add(acc@, seg_time_val(it.start@, x@, it.value@)),
                            );
                        },
                    }
                },
            }
        },
        None => {
            // A full crossing of a bounded interval, then the rest.
            let e = it.end->Some_0;
            lemma_seg_time_checked(it.start, e, it.value);
            match seg_time_checked(it.start, e, it.value) {
                None => {},
                Some(t) => {
                    let full = seg_time_val(it.start@, e@, it.value@);
                    let rest = time_from(s, i + 1, x@);
                    lemma_seg_time_val_wf(it.start@, e@, it.value@);
                    lemma_q_ops_wf(acc@, t@);
                    lemma_norm_some(q_add(acc@, t@));
                    match norm(q_add(acc@, t@)) {
                        None => {},
                        Some(acc2) => {
                            lemma_time_steps_sound(s, i + 1, acc2, x);
                            match time_steps(s, i + 1, acc2, x) {
                                None => {},
                                Some(r) => {
                                    lemma_time_from_wf(s, i + 1, x@);
                                    // r ~ acc2 + rest ~ (acc + full) + rest
                                    //   ~ acc + (full + rest).
                                    lemma_q_add_compat(acc@, t@, acc@, full);
                                    lemma_q_ops_wf(acc@, full);
                                    lemma_q_eq_trans(acc2@, q_add(acc@, t@), q_add(acc@, full));
                                    lemma_q_ops_wf(acc2@, rest);
                                    lemma_q_ops_wf(q_add(acc@, full), rest);
                                    lemma_q_add_compat(acc2@, rest, q_add(acc@, full), rest);
                                    lemma_q_eq_trans(
                                        r@,
                                        q_add(acc2@, rest),
                                        q_add(q_add(acc@, full), rest),
                                    );
                                    lemma_q_add_assoc(acc@, full, rest);
                                    lemma_q_ops_wf(full, rest);
                                    lemma_q_ops_wf(acc@, q_add(full, rest));
                                    lemma_q_eq_trans(
                                        r@,
                                        q_add(q_add(acc@, full), rest),
                                        q_add(acc@, q_add(full, rest)),
                                    );
                                },
                            }
                        },
                    }
                },
            }
        },
    }
}

/// A fitting forward evaluation equals the exact forward integral.
pub proof fn lemma_time_at_spec_sound(s: Seq<Interval>, x: Rat)
    requires
        tl_wf(s),
        x.wf(),
    ensures
        time_at_spec(s, x) matches Some(t) ==> t.wf() && q_eq(t@, time_of(s, x@)),
{
    if q_le(x@, q_zero()) {
    } else {
        lemma_time_steps_sound(s, 0, rat_zero(), x);
        match time_steps(s, 0, rat_zero(), x) {
            None => {},
            Some(t) => {
                lemma_time_from_wf(s, 0, x@);
                crate::rat::lemma_q_add_sub(time_from(s, 0, x@), rat_zero()@);
                lemma_q_ops_wf(rat_zero()@, time_from(s, 0, x@));
                lemma_q_ops_wf(time_from(s, 0, x@), rat_zero()@);
                // acc starts at zero: 0 + v ~ v + 0 ~ v.
                crate::rat::lemma_q_add_sub(rat_zero()@, time_from(s, 0, x@));
                lemma_q_eq_trans(
                    q_add(rat_zero()@, time_from(s, 0, x@)),
                    q_add(time_from(s, 0, x@), rat_zero()@),
                    time_from(s, 0, x@),
                );
                lemma_q_eq_trans(
                    t@,
                    q_add(rat_zero()@, time_from(s, 0, x@)),
                    time_from(s, 0, x@),
                );
            },
        }
    }
}

/// The beat reached from the start of a segment after spending time `y`
/// in it: `start + y * value / 60`, as an exact value.
pub open spec fn seg_beat_val(start: Qv, y: Qv, value: Qv) -> Qv {
    q_add(start, q_div(q_mul(y, value), q_int(60)))
}

/// The beat reached from interval `i` on after `y` more time: solved
/// within the interval whose full crossing would meet or exceed `y`.
pub open spec fn beat_from(s: Seq<Interval>, i: int, y: Qv) -> Qv
    decreases s.len() - i,
{
    if i < 0 || i >= s.len() {
        q_zero()
    } else {
        let it = s[i];
        match it.end {
            None => seg_beat_val(it.start@, y, it.value@),
            Some(e) => {
                let full = seg_time_val(it.start@, e@, it.value@);
                if q_le(y, full) {
                    seg_beat_val(it.start@, y, it.value@)
                } else {
                    beat_from(s, i + 1, q_sub(y, full))
                }
            },
        }
    }
}

/// The inverse tempo integral: the beat reached at elapsed time `y`,
/// zero for every `y <= 0`.
pub open spec fn beat_of(s: Seq<Interval>, y: Qv) -> Qv {
    if q_le(y, q_zero()) {
        q_zero()
    } else {
        beat_from(s, 0, y)
    }
}

/// The bounded computation of a beat within one segment, in the exact
/// order the code performs it.
pub open spec fn seg_beat_checked(start: Rat, y: Rat, value: Rat) -> Option<Rat> {
    match norm(q_mul(y@, value@)) {
        None => None,
        Some(p) => match norm(q_div(p@, q_int(60))) {
            None => None,
            Some(d) => norm(q_add(start@, d@)),
        },
    }
}

/// The bounded walk of the inverse integral with the remaining time `y`;
/// `None` exactly when some intermediate value does not fit.
pub open spec fn beat_steps(s: Seq<Interval>, i: int, y: Rat) -> Option<Rat>
    decreases s.len() - i,
{
    if i < 0 || i >= s.len() {
        Some(rat_zero())
    } else {
        let it = s[i];
        match it.end {
            None => seg_beat_checked(it.start, y, it.value),
            Some(e) => match seg_time_checked(it.start, e, it.value) {
                None => None,
                Some(full) => if q_le(y@, full@) {
                    seg_beat_checked(it.start, y, it.value)
                } else {
                    match norm(q_sub(y@, full@)) {
                        None => None,
                        Some(y2) => beat_steps(s, i + 1, y2),
                    }
                },
            },
        }
    }
}

/// What the bounded inverse evaluation returns.
pub open spec fn beat_at_spec(s: Seq<Interval>, y: Rat) -> Option<Rat> {
    if q_le(y@, q_zero()) {
        Some(rat_zero())
    } else {
        beat_steps(s, 0, y)
    }
}

/// The exact inverse integral has a positive denominator.
pub proof fn lemma_beat_from_wf(s: Seq<Interval>, i: int, y: Qv)
    requires
        tl_wf(s),
        q_wf(y),
    ensures
        q_wf(beat_from(s, i, y)),
    decreases s.len() - i,
{
    if 0 <= i < s.len() {
        assert(seg_ok(s, i));
        let it = s[i];
        lemma_q_ops_wf(y, it.value@);
        lemma_q_ops_wf(q_mul(y, it.value@), q_int(60));
        lemma_q_ops_wf(it.start@, q_div(q_mul(y, it.value@), q_int(60)));
        assert(q_lt(q_zero(), q_int(60)));
        match it.end {
            None => {},
            Some(e) => {
                let full = seg_time_val(it.start@, e@, it.value@);
                lemma_seg_time_val_wf(it.start@, e@, it.value@);
                if !q_le(y, full) {
                    lemma_q_ops_wf(y, full);
                    lemma_beat_from_wf(s, i + 1, q_sub(y, full));
                }
            },
        }
    }
}

/// The exact inverse integral respects value equality of the remaining
/// time.
pub proof fn lemma_beat_from_congr(s: Seq<Interval>, i: int, y1: Qv, y2: Qv)
    requires
        tl_wf(s),
        q_wf(y1),
        q_wf(y2),
        q_eq(y1, y2),
    ensures
        q_eq(beat_from(s, i, y1), beat_from(s, i, y2)),
    decreases s.len() - i,
{
    if i < 0 || i >= s.len() {
    } else {
        assert(seg_ok(s, i));
        let it = s[i];
        let sixty = q_int(60);
        assert(q_lt(q_zero(), sixty));
        // The in-segment solutions for equal times are equal.
        lemma_q_mul_compat(y1, it.value@, y2, it.value@);
        lemma_q_ops_wf(y1, it.value@);
        lemma_q_ops_wf(y2, it.value@);
        lemma_q_mul_compat(q_mul(y1, it.value@), sixty, q_mul(y2, it.value@), sixty);
        lemma_q_ops_wf(q_mul(y1, it.value@), sixty);
        lemma_q_ops_wf(q_mul(y2, it.value@), sixty);
        lemma_q_add_compat(
            it.start@,
            q_div(q_mul(y1, it.value@), sixty),
            it.start@,
            q_div(q_mul(y2, it.value@), sixty),
        );
        match it.end {
            None => {},
            Some(e) => {
                let full = seg_time_val(it.start@, e@, it.value@);
                lemma_seg_time_val_wf(it.start@, e@, it.value@);
                crate::rat::lemma_q_le_compat(y1, full, y2, full);
                if !q_le(y1, full) {
                    lemma_q_add_compat(y1, full, y2, full);
                    lemma_q_ops_wf(y1, full);
                    lemma_q_ops_wf(y2, full);
                    lemma_beat_from_congr(s, i + 1, q_sub(y1, full), q_sub(y2, full));
                }
            },
        }
    }
}

/// A fitting bounded in-segment solution equals the exact one.
pub proof fn lemma_seg_beat_checked(start: Rat, y: Rat, value: Rat)
    requires
        start.wf(),
        y.wf(),
        value.wf(),
    ensures
        seg_beat_checked(start, y, value) matches Some(b) ==> b.wf() && q_eq(
            b@,
            seg_beat_val(start@, y@, value@),
        ),
{
    let sixty = q_int(60);
    assert(q_lt(q_zero(), sixty));
    lemma_q_ops_wf(y@, value@);
    lemma_norm_some(q_mul(y@, value@));
    match norm(q_mul(y@, value@)) {
        None => {},
        Some(p) => {
            lemma_q_ops_wf(p@, sixty);
            lemma_norm_some(q_div(p@, sixty));
            match norm(q_div(p@, sixty)) {
                None => {},
                Some(d) => {
                    lemma_q_ops_wf(start@, d@);
                    lemma_norm_some(q_add(start@, d@));
                    match norm(q_add(start@, d@)) {
                        None => {},
                        Some(b) => {
                            lemma_q_mul_compat(p@, sixty, q_mul(y@, value@), sixty);
                            lemma_q_ops_wf(q_mul(y@, value@), sixty);
                            lemma_q_eq_trans(
                                d@,
                                q_div(p@, sixty),
                                q_div(q_mul(y@, value@), sixty),
                            );
                            lemma_q_add_compat(
                                start@,
                                d@,
                                start@,
                                q_div(q_mul(y@, value@), sixty),
                            );
                            lemma_q_ops_wf(start@, q_div(q_mul(y@, value@), sixty));
                            lemma_q_eq_trans(
                                b@,
                                q_add(start@, d@),
                                seg_beat_val(start@, y@, value@),
                            );
                        },
                    }
                },
            }
        },
    }
}

/// A fitting bounded inverse walk from interval `i` equals the exact
/// inverse integral from interval `i`.
pub proof fn lemma_beat_steps_sound(s: Seq<Interval>, i: int, y: Rat)
    requires
        tl_wf(s),
        0 <= i < s.len(),
        y.wf(),
    ensures
        beat_steps(s, i, y) matches Some(b) ==> b.wf() && q_eq(b@, beat_from(s, i, y@)),
    decreases s.len() - i,
{
    assert(seg_ok(s, i));
    let it = s[i];
    match it.end {
        None => {
            lemma_seg_beat_checked(it.start, y, it.value);
        },
        Some(e) => {
            lemma_seg_time_checked(it.start, e, it.value);
            match seg_time_checked(it.start, e, it.value) {
                None => {},
                Some(full) => {
                    let full_v = seg_time_val(it.start@, e@, it.value@);
                    lemma_seg_time_val_wf(it.start@, e@, it.value@);
                    crate::rat::lemma_q_le_compat(y@, full@, y@, full_v);
                    if q_le(y@, full@) {
                        lemma_seg_beat_checked(it.start, y, it.value);
                    } else {
                        lemma_q_ops_wf(y@, full@);
                        lemma_norm_some(q_sub(y@, full@));
                        match norm(q_sub(y@, full@)) {
                            None => {},
                            Some(y2) => {
                                lemma_beat_steps_sound(s, i + 1, y2);
                                match beat_steps(s, i + 1, y2) {
                                    None => {},
                                    Some(b) => {
                                        // y2 ~ y - full_c ~ y - full_v,
                                        // so the tails agree.
                                        lemma_q_add_compat(y@, full@, y@, full_v);
                                        lemma_q_ops_wf(y@, full_v);
                                        lemma_q_eq_trans(
                                            y2@,
                                            q_sub(y@, full@),
                                            q_sub(y@, full_v),
                                        );
                                        lemma_beat_from_congr(s, i + 1, y2@, q_sub(y@, full_v));
                                        lemma_beat_from_wf(s, i + 1, y2@);
                                        lemma_beat_from_wf(s, i + 1, q_sub(y@, full_v));
                                        lemma_q_eq_trans(
                                            b@,
                                            beat_from(s, i + 1, y2@),
                                            beat_from(s, i + 1, q_sub(y@, full_v)),
                                        );
                                    },
                                }
                            },
                        }
                    }
                },
            }
        },
    }
}

/// A fitting bounded inverse evaluation equals the exact inverse
/// integral.
pub proof fn lemma_beat_at_spec_sound(s: Seq<Interval>, y: Rat)
    requires
        tl_wf(s),
        y.wf(),
    ensures
        beat_at_spec(s, y) matches Some(b) ==> b.wf() && q_eq(b@, beat_of(s, y@)),
{
    if !q_le(y@, q_zero()) {
        lemma_beat_steps_sound(s, 0, y);
    }
}

/// The smaller of two values is below both; both are below the larger.
pub proof fn lemma_q_minmax_basic(a: Qv, b: Qv)
    requires
        q_wf(a),
        q_wf(b),
    ensures
        q_le(q_min(a, b), a),
        q_le(q_min(a, b), b),
        q_le(a, q_max(a, b)),
        q_le(b, q_max(a, b)),
{
}

/// Choosing the smaller and the larger of pairwise equal values gives
/// equal results.
pub proof fn lemma_q_minmax_compat(a: Qv, b: Qv, a2: Qv, b2: Qv)
    requires
        q_wf(a),
        q_wf(b),
        q_wf(a2),
        q_wf(b2),
        q_eq(a, a2),
        q_eq(b, b2),
    ensures
        q_eq(q_min(a, b), q_min(a2, b2)),
        q_eq(q_max(a, b), q_max(a2, b2)),
{
    crate::rat::lemma_q_le_compat(a, b, a2, b2);
}

/// The scroll-distance integrand over one interval and the rest: the
/// rate times the width of the overlap of the queried time window with
/// the interval's own time span, then the rest of the window shifted by
/// the interval's full crossing time.
pub open spec fn dist_from(s: Seq<Interval>, i: int, lo: Qv, hi: Qv) -> Qv
    decreases s.len() - i,
{
    if i < 0 || i >= s.len() {
        q_zero()
    } else {
        let it = s[i];
        let lo0 = q_max(lo, q_zero());
        match it.end {
            None => if q_lt(lo0, hi) {
                q_mul(q_sub(hi, lo0), it.value@)
            } else {
                q_zero()
            },
            Some(e) => {
                let full = seg_time_val(it.start@, e@, it.value@);
                let xe = q_min(hi, full);
                let c = if q_lt(lo0, xe) {
                    q_mul(q_sub(xe, lo0), it.value@)
                } else {
                    q_zero()
                };
                q_add(c, dist_from(s, i + 1, q_sub(lo, full), q_sub(hi, full)))
            },
        }
    }
}

/// The scroll distance between two time coordinates: the integral of
/// the raw rate over the window between them, zero when they agree.
pub open spec fn dist_of(s: Seq<Interval>, a: Qv, b: Qv) -> Qv {
    dist_from(s, 0, q_min(a, b), q_max(a, b))
}

/// The bounded walk of the distance integral with the running total
/// `acc`, stopping once the window is exhausted; `None` exactly when
/// some intermediate value does not fit.
pub open spec fn dist_steps(s: Seq<Interval>, i: int, lo: Rat, hi: Rat, acc: Rat) -> Option<Rat>
    decreases s.len() - i,
{
    if i < 0 || i >= s.len() {
        Some(acc)
    } else {
        let it = s[i];
        let lo0 = crate::rat::rat_max(lo, rat_zero());
        match it.end {
            None => if q_lt(lo0@, hi@) {
                match norm(q_sub(hi@, lo0@)) {
                    None => None,
                    Some(w) => match norm(q_mul(w@, it.value@)) {
                        None => None,
                        Some(c) => norm(q_add(acc@, c@)),
                    },
                }
            } else {
                Some(acc)
            },
            Some(e) => match seg_time_checked(it.start, e, it.value) {
                None => None,
                Some(full) => {
                    let xe = crate::rat::rat_min(hi, full);
                    let step = if q_lt(lo0@, xe@) {
                        match norm(q_sub(xe@, lo0@)) {
                            None => None,
                            Some(w) => match norm(q_mul(w@, it.value@)) {
                                None => None,
                                Some(c) => norm(q_add(acc@, c@)),
                            },
                        }
                    } else {
                        Some(acc)
                    };
                    match step {
                        None => None,
                        Some(acc2) => if q_le(hi@, full@) {
                            Some(acc2)
                        } else {
                            match norm(q_sub(lo@, full@)) {
                                None => None,
                                Some(lo2) => match norm(q_sub(hi@, full@)) {
                                    None => None,
                                    Some(hi2) => dist_steps(s, i + 1, lo2, hi2, acc2),
                                },
                            }
                        },
                    }
                },
            },
        }
    }
}

/// What the bounded distance evaluation returns.
pub open spec fn dist_at_spec(s: Seq<Interval>, x1: Rat, x2: Rat) -> Option<Rat> {
    if q_eq(x1@, x2@) {
        Some(rat_zero())
    } else {
        dist_steps(s, 0, crate::rat::rat_min(x1, x2), crate::rat::rat_max(x1, x2), rat_zero())
    }
}

/// The exact distance integral has a positive denominator.
pub proof fn lemma_dist_from_wf(s: Seq<Interval>, i: int, lo: Qv, hi: Qv)
    requires
        tl_wf(s),
        q_wf(lo),
        q_wf(hi),
    ensures
        q_wf(dist_from(s, i, lo, hi)),
    decreases s.len() - i,
{
    if 0 <= i < s.len() {
        assert(seg_ok(s, i));
        let it = s[i];
        let lo0 = q_max(lo, q_zero());
        lemma_q_ops_wf(lo, q_zero());
        lemma_q_ops_wf(hi, lo0);
        lemma_q_ops_wf(q_sub(hi, lo0), it.value@);
        match it.end {
            None => {},
            Some(e) => {
                let full = seg_time_val(it.start@, e@, it.value@);
                lemma_seg_time_val_wf(it.start@, e@, it.value@);
                let xe = q_min(hi, full);
                lemma_q_ops_wf(hi, full);
                lemma_q_ops_wf(xe, lo0);
                lemma_q_ops_wf(q_sub(xe, lo0), it.value@);
                lemma_q_ops_wf(lo, full);
                lemma_q_ops_wf(hi, full);
                lemma_dist_from_wf(s, i + 1, q_sub(lo, full), q_sub(hi, full));
                let c = if q_lt(lo0, xe) {
                    q_mul(q_sub(xe, lo0), it.value@)
                } else {
                    q_zero()
                };
                lemma_q_ops_wf(c, dist_from(s, i + 1, q_sub(lo, full), q_sub(hi, full)));
            },
        }
    }
}

/// An exhausted window contributes nothing: when the upper bound is at
/// or below the lower one, or at or below zero, the integral is zero.
pub proof fn lemma_dist_from_empty(s: Seq<Interval>, i: int, lo: Qv, hi: Qv)
    requires
        tl_wf(s),
        q_wf(lo),
        q_wf(hi),
        q_le(hi, lo) || q_le(hi, q_zero()),
    ensures
        q_eq(dist_from(s, i, lo, hi), q_zero()),
    decreases s.len() - i,
{
    if 0 <= i < s.len() {
        assert(seg_ok(s, i));
        let it = s[i];
        let lo0 = q_max(lo, q_zero());
        lemma_q_ops_wf(lo, q_zero());
        lemma_q_minmax_basic(lo, q_zero());
        match it.end {
            None => {
                if q_le(hi, lo) {
                    crate::rat::lemma_q_le_trans(hi, lo, lo0);
                } else {
                    crate::rat::lemma_q_le_trans(hi, q_zero(), lo0);
                }
            },
            Some(e) => {
                let full = seg_time_val(it.start@, e@, it.value@);
                lemma_seg_time_val_wf(it.start@, e@, it.value@);
                let xe = q_min(hi, full);
                lemma_q_ops_wf(hi, full);
                lemma_q_minmax_basic(hi, full);
                if q_le(hi, lo) {
                    crate::rat::lemma_q_le_trans(xe, hi, lo);
                    crate::rat::lemma_q_le_trans(xe, lo, lo0);
                } else {
                    crate::rat::lemma_q_le_trans(xe, hi, q_zero());
                    crate::rat::lemma_q_le_trans(xe, q_zero(), lo0);
                }
                assert(!q_lt(lo0, xe));
                lemma_q_ops_wf(lo, full);
                lemma_q_ops_wf(hi, full);
                crate::rat::lemma_q_le_sub_mono(hi, lo, full);
                if q_le(hi, q_zero()) {
                    // the crossing time is positive, so hi - full stays
                    // at or below zero
                    assert(q_lt(it.start@, e@));
                    lemma_q_ops_wf(e@, it.start@);
                    crate::rat::lemma_q_le_sub_mono(it.start@, e@, it.start@);
                    crate::rat::lemma_q_mul_sign(q_sub(e@, it.start@), q_int(60));
                    assert(q_wf(q_int(60)));
                    assert(q_lt(q_zero(), q_int(60)));
                    crate::rat::lemma_q_mul_comm(q_sub(e@, it.start@), q_int(60));
                    lemma_q_ops_wf(q_sub(e@, it.start@), q_int(60));
                    lemma_q_ops_wf(q_int(60), q_sub(e@, it.start@));
                    crate::rat::lemma_q_le_compat(
                        q_zero(),
                        q_mul(q_sub(e@, it.start@), q_int(60)),
                        q_zero(),
                        q_mul(q_int(60), q_sub(e@, it.start@)),
                    );
                    crate::rat::lemma_q_mul_sign(q_mul(q_int(60), q_sub(e@, it.start@)), it.value@);
                    lemma_q_ops_wf(q_mul(q_int(60), q_sub(e@, it.start@)), it.value@);
                    // 0 <= full, hence hi - full <= hi <= 0
                    crate::rat::lemma_q_le_sub_mono(q_zero(), full, hi);
                    crate::rat::lemma_q_add_sub(hi, q_zero());
                    lemma_q_ops_wf(hi, q_zero());
                    crate::rat::lemma_q_le_compat(
                        q_sub(hi, full),
                        q_sub(hi, q_zero()),
                        q_sub(hi, full),
                        hi,
                    );
                    crate::rat::lemma_q_le_trans(q_sub(hi, full), hi, q_zero());
                    lemma_dist_from_empty(s, i + 1, q_sub(lo, full), q_sub(hi, full));
                } else {
                    lemma_dist_from_empty(s, i + 1, q_sub(lo, full), q_sub(hi, full));
                }
                let rest = dist_from(s, i + 1, q_sub(lo, full), q_sub(hi, full));
                lemma_dist_from_wf(s, i + 1, q_sub(lo, full), q_sub(hi, full));
                crate::rat::lemma_q_add_compat(q_zero(), rest, q_zero(), q_zero());
                lemma_q_ops_wf(q_zero(), rest);
                lemma_q_ops_wf(q_zero(), q_zero());
                crate::rat::lemma_q_add_sub(q_zero(), q_zero());
                lemma_q_eq_trans(q_add(q_zero(), rest), q_add(q_zero(), q_zero()), q_zero());
            },
        }
    }
}

/// One bounded overlap contribution added onto `acc` equals the exact
/// one, written for reuse in the walk's soundness proof.
proof fn lemma_dist_contrib(acc: Rat, lo0: Rat, xe: Rat, v: Rat, xev: Qv)
    requires
        acc.wf(),
        lo0.wf(),
        xe.wf(),
        v.wf(),
        q_wf(xev),
        q_eq(xe@, xev),
    ensures
        ({
            let step = match norm(q_sub(xe@, lo0@)) {
                None => None,
                Some(w) => match norm(q_mul(w@, v@)) {
                    None => None,
                    Some(c) => norm(q_add(acc@, c@)),
                },
            };
            step matches Some(a2) ==> a2.wf() && q_eq(
                a2@,
                q_add(acc@, q_mul(q_sub(xev, lo0@), v@)),
            )
        }),
{
    lemma_q_ops_wf(xe@, lo0@);
    lemma_q_ops_wf(xev, lo0@);
    lemma_norm_some(q_sub(xe@, lo0@));
    match norm(q_sub(xe@, lo0@)) {
        None => {},
        Some(w) => {
            lemma_q_ops_wf(w@, v@);
            lemma_norm_some(q_mul(w@, v@));
            match norm(q_mul(w@, v@)) {
                None => {},
                Some(c) => {
                    lemma_q_ops_wf(acc@, c@);
                    lemma_norm_some(q_add(acc@, c@));
                    match norm(q_add(acc@, c@)) {
                        None => {},
                        Some(a2) => {
                            crate::rat::lemma_q_add_compat(xe@, lo0@, xev, lo0@);
                            lemma_q_eq_trans(w@, q_sub(xe@, lo0@), q_sub(xev, lo0@));
                            lemma_q_mul_compat(w@, v@, q_sub(xev, lo0@), v@);
                            lemma_q_ops_wf(q_sub(xev, lo0@), v@);
                            lemma_q_eq_trans(c@, q_mul(w@, v@), q_mul(q_sub(xev, lo0@), v@));
                            crate::rat::lemma_q_add_compat(
                                acc@,
                                c@,
                                acc@,
                                q_mul(q_sub(xev, lo0@), v@),
                            );
                            lemma_q_ops_wf(acc@, q_mul(q_sub(xev, lo0@), v@));
                            lemma_q_eq_trans(
                                a2@,
                                q_add(acc@, c@),
                                q_add(acc@, q_mul(q_sub(xev, lo0@), v@)),
                            );
                        },
                    }
                },
            }
        },
    }
}

/// A fitting bounded distance walk from interval `i` equals `acc` plus
/// the exact distance integral from interval `i`.
pub proof fn lemma_dist_steps_sound(s: Seq<Interval>, i: int, lo: Rat, hi: Rat, acc: Rat)
    requires
        tl_wf(s),
        0 <= i < s.len(),
        lo.wf(),
        hi.wf(),
        acc.wf(),
    ensures
        dist_steps(s, i, lo, hi, acc) matches Some(d) ==> d.wf() && q_eq(
            d@,
            q_add(acc@, dist_from(s, i, lo@, hi@)),
        ),
    decreases s.len() - i,
{
    assert(seg_ok(s, i));
    let it = s[i];
    let lo0 = crate::rat::rat_max(lo, rat_zero());
    lemma_q_ops_wf(lo@, q_zero());
    lemma_dist_from_wf(s, i, lo@, hi@);
    assert(lo0@ == q_max(lo@, q_zero()));
    match it.end {
        None => {
            if q_lt(lo0@, hi@) {
                lemma_dist_contrib(acc, lo0, hi, it.value, hi@);
            } else {
                lemma_q_ops_wf(acc@, q_zero());
                crate::rat::lemma_q_add_sub(acc@, q_zero());
            }
        },
        Some(e) => {
            lemma_seg_time_checked(it.start, e, it.value);
            match seg_time_checked(it.start, e, it.value) {
                None => {},
                Some(full) => {
                    let full_v = seg_time_val(it.start@, e@, it.value@);
                    lemma_seg_time_val_wf(it.start@, e@, it.value@);
                    let xe = crate::rat::rat_min(hi, full);
                    let xe_v = q_min(hi@, full_v);
                    lemma_q_minmax_compat(hi@, full@, hi@, full_v);
                    lemma_q_ops_wf(hi@, full@);
                    lemma_q_ops_wf(hi@, full_v);
                    crate::rat::lemma_q_le_compat(lo0@, xe@, lo0@, xe_v);
                    let cv = if q_lt(lo0@, xe_v) {
                        q_mul(q_sub(xe_v, lo0@), it.value@)
                    } else {
                        q_zero()
                    };
                    lemma_q_ops_wf(xe_v, lo0@);
                    lemma_q_ops_wf(q_sub(xe_v, lo0@), it.value@);
                    let rest_v = dist_from(s, i + 1, q_sub(lo@, full_v), q_sub(hi@, full_v));
                    lemma_q_ops_wf(lo@, full_v);
                    lemma_q_ops_wf(hi@, full_v);
                    lemma_dist_from_wf(s, i + 1, q_sub(lo@, full_v), q_sub(hi@, full_v));
                    let step = if q_lt(lo0@, xe@) {
                        match norm(q_sub(xe@, lo0@)) {
                            None => None,
                            Some(w) => match norm(q_mul(w@, it.value@)) {
                                None => None,
                                Some(c) => norm(q_add(acc@, c@)),
                            },
                        }
                    } else {
                        Some(acc)
                    };
                    if q_lt(lo0@, xe@) {
                        lemma_q_eq_trans(xe@, xe@, xe_v);
                        lemma_dist_contrib(acc, lo0, xe, it.value, xe_v);
                    }
                    match step {
                        None => {},
                        Some(acc2) => {
                            // in either case acc2 ~ acc + cv
                            lemma_q_ops_wf(acc@, cv);
                            if !q_lt(lo0@, xe@) {
                                crate::rat::lemma_q_add_sub(acc@, q_zero());
                                lemma_q_ops_wf(acc@, q_zero());
                            }
                            assert(acc2.wf() && q_eq(acc2@, q_add(acc@, cv)));
                            if q_le(hi@, full@) {
                                // the window ends here: the exact tail is
                                // empty
                                crate::rat::lemma_q_le_compat(hi@, full@, hi@, full_v);
                                crate::rat::lemma_q_le_sub_mono(hi@, full_v, full_v);
                                crate::rat::lemma_q_add_sub(full_v, full_v);
                                lemma_q_ops_wf(full_v, full_v);
                                crate::rat::lemma_q_le_compat(
                                    q_sub(hi@, full_v),
                                    q_sub(full_v, full_v),
                                    q_sub(hi@, full_v),
                                    q_zero(),
                                );
                                lemma_q_ops_wf(hi@, full_v);
                                lemma_q_ops_wf(q_zero(), q_zero());
                                lemma_dist_from_empty(
                                    s,
                                    i + 1,
                                    q_sub(lo@, full_v),
                                    q_sub(hi@, full_v),
                                );
                                crate::rat::lemma_q_add_compat(cv, rest_v, cv, q_zero());
                                lemma_q_ops_wf(cv, rest_v);
                                lemma_q_ops_wf(cv, q_zero());
                                crate::rat::lemma_q_add_sub(cv, q_zero());
                                lemma_q_eq_trans(q_add(cv, rest_v), q_add(cv, q_zero()), cv);
                                crate::rat::lemma_q_add_compat(acc@, cv, acc@, q_add(cv, rest_v));
                                lemma_q_ops_wf(acc@, q_add(cv, rest_v));
                                lemma_q_eq_trans(
                                    acc2@,
                                    q_add(acc@, cv),
                                    q_add(acc@, q_add(cv, rest_v)),
                                );
                            } else {
                                lemma_q_ops_wf(lo@, full@);
                                lemma_norm_some(q_sub(lo@, full@));
                                match norm(q_sub(lo@, full@)) {
                                    None => {},
                                    Some(lo2) => {
                                        lemma_q_ops_wf(hi@, full@);
                                        lemma_norm_some(q_sub(hi@, full@));
                                        match norm(q_sub(hi@, full@)) {
                                            None => {},
                                            Some(hi2) => {
                                                lemma_dist_steps_sound(s, i + 1, lo2, hi2, acc2);
                                                match dist_steps(s, i + 1, lo2, hi2, acc2) {
                                                    None => {},
                                                    Some(d) => {
                                                        lemma_dist_sound_tail(
                                                            s, i, lo, hi, acc, acc2, lo2, hi2, d,
                                                            full, full_v, cv, rest_v,
                                                        );
                                                    },
                                                }
                                            },
                                        }
                                    },
                                }
                            }
                        },
                    }
                },
            }
        },
    }
}

/// The chaining step of the distance walk's soundness: the tail result
/// shifted by one interval combines with this interval's contribution.
proof fn lemma_dist_sound_tail(
    s: Seq<Interval>,
    i: int,
    lo: Rat,
    hi: Rat,
    acc: Rat,
    acc2: Rat,
    lo2: Rat,
    hi2: Rat,
    d: Rat,
    full: Rat,
    full_v: Qv,
    cv: Qv,
    rest_v: Qv,
)
    requires
        tl_wf(s),
        0 <= i < s.len(),
        lo.wf(),
        hi.wf(),
        acc.wf(),
        acc2.wf(),
        lo2.wf(),
        hi2.wf(),
        d.wf(),
        full.wf(),
        q_wf(full_v),
        q_wf(cv),
        q_eq(full@, full_v),
        q_eq(acc2@, q_add(acc@, cv)),
        q_eq(lo2@, q_sub(lo@, full@)),
        q_eq(hi2@, q_sub(hi@, full@)),
        rest_v == dist_from(s, i + 1, q_sub(lo@, full_v), q_sub(hi@, full_v)),
        q_eq(d@, q_add(acc2@, dist_from(s, i + 1, lo2@, hi2@))),
    ensures
        q_eq(d@, q_add(acc@, q_add(cv, rest_v))),
{
    let restc = dist_from(s, i + 1, lo2@, hi2@);
    lemma_q_ops_wf(lo@, full@);
    lemma_q_ops_wf(hi@, full@);
    lemma_q_ops_wf(lo@, full_v);
    lemma_q_ops_wf(hi@, full_v);
    lemma_dist_from_wf(s, i + 1, lo2@, hi2@);
    lemma_dist_from_wf(s, i + 1, q_sub(lo@, full_v), q_sub(hi@, full_v));
    // the shifted window bounds agree as values, so the tails agree
    crate::rat::lemma_q_add_compat(lo@, full@, lo@, full_v);
    crate::rat::lemma_q_add_compat(hi@, full@, hi@, full_v);
    lemma_q_eq_trans(lo2@, q_sub(lo@, full@), q_sub(lo@, full_v));
    lemma_q_eq_trans(hi2@, q_sub(hi@, full@), q_sub(hi@, full_v));
    lemma_dist_from_congr(s, i + 1, lo2@, hi2@, q_sub(lo@, full_v), q_sub(hi@, full_v));
    // d ~ acc2 + restc ~ (acc + cv) + rest_v ~ acc + (cv + rest_v)
    lemma_q_ops_wf(acc2@, restc);
    lemma_q_ops_wf(acc@, cv);
    lemma_q_ops_wf(q_add(acc@, cv), rest_v);
    crate::rat::lemma_q_add_compat(acc2@, restc, q_add(acc@, cv), rest_v);
    lemma_q_eq_trans(d@, q_add(acc2@, restc), q_add(q_add(acc@, cv), rest_v));
    lemma_q_add_assoc(acc@, cv, rest_v);
    lemma_q_ops_wf(cv, rest_v);
    lemma_q_ops_wf(acc@, q_add(cv, rest_v));
    lemma_q_eq_trans(d@, q_add(q_add(acc@, cv), rest_v), q_add(acc@, q_add(cv, rest_v)));
}

/// The exact distance integral respects value equality of the window
/// bounds.
pub proof fn lemma_dist_from_congr(s: Seq<Interval>, i: int, lo1: Qv, hi1: Qv, lo2: Qv, hi2: Qv)
    requires
        tl_wf(s),
        q_wf(lo1),
        q_wf(hi1),
        q_wf(lo2),
        q_wf(hi2),
        q_eq(lo1, lo2),
        q_eq(hi1, hi2),
    ensures
        q_eq(dist_from(s, i, lo1, hi1), dist_from(s, i, lo2, hi2)),
    decreases s.len() - i,
{
    if 0 <= i < s.len() {
        assert(seg_ok(s, i));
        let it = s[i];
        let a0 = q_max(lo1, q_zero());
        let b0 = q_max(lo2, q_zero());
        lemma_q_ops_wf(lo1, q_zero());
        lemma_q_ops_wf(lo2, q_zero());
        lemma_q_minmax_compat(lo1, q_zero(), lo2, q_zero());
        match it.end {
            None => {
                crate::rat::lemma_q_le_compat(a0, hi1, b0, hi2);
                if q_lt(a0, hi1) {
                    crate::rat::lemma_q_add_compat(hi1, a0, hi2, b0);
                    lemma_q_ops_wf(hi1, a0);
                    lemma_q_ops_wf(hi2, b0);
                    lemma_q_mul_compat(q_sub(hi1, a0), it.value@, q_sub(hi2, b0), it.value@);
                }
            },
            Some(e) => {
                let full = seg_time_val(it.start@, e@, it.value@);
                lemma_seg_time_val_wf(it.start@, e@, it.value@);
                let xe1 = q_min(hi1, full);
                let xe2 = q_min(hi2, full);
                lemma_q_minmax_compat(hi1, full, hi2, full);
                lemma_q_ops_wf(hi1, full);
                lemma_q_ops_wf(hi2, full);
                crate::rat::lemma_q_le_compat(a0, xe1, b0, xe2);
                if q_lt(a0, xe1) {
                    crate::rat::lemma_q_add_compat(xe1, a0, xe2, b0);
                    lemma_q_ops_wf(xe1, a0);
                    lemma_q_ops_wf(xe2, b0);
                    lemma_q_mul_compat(q_sub(xe1, a0), it.value@, q_sub(xe2, b0), it.value@);
                }
                crate::rat::lemma_q_add_compat(lo1, full, lo2, full);
                crate::rat::lemma_q_add_compat(hi1, full, hi2, full);
                lemma_q_ops_wf(lo1, full);
                lemma_q_ops_wf(lo2, full);
                lemma_dist_from_congr(
                    s,
                    i + 1,
                    q_sub(lo1, full),
                    q_sub(hi1, full),
                    q_sub(lo2, full),
                    q_sub(hi2, full),
                );
                let c1 = if q_lt(a0, xe1) {
                    q_mul(q_sub(xe1, a0), it.value@)
                } else {
                    q_zero()
                };
                let c2 = if q_lt(b0, xe2) {
                    q_mul(q_sub(xe2, b0), it.value@)
                } else {
                    q_zero()
                };
                if q_lt(a0, xe1) {
                    lemma_q_ops_wf(q_sub(xe1, a0), it.value@);
                    lemma_q_ops_wf(q_sub(xe2, b0), it.value@);
                }
                lemma_dist_from_wf(s, i + 1, q_sub(lo1, full), q_sub(hi1, full));
                lemma_dist_from_wf(s, i + 1, q_sub(lo2, full), q_sub(hi2, full));
                crate::rat::lemma_q_add_compat(
                    c1,
                    dist_from(s, i + 1, q_sub(lo1, full), q_sub(hi1, full)),
                    c2,
                    dist_from(s, i + 1, q_sub(lo2, full), q_sub(hi2, full)),
                );
            },
        }
    }
}

/// A fitting bounded distance evaluation equals the exact distance
/// integral.
pub proof fn lemma_dist_at_spec_sound(s: Seq<Interval>, x1: Rat, x2: Rat)
    requires
        tl_wf(s),
        x1.wf(),
        x2.wf(),
    ensures
        dist_at_spec(s, x1, x2) matches Some(d) ==> d.wf() && q_eq(d@, dist_of(s, x1@, x2@)),
{
    let lo = q_min(x1@, x2@);
    let hi = q_max(x1@, x2@);
    lemma_q_ops_wf(x1@, x2@);
    if q_eq(x1@, x2@) {
        lemma_dist_from_empty(s, 0, lo, hi);
    } else {
        let lor = crate::rat::rat_min(x1, x2);
        let hir = crate::rat::rat_max(x1, x2);
        lemma_dist_steps_sound(s, 0, lor, hir, rat_zero());
        match dist_steps(s, 0, lor, hir, rat_zero()) {
            None => {},
            Some(d) => {
                lemma_dist_from_wf(s, 0, lo, hi);
                let dv = dist_from(s, 0, lo, hi);
                crate::rat::lemma_q_add_sub(dv, rat_zero()@);
                lemma_q_ops_wf(rat_zero()@, dv);
                lemma_q_ops_wf(dv, rat_zero()@);
                crate::rat::lemma_q_add_sub(rat_zero()@, dv);
                lemma_q_eq_trans(q_add(rat_zero()@, dv), q_add(dv, rat_zero()@), dv);
                lemma_q_eq_trans(d@, q_add(rat_zero()@, dv), dv);
            },
        }
    }
}

/// The beat reached after spending `y` more time in the segment starting
/// at `start` with rate `value`: `start + y * value / 60`.
fn seg_beat(start: &Rat, y: &Rat, value: &Rat) -> (r: Option<Rat>)
    requires
        start.wf(),
        y.wf(),
        value.wf(),
    ensures
        r == seg_beat_checked(*start, *y, *value),
{
    let p = match y.mul(value) {
        None => {
            return None;
        },
        Some(p) => p,
    };
    let sixty = Rat::from_int(60);
    proof {
        assert(q_lt(q_zero(), sixty@));
    }
    let d = match p.div(&sixty) {
        None => {
            return None;
        },
        Some(d) => d,
    };
    start.add(&d)
}

/// Time spent crossing one segment from `start` to `bound` at rate
/// `value`: `60 * (bound - start) / value`.
fn seg_time(start: &Rat, bound: &Rat, value: &Rat) -> (r: Option<Rat>)
    requires
        start.wf(),
        bound.wf(),
        value.wf(),
        q_lt(q_zero(), value@),
    ensures
        r == seg_time_checked(*start, *bound, *value),
{
    let len = match bound.sub(start) {
        None => {
            return None;
        },
        Some(l) => l,
    };
    let sixty = Rat::from_int(60);
    let t = match sixty.mul(&len) {
        None => {
            return None;
        },
        Some(t) => t,
    };
    t.div(value)
}

impl BpmCrotchetFunction {
    /// Elapsed time at beat `x`: integrates `60 / rate` from beat zero to
    /// `x`, walking the intervals in order; zero for `x <= 0`.  `None`
    /// exactly when an intermediate exact value does not fit the bounded
    /// rationals.
    pub fn crotchet_time_function(&self, x: &Rat) -> (r: Option<Rat>)
        requires
            self.wf(),
            x.wf(),
        ensures
            r == time_at_spec(self.intervals@, *x),
            r matches Some(t) ==> t.wf() && q_eq(t@, time_of(self.intervals@, x@)),
    {
        proof {
            lemma_time_at_spec_sound(self.intervals@, *x);
        }
        if !x.is_pos() {
            return Some(Rat::from_int(0));
        }
        let n: usize = self.intervals.len();
        let mut acc = Rat::from_int(0);
        let mut i: usize = 0;
        while i < n
            invariant
                0 <= i <= n,
                n == self.intervals@.len(),
                tl_wf(self.intervals@),
                x.wf(),
                acc.wf(),
                q_lt(q_zero(), x@),
                time_steps(self.intervals@, 0, rat_zero(), *x) == time_steps(
                    self.intervals@,
                    i as int,
                    acc,
                    *x,
                ),
            decreases n - i,
        {
            proof {
                assert(seg_ok(self.intervals@, i as int));
            }
            let it = self.intervals[i];
            let inside: bool = match it.end {
                None => true,
                Some(e) => x.le(&e),
            };
            if inside {
                let t = match seg_time(&it.start, x, &it.value) {
                    None => {
                        return None;
                    },
                    Some(t) => t,
                };
                proof {
                    lemma_seg_time_checked(it.start, *x, it.value);
                    lemma_time_at_spec_sound(self.intervals@, *x);
                }
                return acc.add(&t);
            }
            let e = match it.end {
                None => {
                    return None;  // unreachable: `inside` is true for the last interval
                },
                Some(e) => e,
            };
            let t = match seg_time(&it.start, &e, &it.value) {
                None => {
                    return None;
                },
                Some(t) => t,
            };
            proof {
                lemma_seg_time_checked(it.start, e, it.value);
            }
            acc = match acc.add(&t) {
                None => {
                    return None;
                },
                Some(a) => a,
            };
            i = i + 1;
        }
        Some(acc)
    }

    /// The functional inverse of [`Self::crotchet_time_function`]: the
    /// beat reached at elapsed time `y`, solved exactly within the
    /// interval whose accumulated time meets `y`; zero for `y <= 0`.
    /// `None` exactly when an intermediate exact value does not fit the
    /// bounded rationals.
    pub fn inverse_integral(&self, y: &Rat) -> (r: Option<Rat>)
        requires
            self.wf(),
            y.wf(),
        ensures
            r == beat_at_spec(self.intervals@, *y),
            r matches Some(b) ==> b.wf() && q_eq(b@, beat_of(self.intervals@, y@)),
    {
        proof {
            lemma_beat_at_spec_sound(self.intervals@, *y);
        }
        if !y.is_pos() {
            return Some(Rat::from_int(0));
        }
        let n: usize = self.intervals.len();
        let mut rem = *y;
        let mut i: usize = 0;
        while i < n
            invariant
                0 <= i <= n,
                n == self.intervals@.len(),
                tl_wf(self.intervals@),
                y.wf(),
                rem.wf(),
                beat_steps(self.intervals@, 0, *y) == beat_steps(self.intervals@, i as int, rem),
                !q_le(y@, q_zero()),
            decreases n - i,
        {
            proof {
                assert(seg_ok(self.intervals@, i as int));
                lemma_beat_at_spec_sound(self.intervals@, *y);
            }
            let it = self.intervals[i];
            match it.end {
                None => {
                    return seg_beat(&it.start, &rem, &it.value);
                },
                Some(e) => {
                    let full = match seg_time(&it.start, &e, &it.value) {
                        None => {
                            return None;
                        },
                        Some(f) => f,
                    };
                    proof {
                        lemma_seg_time_checked(it.start, e, it.value);
                    }
                    if rem.le(&full) {
                        return seg_beat(&it.start, &rem, &it.value);
                    }
                    rem = match rem.sub(&full) {
                        None => {
                            return None;
                        },
                        Some(r2) => r2,
                    };
                },
            }
            i = i + 1;
        }
        Some(Rat::from_int(0))
    }

    /// The scroll distance between the time coordinates `x1` and `x2`:
    /// the integral of the raw rate (not its reciprocal) over the time
    /// window between them, clipped per interval; zero when they are
    /// equal.  `None` exactly when an intermediate exact value does not
    /// fit the bounded rationals.
    pub fn distance(&self, x1: &Rat, x2: &Rat) -> (r: Option<Rat>)
        requires
            self.wf(),
            x1.wf(),
            x2.wf(),
        ensures
            r == dist_at_spec(self.intervals@, *x1, *x2),
            r matches Some(d) ==> d.wf() && q_eq(d@, dist_of(self.intervals@, x1@, x2@)),
    {
        proof {
            lemma_dist_at_spec_sound(self.intervals@, *x1, *x2);
        }
        if x1.eq_val(x2) {
            return Some(Rat::from_int(0));
        }
        let mut lo = x1.min(x2);
        let mut hi = x1.max(x2);
        let mut acc = Rat::from_int(0);
        let n: usize = self.intervals.len();
        let mut i: usize = 0;
        while i < n
            invariant
                0 <= i <= n,
                n == self.intervals@.len(),
                tl_wf(self.intervals@),
                x1.wf(),
                x2.wf(),
                lo.wf(),
                hi.wf(),
                acc.wf(),
                dist_steps(
                    self.intervals@,
                    0,
                    crate::rat::rat_min(*x1, *x2),
                    crate::rat::rat_max(*x1, *x2),
                    rat_zero(),
                ) == dist_steps(self.intervals@, i as int, lo, hi, acc),
                !q_eq(x1@, x2@),
            decreases n - i,
        {
            proof {
                assert(seg_ok(self.intervals@, i as int));
                lemma_dist_at_spec_sound(self.intervals@, *x1, *x2);
            }
            let it = self.intervals[i];
            let zero = Rat::from_int(0);
            let lo0 = lo.max(&zero);
            match it.end {
                None => {
                    if lo0.lt(&hi) {
                        let w = match hi.sub(&lo0) {
                            None => {
                                return None;
                            },
                            Some(w) => w,
                        };
                        let c = match w.mul(&it.value) {
                            None => {
                                return None;
                            },
                            Some(c) => c,
                        };
                        return acc.add(&c);
                    }
                    return Some(acc);
                },
                Some(e) => {
                    let full = match seg_time(&it.start, &e, &it.value) {
                        None => {
                            return None;
                        },
                        Some(f) => f,
                    };
                    proof {
                        lemma_seg_time_checked(it.start, e, it.value);
                    }
                    let xe = hi.min(&full);
                    let acc2 = if lo0.lt(&xe) {
                        let w = match xe.sub(&lo0) {
                            None => {
                                return None;
                            },
                            Some(w) => w,
                        };
                        let c = match w.mul(&it.value) {
                            None => {
                                return None;
                            },
                            Some(c) => c,
                        };
                        match acc.add(&c) {
                            None => {
                                return None;
                            },
                            Some(a) => a,
                        }
                    } else {
                        acc
                    };
                    if hi.le(&full) {
                        return Some(acc2);
                    }
                    lo = match lo.sub(&full) {
                        None => {
                            return None;
                        },
                        Some(l) => l,
                    };
                    hi = match hi.sub(&full) {
                        None => {
                            return None;
                        },
                        Some(h) => h,
                    };
                    acc = acc2;
                },
            }
            i = i + 1;
        }
        Some(acc)
    }
}

} // verus!
