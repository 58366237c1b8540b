//! Chart loading and per-tick note decisions.
//!
//! At load time the already-parsed chart events (time-signature changes,
//! tempo changes, playable and background objects) are converted into
//! the measure table, the tempo timeline and the note set.  At each
//! simulation tick the scroll offset, the retirement decision and the
//! key-press judgement are computed here from plain values.

use vstd::prelude::*;

use crate::measure::Crotchet;
use crate::measure::cum_beat_spec;
use crate::measure::table_steps;
use crate::rat::Rat;
use crate::rat::lemma_norm_some;
use crate::rat::lemma_q_le_compat;
use crate::rat::lemma_q_ops_wf;
use crate::rat::norm;
use crate::rat::q_abs_diff;
use crate::rat::q_add;
use crate::rat::q_eq;
use crate::rat::q_le;
use crate::rat::q_int;
use crate::rat::q_lt;
use crate::rat::q_mul;
use crate::rat::q_sub;
use crate::timeline::BpmCrotchetFunction;
use crate::timeline::ChartError;
use crate::timeline::Interval;
use crate::timeline::dist_at_spec;
use crate::timeline::dist_of;
use crate::timeline::rat_zero;
use crate::timeline::time_at_spec;
use crate::timeline::validate_timeline;

verus! {

/// The playable lanes: the scratch lane and the seven key lanes.
#[derive(Clone, Copy, Debug, PartialEq, Eq, Hash, Structural)]
pub enum Lane {
    LS,
    L1,
    L2,
    L3,
    L4,
    L5,
    L6,
    L7,
}

/// The lanes in display order.
pub open spec fn lane_order() -> Seq<Lane> {
    seq![Lane::LS, Lane::L1, Lane::L2, Lane::L3, Lane::L4, Lane::L5, Lane::L6, Lane::L7]
}

impl Lane {
    /// Every lane, in display order.
    pub fn all() -> (r: Vec<Lane>)
        ensures
            r@ == lane_order(),
    {
        let mut v: Vec<Lane> = Vec::new();
        v.push(Lane::LS);
        v.push(Lane::L1);
        v.push(Lane::L2);
        v.push(Lane::L3);
        v.push(Lane::L4);
        v.push(Lane::L5);
        v.push(Lane::L6);
        v.push(Lane::L7);
        proof {
            assert(v@ =~= lane_order());
        }
        v
    }
}

/// Which lane a chart channel addresses, if any.
pub open spec fn channel_lane(channel: u16) -> Option<Lane> {
    if channel == 68 {
        Some(Lane::LS)
    } else if channel == 63 {
        Some(Lane::L1)
    } else if channel == 64 {
        Some(Lane::L2)
    } else if channel == 65 {
        Some(Lane::L3)
    } else if channel == 66 {
        Some(Lane::L4)
    } else if channel == 67 {
        Some(Lane::L5)
    } else if channel == 70 {
        Some(Lane::L6)
    } else if channel == 71 {
        Some(Lane::L7)
    } else {
        None
    }
}

/// Map a chart channel to its playable lane; `None` for the background
/// channel and for channels this player does not place.
pub fn lane_of_channel(channel: u16) -> (r: Option<Lane>)
    ensures
        r == channel_lane(channel),
{
    if channel == 68 {
        Some(Lane::LS)
    } else if channel == 63 {
        Some(Lane::L1)
    } else if channel == 64 {
        Some(Lane::L2)
    } else if channel == 65 {
        Some(Lane::L3)
    } else if channel == 66 {
        Some(Lane::L4)
    } else if channel == 67 {
        Some(Lane::L5)
    } else if channel == 70 {
        Some(Lane::L6)
    } else if channel == 71 {
        Some(Lane::L7)
    } else {
        None
    }
}

/// Whether a chart channel is the background-music channel.
pub fn is_bgm_channel(channel: u16) -> (r: bool)
    ensures
        r == (channel == 1),
{
    channel == 1
}

/// One playable note: its lane, target elapsed time, sound reference
/// and target beat coordinate.
#[derive(Clone, Copy, Debug)]
pub struct Note {
    pub lane: Lane,
    pub time: Rat,
    pub wav_file: u16,
    pub real_crotchet: Rat,
}

/// One background-audio event: its target elapsed time and sound
/// reference.
#[derive(Clone, Copy, Debug)]
pub struct BGMEvent {
    pub time: Rat,
    pub wav_file: u16,
}

/// The two immutable evaluators a loaded chart plays against.
#[derive(Clone, Debug)]
pub struct PositionCalculator {
    pub crotchet_calculator: Crotchet,
    pub time_calculator: BpmCrotchetFunction,
}

impl PositionCalculator {
    /// Both evaluators are well-formed.
    pub open spec fn wf(self) -> bool {
        self.crotchet_calculator.wf() && self.time_calculator.wf()
    }
}

/// The scroll offset of a note at an instant: the scroll distance
/// between the clock and the note's target time, and whether the note
/// has already passed the judgement line (its time at or before the
/// clock).  `None` exactly when the distance does not fit the bounded
/// rationals.
pub fn scroll_offset(calc: &BpmCrotchetFunction, elapsed: &Rat, note_time: &Rat) -> (r: Option<
    (Rat, bool),
>)
    requires
        calc.wf(),
        elapsed.wf(),
        note_time.wf(),
    ensures
        r matches Some(p) <==> dist_at_spec(calc.intervals@, *elapsed, *note_time) is Some,
        r matches Some(p) ==> {
            &&& dist_at_spec(calc.intervals@, *elapsed, *note_time) == Some(p.0)
            &&& p.0.wf()
            &&& q_eq(p.0@, dist_of(calc.intervals@, elapsed@, note_time@))
            &&& p.1 == q_le(note_time@, elapsed@)
        },
{
    let d = match calc.distance(elapsed, note_time) {
        None => {
            return None;
        },
        Some(d) => d,
    };
    let passed = note_time.le(elapsed);
    Some((d, passed))
}

/// Whether a note is retired: the clock has passed its target time by
/// at least the tolerance window.  A note stays live while
/// `elapsed < time + tolerance` and is retired once
/// `elapsed >= time + tolerance`.  `None` exactly when the exact sum
/// `time + tolerance` does not fit the bounded rationals.
pub fn should_retire(note_time: &Rat, elapsed: &Rat, tolerance: &Rat) -> (r: Option<bool>)
    requires
        note_time.wf(),
        elapsed.wf(),
        tolerance.wf(),
    ensures
        r matches Some(b) <==> norm(q_add(note_time@, tolerance@)) is Some,
        r matches Some(b) ==> b == q_le(q_add(note_time@, tolerance@), elapsed@),
{
    proof {
        lemma_q_ops_wf(note_time@, tolerance@);
        lemma_norm_some(q_add(note_time@, tolerance@));
    }
    let limit = match note_time.add(tolerance) {
        None => {
            return None;
        },
        Some(l) => l,
    };
    proof {
        lemma_q_le_compat(limit@, elapsed@, q_add(note_time@, tolerance@), elapsed@);
    }
    Some(limit.le(elapsed))
}

/// Whether a key press at `elapsed` hits a note at `note_time`: their
/// distance in time is within the judgement window.  `None` exactly
/// when the exact difference does not fit the bounded rationals.
pub fn judge_hit(note_time: &Rat, elapsed: &Rat, window: &Rat) -> (r: Option<bool>)
    requires
        note_time.wf(),
        elapsed.wf(),
        window.wf(),
    ensures
        r matches Some(b) <==> norm(q_abs_diff(note_time@, elapsed@)) is Some,
        r matches Some(b) ==> b == q_le(q_abs_diff(note_time@, elapsed@), window@),
{
    proof {
        lemma_q_ops_wf(note_time@, elapsed@);
        lemma_q_ops_wf(elapsed@, note_time@);
        lemma_norm_some(q_abs_diff(note_time@, elapsed@));
    }
    let d = match note_time.abs_diff(elapsed) {
        None => {
            return None;
        },
        Some(d) => d,
    };
    proof {
        lemma_q_le_compat(d@, window@, q_abs_diff(note_time@, elapsed@), window@);
    }
    Some(d.le(window))
}

/// The walk picking the first note whose time is closest to the clock:
/// `bi` and `bd` are the best index so far and its distance; a later
/// note replaces the best one only when strictly closer.
pub open spec fn closest_steps(times: Seq<Rat>, e: Rat, i: int, bi: usize, bd: Rat) -> Option<
    usize,
>
    decreases times.len() - i,
{
    if i < 0 || i >= times.len() {
        Some(bi)
    } else {
        match norm(q_abs_diff(times[i]@, e@)) {
            None => None,
            Some(d) => if q_lt(d@, bd@) {
                closest_steps(times, e, i + 1, i as usize, d)
            } else {
                closest_steps(times, e, i + 1, bi, bd)
            },
        }
    }
}

/// What the closest-note selection returns: `None` for an empty set and
/// when an exact time difference does not fit the bounded rationals.
pub open spec fn closest_spec(times: Seq<Rat>, e: Rat) -> Option<usize> {
    if times.len() == 0 {
        None
    } else {
        match norm(q_abs_diff(times[0]@, e@)) {
            None => None,
            Some(d0) => closest_steps(times, e, 1, 0, d0),
        }
    }
}

/// The walk's result is optimal: no note is strictly closer, and every
/// earlier note is strictly farther.
proof fn lemma_closest_steps_optimal(times: Seq<Rat>, e: Rat, i: int, bi: usize, bd: Rat)
    requires
        forall|j: int| 0 <= j < times.len() ==> (#[trigger] times[j]).wf(),
        e.wf(),
        bd.wf(),
        times.len() <= usize::MAX,
        0 <= bi < i <= times.len(),
        q_eq(bd@, q_abs_diff(times[bi as int]@, e@)),
        forall|j: int| 0 <= j < i ==> q_le(bd@, #[trigger] q_abs_diff(times[j]@, e@)),
        forall|j: int| 0 <= j < bi ==> q_lt(bd@, #[trigger] q_abs_diff(times[j]@, e@)),
    ensures
        closest_steps(times, e, i, bi, bd) matches Some(k) ==> {
            &&& k < times.len()
            &&& forall|j: int|
                0 <= j < times.len() ==> q_le(
                    q_abs_diff(times[k as int]@, e@),
                    #[trigger] q_abs_diff(times[j]@, e@),
                )
            &&& forall|j: int|
                0 <= j < k ==> q_lt(
                    q_abs_diff(times[k as int]@, e@),
                    #[trigger] q_abs_diff(times[j]@, e@),
                )
        },
    decreases times.len() - i,
{
    let bdv = q_abs_diff(times[bi as int]@, e@);
    lemma_q_ops_wf(times[bi as int]@, e@);
    lemma_q_ops_wf(e@, times[bi as int]@);
    if i >= times.len() {
        // the best index stands; its distance is value-equal to bd
        assert forall|j: int| 0 <= j < times.len() implies q_le(
            bdv,
            #[trigger] q_abs_diff(times[j]@, e@),
        ) by {
            lemma_q_ops_wf(times[j]@, e@);
            lemma_q_ops_wf(e@, times[j]@);
            lemma_q_le_compat(bd@, q_abs_diff(times[j]@, e@), bdv, q_abs_diff(times[j]@, e@));
        }
        assert forall|j: int| 0 <= j < bi implies q_lt(
            bdv,
            #[trigger] q_abs_diff(times[j]@, e@),
        ) by {
            lemma_q_ops_wf(times[j]@, e@);
            lemma_q_ops_wf(e@, times[j]@);
            lemma_q_le_compat(bd@, q_abs_diff(times[j]@, e@), bdv, q_abs_diff(times[j]@, e@));
        }
    } else {
        let div = q_abs_diff(times[i]@, e@);
        lemma_q_ops_wf(times[i]@, e@);
        lemma_q_ops_wf(e@, times[i]@);
        lemma_norm_some(div);
        match norm(div) {
            None => {},
            Some(d) => {
                if q_lt(d@, bd@) {
                    // the new note is strictly closer than every index
                    // seen so far
                    assert forall|j: int| 0 <= j < i + 1 implies q_le(
                        d@,
                        #[trigger] q_abs_diff(times[j]@, e@),
                    ) by {
                        lemma_q_ops_wf(times[j]@, e@);
                        lemma_q_ops_wf(e@, times[j]@);
                        if j < i {
                            crate::rat::lemma_q_le_trans(d@, bd@, q_abs_diff(times[j]@, e@));
                        } else {
                            lemma_q_le_compat(d@, d@, d@, div);
                        }
                    }
                    assert forall|j: int| 0 <= j < i implies q_lt(
                        d@,
                        #[trigger] q_abs_diff(times[j]@, e@),
                    ) by {
                        lemma_q_ops_wf(times[j]@, e@);
                        lemma_q_ops_wf(e@, times[j]@);
                        crate::rat::lemma_q_le_trans(d@, bd@, q_abs_diff(times[j]@, e@));
                    }
                    lemma_closest_steps_optimal(times, e, i + 1, i as usize, d);
                } else {
                    // the old best stays at least as close, the new
                    // note no closer
                    assert(q_le(bd@, d@));
                    assert forall|j: int| 0 <= j < i + 1 implies q_le(
                        bd@,
                        #[trigger] q_abs_diff(times[j]@, e@),
                    ) by {
                        lemma_q_ops_wf(times[j]@, e@);
                        lemma_q_ops_wf(e@, times[j]@);
                        if j == i {
                            lemma_q_le_compat(bd@, d@, bd@, div);
                        }
                    }
                    lemma_closest_steps_optimal(times, e, i + 1, bi, bd);
                }
            },
        }
    }
}

/// The index of the live note whose target time is closest to the
/// clock, the earliest such note when tied; `None` when there is no
/// note, or when an exact time difference does not fit the bounded
/// rationals.
pub fn closest_note(times: &Vec<Rat>, elapsed: &Rat) -> (r: Option<usize>)
    requires
        forall|j: int| 0 <= j < times@.len() ==> (#[trigger] times@[j]).wf(),
        elapsed.wf(),
    ensures
        r == closest_spec(times@, *elapsed),
        r matches Some(k) ==> {
            &&& k < times@.len()
            &&& forall|j: int|
                0 <= j < times@.len() ==> q_le(
                    q_abs_diff(times@[k as int]@, elapsed@),
                    #[trigger] q_abs_diff(times@[j]@, elapsed@),
                )
            &&& forall|j: int|
                0 <= j < k ==> q_lt(
                    q_abs_diff(times@[k as int]@, elapsed@),
                    #[trigger] q_abs_diff(times@[j]@, elapsed@),
                )
        },
{
    let n: usize = times.len();
    if n == 0 {
        return None;
    }
    let mut bd = match times[0].abs_diff(elapsed) {
        None => {
            return None;
        },
        Some(d) => d,
    };
    proof {
        lemma_q_ops_wf(times@[0]@, elapsed@);
        lemma_q_ops_wf(elapsed@, times@[0]@);
        lemma_norm_some(q_abs_diff(times@[0]@, elapsed@));
    }
    let mut bi: usize = 0;
    let mut i: usize = 1;
    while i < n
        invariant
            n == times@.len(),
            0 <= bi < i <= n,
            forall|j: int| 0 <= j < times@.len() ==> (#[trigger] times@[j]).wf(),
            elapsed.wf(),
            bd.wf(),
            q_eq(bd@, q_abs_diff(times@[bi as int]@, elapsed@)),
            forall|j: int|
                0 <= j < i ==> q_le(bd@, #[trigger] q_abs_diff(times@[j]@, elapsed@)),
            forall|j: int|
                0 <= j < bi ==> q_lt(bd@, #[trigger] q_abs_diff(times@[j]@, elapsed@)),
            closest_spec(times@, *elapsed) == closest_steps(times@, *elapsed, i as int, bi, bd),
        decreases n - i,
    {
        let d = match times[i].abs_diff(elapsed) {
            None => {
                return None;
            },
            Some(d) => d,
        };
        proof {
            lemma_q_ops_wf(times@[i as int]@, elapsed@);
            lemma_q_ops_wf(elapsed@, times@[i as int]@);
            lemma_norm_some(q_abs_diff(times@[i as int]@, elapsed@));
        }
        if d.lt(&bd) {
            proof {
                assert forall|j: int| 0 <= j < i + 1 implies q_le(
                    d@,
                    #[trigger] q_abs_diff(times@[j]@, elapsed@),
                ) by {
                    lemma_q_ops_wf(times@[j]@, elapsed@);
                    lemma_q_ops_wf(elapsed@, times@[j]@);
                    if j < i {
                        crate::rat::lemma_q_le_trans(
                            d@,
                            bd@,
                            q_abs_diff(times@[j]@, elapsed@),
                        );
                    }
                }
                assert forall|j: int| 0 <= j < i implies q_lt(
                    d@,
                    #[trigger] q_abs_diff(times@[j]@, elapsed@),
                ) by {
                    lemma_q_ops_wf(times@[j]@, elapsed@);
                    lemma_q_ops_wf(elapsed@, times@[j]@);
                    crate::rat::lemma_q_le_trans(d@, bd@, q_abs_diff(times@[j]@, elapsed@));
                }
            }
            bi = i;
            bd = d;
        } else {
            proof {
                assert forall|j: int| 0 <= j < i + 1 implies q_le(
                    bd@,
                    #[trigger] q_abs_diff(times@[j]@, elapsed@),
                ) by {
                    lemma_q_ops_wf(times@[j]@, elapsed@);
                    lemma_q_ops_wf(elapsed@, times@[j]@);
                    if j == i {
                        lemma_q_le_compat(
                            bd@,
                            d@,
                            bd@,
                            q_abs_diff(times@[j]@, elapsed@),
                        );
                    }
                }
            }
        }
        i = i + 1;
    }
    proof {
        lemma_closest_steps_optimal(times@, *elapsed, i as int, bi, bd);
    }
    Some(bi)
}

/// One time-signature change from the parsed chart: the measure and its
/// length as a multiple of the default measure.
#[derive(Clone, Copy, Debug)]
pub struct SectionLenChange {
    pub track: u64,
    pub length: Rat,
}

/// One tempo change from the parsed chart: the measure, the fractional
/// position within it, and the new tempo.
#[derive(Clone, Copy, Debug)]
pub struct BpmChange {
    pub track: u64,
    pub numerator: u64,
    pub denominator: u64,
    pub bpm: Rat,
}

/// One chart object: the measure, the fractional position within it,
/// the channel and the sound reference.
#[derive(Clone, Copy, Debug)]
pub struct WavObj {
    pub track: u64,
    pub numerator: u64,
    pub denominator: u64,
    pub channel: u16,
    pub wav_id: u16,
}

/// The fraction `numerator / denominator` as a bounded rational, `None`
/// for a zero denominator or parts too large to represent.
pub open spec fn fraction_spec(numerator: u64, denominator: u64) -> Option<Rat> {
    if denominator == 0 || numerator > i64::MAX || denominator > i64::MAX {
        None
    } else {
        Some(Rat { num: numerator as i64, den: denominator as i64 })
    }
}

/// The fractional position `numerator / denominator` within a measure.
pub fn fraction_of(numerator: u64, denominator: u64) -> (r: Option<Rat>)
    ensures
        r == fraction_spec(numerator, denominator),
        r matches Some(f) ==> f.wf(),
{
    if denominator == 0 || numerator > i64::MAX as u64 || denominator > i64::MAX as u64 {
        None
    } else {
        Some(Rat { num: numerator as i64, den: denominator as i64 })
    }
}

/// The measure-table entries a list of time-signature changes produces:
/// each length scaled to beats by the default four, rejecting malformed
/// or oversized values.
pub open spec fn section_entries_spec(
    cs: Seq<SectionLenChange>,
    i: int,
    acc: Seq<(u64, Rat)>,
) -> Result<Seq<(u64, Rat)>, ChartError>
    decreases cs.len() - i,
{
    if i < 0 || i >= cs.len() {
        Ok(acc)
    } else {
        let c = cs[i];
        if !(c.length.den > 0 && c.length.num > i64::MIN) {
            Err(ChartError::InvalidNumber)
        } else {
            match norm(q_mul(c.length@, q_int(4))) {
                None => Err(ChartError::Overflow),
                Some(v) => section_entries_spec(cs, i + 1, acc.push((c.track, v))),
            }
        }
    }
}

/// Build the measure table from the chart's time-signature changes:
/// each measure length is scaled to beats (four per default measure)
/// and must come out well-formed and positive.
pub fn build_section_table(changes: &Vec<SectionLenChange>) -> (r: Result<Crotchet, ChartError>)
    ensures
        ({
            match section_entries_spec(changes@, 0, Seq::empty()) {
                Err(e) => r == Err::<Crotchet, ChartError>(e),
                Ok(entries) => {
                    &&& (r matches Ok(c) ==> c.wf() && table_steps(entries, 0, Map::empty())
                        == Ok::<Map<u64, Rat>, ChartError>(c.section_len_changes_hashmap@))
                    &&& (r matches Err(e) ==> table_steps(entries, 0, Map::empty()) == Err::<
                        Map<u64, Rat>,
                        ChartError,
                    >(e))
                },
            }
        }),
{
    let mut out: Vec<(u64, Rat)> = Vec::new();
    let n: usize = changes.len();
    let mut i: usize = 0;
    while i < n
        invariant
            0 <= i <= n,
            n == changes@.len(),
            section_entries_spec(changes@, 0, Seq::empty()) == section_entries_spec(
                changes@,
                i as int,
                out@,
            ),
        decreases n - i,
    {
        let c = changes[i];
        if !(c.length.den > 0 && c.length.num > i64::MIN) {
            return Err(ChartError::InvalidNumber);
        }
        let four = Rat::from_int(4);
        let v = match c.length.mul(&four) {
            None => {
                return Err(ChartError::Overflow);
            },
            Some(v) => v,
        };
        out.push((c.track, v));
        i = i + 1;
    }
    Crotchet::new(out)
}

/// The interval sequence a tempo-change list produces: the open
/// interval so far is closed at each change's beat coordinate, which
/// must move strictly forward, and a new open interval starts there
/// with the new (positive) tempo; the final interval stays unbounded.
pub open spec fn timeline_spec(
    m: Map<u64, Rat>,
    cs: Seq<BpmChange>,
    i: int,
    cur_start: Rat,
    cur_val: Rat,
    done: Seq<Interval>,
) -> Result<Seq<Interval>, ChartError>
    decreases cs.len() - i,
{
    if i < 0 || i >= cs.len() {
        Ok(done.push(Interval { start: cur_start, end: None, value: cur_val }))
    } else {
        let c = cs[i];
        if !(c.bpm.den > 0 && c.bpm.num > i64::MIN) {
            Err(ChartError::InvalidNumber)
        } else if !(c.bpm.num > 0) {
            Err(ChartError::NonPositiveRate)
        } else {
            match fraction_spec(c.numerator, c.denominator) {
                None => Err(ChartError::InvalidFraction),
                Some(f) => match cum_beat_spec(m, c.track, f) {
                    None => Err(ChartError::Overflow),
                    Some(rc) => if !q_lt(cur_start@, rc@) {
                        Err(ChartError::NonMonotonic)
                    } else {
                        timeline_spec(
                            m,
                            cs,
                            i + 1,
                            rc,
                            c.bpm,
                            done.push(Interval { start: cur_start, end: Some(rc), value: cur_val }),
                        )
                    },
                },
            }
        }
    }
}

/// What building the timeline from an initial tempo and a change list
/// yields.
pub open spec fn build_timeline_spec(m: Map<u64, Rat>, initial: Rat, cs: Seq<BpmChange>) -> Result<
    Seq<Interval>,
    ChartError,
> {
    if !(initial.den > 0 && initial.num > i64::MIN) {
        Err(ChartError::InvalidNumber)
    } else if !(initial.num > 0) {
        Err(ChartError::NonPositiveRate)
    } else {
        timeline_spec(m, cs, 0, rat_zero(), initial, Seq::empty())
    }
}

/// Build the tempo timeline: one interval from beat zero at the
/// chart's initial tempo, closed at each tempo change's beat coordinate
/// (computed through the measure table), with the last interval
/// unbounded.  Rejects non-positive tempi and changes that do not move
/// strictly forward.
pub fn build_timeline(initial_bpm: &Rat, bpm_changes: &Vec<BpmChange>, crotchet: &Crotchet) -> (r:
    Result<BpmCrotchetFunction, ChartError>)
    requires
        crotchet.wf(),
    ensures
        ({
            match build_timeline_spec(
                crotchet.section_len_changes_hashmap@,
                *initial_bpm,
                bpm_changes@,
            ) {
                Err(e) => r == Err::<BpmCrotchetFunction, ChartError>(e),
                Ok(sq) => {
                    &&& (r matches Ok(t) ==> t.wf() && t.intervals@ == sq)
                    &&& (r matches Err(e) ==> validate_timeline(sq) == Err::<(), ChartError>(e))
                },
            }
        }),
{
    if !(initial_bpm.den > 0 && initial_bpm.num > i64::MIN) {
        return Err(ChartError::InvalidNumber);
    }
    if !(initial_bpm.num > 0) {
        return Err(ChartError::NonPositiveRate);
    }
    let mut cur_start = Rat::from_int(0);
    let mut cur_val = *initial_bpm;
    let mut done: Vec<Interval> = Vec::new();
    let n: usize = bpm_changes.len();
    let mut i: usize = 0;
    while i < n
        invariant
            0 <= i <= n,
            n == bpm_changes@.len(),
            crotchet.wf(),
            cur_start.wf(),
            cur_val.wf(),
            build_timeline_spec(crotchet.section_len_changes_hashmap@, *initial_bpm, bpm_changes@)
                == timeline_spec(
                crotchet.section_len_changes_hashmap@,
                bpm_changes@,
                0,
                rat_zero(),
                *initial_bpm,
                Seq::empty(),
            ),
            timeline_spec(
                crotchet.section_len_changes_hashmap@,
                bpm_changes@,
                0,
                rat_zero(),
                *initial_bpm,
                Seq::empty(),
            ) == timeline_spec(
                crotchet.section_len_changes_hashmap@,
                bpm_changes@,
                i as int,
                cur_start,
                cur_val,
                done@,
            ),
        decreases n - i,
    {
        let c = bpm_changes[i];
        if !(c.bpm.den > 0 && c.bpm.num > i64::MIN) {
            return Err(ChartError::InvalidNumber);
        }
        if !(c.bpm.num > 0) {
            return Err(ChartError::NonPositiveRate);
        }
        let f = match fraction_of(c.numerator, c.denominator) {
            None => {
                return Err(ChartError::InvalidFraction);
            },
            Some(f) => f,
        };
        let rc = match crotchet.get_crotchet(c.track, &f) {
            None => {
                return Err(ChartError::Overflow);
            },
            Some(rc) => rc,
        };
        if !cur_start.lt(&rc) {
            return Err(ChartError::NonMonotonic);
        }
        done.push(Interval { start: cur_start, end: Some(rc), value: cur_val });
        cur_start = rc;
        cur_val = c.bpm;
        i = i + 1;
    }
    done.push(Interval { start: cur_start, end: None, value: cur_val });
    BpmCrotchetFunction::new(done)
}

/// The notes and background events a chart object list produces: each
/// object's coordinate becomes a beat and a target time; playable
/// channels become notes, the background channel becomes a background
/// event, anything else is dropped.
pub open spec fn notes_spec(
    m: Map<u64, Rat>,
    tl: Seq<Interval>,
    objs: Seq<WavObj>,
    i: int,
    notes: Seq<Note>,
    bgms: Seq<BGMEvent>,
) -> Result<(Seq<Note>, Seq<BGMEvent>), ChartError>
    decreases objs.len() - i,
{
    if i < 0 || i >= objs.len() {
        Ok((notes, bgms))
    } else {
        let o = objs[i];
        match fraction_spec(o.numerator, o.denominator) {
            None => Err(ChartError::InvalidFraction),
            Some(f) => match cum_beat_spec(m, o.track, f) {
                None => Err(ChartError::Overflow),
                Some(rc) => match time_at_spec(tl, rc) {
                    None => Err(ChartError::Overflow),
                    Some(t) => match channel_lane(o.channel) {
                        Some(lane) => notes_spec(
                            m,
                            tl,
                            objs,
                            i + 1,
                            notes.push(
                                Note { lane, time: t, wav_file: o.wav_id, real_crotchet: rc },
                            ),
                            bgms,
                        ),
                        None => if o.channel == 1 {
                            notes_spec(
                                m,
                                tl,
                                objs,
                                i + 1,
                                notes,
                                bgms.push(BGMEvent { time: t, wav_file: o.wav_id }),
                            )
                        } else {
                            notes_spec(m, tl, objs, i + 1, notes, bgms)
                        },
                    },
                },
            },
        }
    }
}

/// Convert every chart object into its note or background event: the
/// object's measure coordinate becomes a cumulative beat through the
/// measure table, then a target elapsed time through the timeline.
pub fn prepare_notes(objs: &Vec<WavObj>, calc: &PositionCalculator) -> (r: Result<
    (Vec<Note>, Vec<BGMEvent>),
    ChartError,
>)
    requires
        calc.wf(),
    ensures
        ({
            match notes_spec(
                calc.crotchet_calculator.section_len_changes_hashmap@,
                calc.time_calculator.intervals@,
                objs@,
                0,
                Seq::empty(),
                Seq::empty(),
            ) {
                Err(e) => r == Err::<(Vec<Note>, Vec<BGMEvent>), ChartError>(e),
                Ok(p) => r matches Ok(v) && v.0@ == p.0 && v.1@ == p.1,
            }
        }),
        r matches Ok(v) ==> {
            &&& forall|k: int|
                0 <= k < v.0@.len() ==> (#[trigger] v.0@[k]).time.wf() && v.0@[k].real_crotchet.wf()
            &&& forall|k: int| 0 <= k < v.1@.len() ==> (#[trigger] v.1@[k]).time.wf()
        },
{
    let mut notes: Vec<Note> = Vec::new();
    let mut bgms: Vec<BGMEvent> = Vec::new();
    let n: usize = objs.len();
    let mut i: usize = 0;
    while i < n
        invariant
            0 <= i <= n,
            n == objs@.len(),
            calc.wf(),
            notes_spec(
                calc.crotchet_calculator.section_len_changes_hashmap@,
                calc.time_calculator.intervals@,
                objs@,
                0,
                Seq::empty(),
                Seq::empty(),
            ) == notes_spec(
                calc.crotchet_calculator.section_len_changes_hashmap@,
                calc.time_calculator.intervals@,
                objs@,
                i as int,
                notes@,
                bgms@,
            ),
            forall|k: int|
                0 <= k < notes@.len() ==> (#[trigger] notes@[k]).time.wf()
                    && notes@[k].real_crotchet.wf(),
            forall|k: int| 0 <= k < bgms@.len() ==> (#[trigger] bgms@[k]).time.wf(),
        decreases n - i,
    {
        let o = objs[i];
        let f = match fraction_of(o.numerator, o.denominator) {
            None => {
                return Err(ChartError::InvalidFraction);
            },
            Some(f) => f,
        };
        let rc = match calc.crotchet_calculator.get_crotchet(o.track, &f) {
            None => {
                return Err(ChartError::Overflow);
            },
            Some(rc) => rc,
        };
        let t = match calc.time_calculator.crotchet_time_function(&rc) {
            None => {
                return Err(ChartError::Overflow);
            },
            Some(t) => t,
        };
        match lane_of_channel(o.channel) {
            Some(lane) => {
                notes.push(Note { lane, time: t, wav_file: o.wav_id, real_crotchet: rc });
            },
            None => {
                if is_bgm_channel(o.channel) {
                    bgms.push(BGMEvent { time: t, wav_file: o.wav_id });
                }
            },
        }
        i = i + 1;
    }
    Ok((notes, bgms))
}

/// One velocity segment of a piecewise-constant motion over time.
#[derive(Clone, Copy, Debug)]
pub struct Segment {
    pub t_start: Rat,
    pub t_end: Rat,
    pub velocity: Rat,
}

/// Insert one `(start time, velocity)` change into an already sorted
/// run, after every change that starts at or before it (stable).
pub open spec fn insert_by_time(x: (Rat, Rat), s: Seq<(Rat, Rat)>) -> Seq<(Rat, Rat)>
    decreases s.len(),
{
    if s.len() == 0 {
        seq![x]
    } else if q_lt(x.0@, s[0].0@) {
        seq![x] + s
    } else {
        seq![s[0]] + insert_by_time(x, s.drop_first())
    }
}

/// The stable sort of the change list by start time, inserting the
/// changes one by one in their given order.
pub open spec fn sort_by_time(s: Seq<(Rat, Rat)>) -> Seq<(Rat, Rat)>
    decreases s.len(),
{
    if s.len() == 0 {
        Seq::empty()
    } else {
        insert_by_time(s.last(), sort_by_time(s.drop_last()))
    }
}

/// Inserting lands exactly at the first position whose change starts
/// strictly later.
proof fn lemma_insert_at(x: (Rat, Rat), s: Seq<(Rat, Rat)>, j: int)
    requires
        0 <= j <= s.len(),
        forall|k: int| 0 <= k < j ==> !q_lt(x.0@, (#[trigger] s[k]).0@),
        j < s.len() ==> q_lt(x.0@, s[j].0@),
    ensures
        insert_by_time(x, s) == s.subrange(0, j) + seq![x] + s.subrange(j, s.len() as int),
    decreases j,
{
    if j == 0 {
        if s.len() == 0 {
            assert(insert_by_time(x, s) =~= s.subrange(0, 0) + seq![x] + s.subrange(0, 0));
        } else {
            assert(insert_by_time(x, s) =~= s.subrange(0, 0) + seq![x] + s.subrange(
                0,
                s.len() as int,
            ));
        }
    } else {
        assert(!q_lt(x.0@, s[0].0@));
        lemma_insert_at(x, s.drop_first(), j - 1);
        assert(seq![s[0]] + (s.drop_first().subrange(0, j - 1) + seq![x] + s.drop_first().subrange(
            j - 1,
            s.drop_first().len() as int,
        )) =~= s.subrange(0, j) + seq![x] + s.subrange(j, s.len() as int));
    }
}

/// The bounded integral of the piecewise-constant velocity from each
/// change's start to the next one's (the last running to `tnote`),
/// stopping at the segment holding `telapse`.
pub open spec fn pos_steps(
    ss: Seq<(Rat, Rat)>,
    tnote: Rat,
    telapse: Rat,
    i: int,
    acc: Rat,
) -> Option<Rat>
    decreases ss.len() - i,
{
    if i < 0 || i >= ss.len() {
        Some(acc)
    } else {
        let ts = ss[i].0;
        let v = ss[i].1;
        let te = if i + 1 < ss.len() {
            ss[i + 1].0
        } else {
            tnote
        };
        if q_le(te@, telapse@) {
            match norm(q_sub(te@, ts@)) {
                None => None,
                Some(w) => match norm(q_mul(w@, v@)) {
                    None => None,
                    Some(c) => match norm(q_add(acc@, c@)) {
                        None => None,
                        Some(a2) => pos_steps(ss, tnote, telapse, i + 1, a2),
                    },
                },
            }
        } else if q_lt(ts@, telapse@) {
            match norm(q_sub(telapse@, ts@)) {
                None => None,
                Some(w) => match norm(q_mul(w@, v@)) {
                    None => None,
                    Some(c) => norm(q_add(acc@, c@)),
                },
            }
        } else {
            Some(acc)
        }
    }
}

/// What the position computation returns: the integral over the sorted
/// changes.
pub open spec fn compute_position_spec(tnote: Rat, telapse: Rat, changes: Seq<(Rat, Rat)>) -> Option<
    Rat,
> {
    pos_steps(sort_by_time(changes), tnote, telapse, 0, rat_zero())
}

/// How far a note has travelled by `telapse` under the velocity
/// changes `(start time, velocity)`: the changes are sorted by start
/// time (keeping the given order of simultaneous ones), each one runs
/// until the next (the last until `tnote`), and the covered widths are
/// weighted by their velocities up to `telapse`.  `None` exactly when
/// an intermediate exact value does not fit the bounded rationals.
pub fn compute_position(tnote: &Rat, telapse: &Rat, changes: Vec<(Rat, Rat)>) -> (r: Option<Rat>)
    requires
        tnote.wf(),
        telapse.wf(),
        forall|k: int|
            0 <= k < changes@.len() ==> (#[trigger] changes@[k]).0.wf() && changes@[k].1.wf(),
    ensures
        r == compute_position_spec(*tnote, *telapse, changes@),
        r matches Some(p) ==> p.wf(),
{
    let n: usize = changes.len();
    let mut sorted: Vec<(Rat, Rat)> = Vec::new();
    let mut i: usize = 0;
    while i < n
        invariant
            0 <= i <= n,
            n == changes@.len(),
            forall|k: int|
                0 <= k < changes@.len() ==> (#[trigger] changes@[k]).0.wf() && changes@[k].1.wf(),
            sorted@ == sort_by_time(changes@.subrange(0, i as int)),
            forall|k: int|
                0 <= k < sorted@.len() ==> (#[trigger] sorted@[k]).0.wf() && sorted@[k].1.wf(),
        decreases n - i,
    {
        let x = changes[i];
        let m: usize = sorted.len();
        let mut j: usize = 0;
        while j < m && !x.0.lt(&sorted[j].0)
            invariant
                0 <= j <= m,
                m == sorted@.len(),
                x.0.wf(),
                forall|k: int|
                    0 <= k < sorted@.len() ==> (#[trigger] sorted@[k]).0.wf() && sorted@[k].1.wf(),
                forall|k: int| 0 <= k < j ==> !q_lt(x.0@, (#[trigger] sorted@[k]).0@),
            decreases m - j,
        {
            j = j + 1;
        }
        proof {
            lemma_insert_at(x, sorted@, j as int);
            assert(changes@.subrange(0, i + 1).drop_last() =~= changes@.subrange(0, i as int));
            assert(sorted@.subrange(0, j as int) + seq![x] + sorted@.subrange(
                j as int,
                sorted@.len() as int,
            ) =~= sorted@.insert(j as int, x));
        }
        sorted.insert(j, x);
        i = i + 1;
    }
    proof {
        assert(changes@.subrange(0, n as int) =~= changes@);
    }
    let mut acc = Rat::from_int(0);
    let mut k: usize = 0;
    let sn: usize = sorted.len();
    while k < sn
        invariant
            0 <= k <= sn,
            sn == sorted@.len(),
            tnote.wf(),
            telapse.wf(),
            acc.wf(),
            forall|t: int|
                0 <= t < sorted@.len() ==> (#[trigger] sorted@[t]).0.wf() && sorted@[t].1.wf(),
            compute_position_spec(*tnote, *telapse, changes@) == pos_steps(
                sorted@,
                *tnote,
                *telapse,
                k as int,
                acc,
            ),
        decreases sn - k,
    {
        let ts = sorted[k].0;
        let v = sorted[k].1;
        let te = if k + 1 < sn {
            sorted[k + 1].0
        } else {
            *tnote
        };
        if te.le(telapse) {
            let w = match te.sub(&ts) {
                None => {
                    return None;
                },
                Some(w) => w,
            };
            let c = match w.mul(&v) {
                None => {
                    return None;
                },
                Some(c) => c,
            };
            acc = match acc.add(&c) {
                None => {
                    return None;
                },
                Some(a) => a,
            };
        } else if ts.lt(telapse) {
            let w = match telapse.sub(&ts) {
                None => {
                    return None;
                },
                Some(w) => w,
            };
            let c = match w.mul(&v) {
                None => {
                    return None;
                },
                Some(c) => c,
            };
            return acc.add(&c);
        } else {
            return Some(acc);
        }
        k = k + 1;
    }
    Some(acc)
}

/// An ASCII letter folded to lower case; any other byte unchanged.
pub open spec fn ascii_lower(b: u8) -> u8 {
    if 65 <= b <= 90 {
        (b + 32) as u8
    } else {
        b
    }
}

/// Byte strings equal up to ASCII case.
pub open spec fn eq_ascii_ci(x: Seq<u8>, y: Seq<u8>) -> bool {
    x.len() == y.len() && (forall|i: int|
        0 <= i < x.len() ==> ascii_lower(#[trigger] x[i]) == ascii_lower(y[i]))
}

/// `p` is a prefix of `s`.
pub open spec fn is_prefix(p: Seq<u8>, s: Seq<u8>) -> bool {
    p.len() <= s.len() && (forall|i: int| 0 <= i < p.len() ==> s[i] == #[trigger] p[i])
}

/// The position of the last dot in a byte string, if any.
pub open spec fn last_dot(s: Seq<u8>) -> Option<int>
    decreases s.len(),
{
    if s.len() == 0 {
        None
    } else if s[s.len() - 1] == 46 {
        Some(s.len() - 1)
    } else {
        last_dot(s.drop_last())
    }
}

/// The lower-cased audio extensions this player resolves.
pub open spec fn wav_ext() -> Seq<u8> {
    seq![119u8, 97u8, 118u8]
}

pub open spec fn ogg_ext() -> Seq<u8> {
    seq![111u8, 103u8, 103u8]
}

/// Whether a directory entry is an audio file for a sound reference:
/// its name starts with the reference's stem and its extension (after
/// the last dot) is `wav` or `ogg` in any case.
pub open spec fn is_audio_candidate(name: Seq<u8>, stem: Seq<u8>) -> bool {
    is_prefix(stem, name) && (match last_dot(name) {
        None => false,
        Some(p) => {
            let ext = name.skip(p + 1);
            eq_ascii_ci(ext, wav_ext()) || eq_ascii_ci(ext, ogg_ext())
        },
    })
}

/// The last dot is a dot with no dot after it, and a missing last dot
/// means there is no dot at all.
proof fn lemma_last_dot(s: Seq<u8>)
    ensures
        last_dot(s) matches Some(p) ==> 0 <= p < s.len() && s[p] == 46 && (forall|k: int|
            p < k < s.len() ==> s[k] != 46),
        last_dot(s) is None ==> forall|k: int| 0 <= k < s.len() ==> s[k] != 46,
    decreases s.len(),
{
    if s.len() > 0 && s[s.len() - 1] != 46 {
        lemma_last_dot(s.drop_last());
        assert(forall|k: int| 0 <= k < s.len() - 1 ==> s.drop_last()[k] == s[k]);
    }
}

/// Fold one byte to ASCII lower case.
fn to_ascii_lower(b: u8) -> (r: u8)
    ensures
        r == ascii_lower(b),
{
    if 65 <= b && b <= 90 {
        b + 32
    } else {
        b
    }
}

/// Whether three extension bytes spell `wav` or `ogg` up to case.
fn ext_is_audio(e0: u8, e1: u8, e2: u8) -> (r: bool)
    ensures
        r == (eq_ascii_ci(seq![e0, e1, e2], wav_ext()) || eq_ascii_ci(
            seq![e0, e1, e2],
            ogg_ext(),
        )),
{
    let l0 = to_ascii_lower(e0);
    let l1 = to_ascii_lower(e1);
    let l2 = to_ascii_lower(e2);
    let r = (l0 == 119 && l1 == 97 && l2 == 118) || (l0 == 111 && l1 == 103 && l2 == 103);
    proof {
        let e = seq![e0, e1, e2];
        assert(e[0] == e0 && e[1] == e1 && e[2] == e2);
        assert(wav_ext()[0] == 119 && wav_ext()[1] == 97 && wav_ext()[2] == 118);
        assert(ogg_ext()[0] == 111 && ogg_ext()[1] == 103 && ogg_ext()[2] == 103);
        assert(ascii_lower(119) == 119 && ascii_lower(97) == 97 && ascii_lower(118) == 118);
        assert(ascii_lower(111) == 111 && ascii_lower(103) == 103);
        if eq_ascii_ci(e, wav_ext()) {
            assert(ascii_lower(e[0]) == ascii_lower(wav_ext()[0]));
            assert(ascii_lower(e[1]) == ascii_lower(wav_ext()[1]));
            assert(ascii_lower(e[2]) == ascii_lower(wav_ext()[2]));
        }
        if eq_ascii_ci(e, ogg_ext()) {
            assert(ascii_lower(e[0]) == ascii_lower(ogg_ext()[0]));
            assert(ascii_lower(e[1]) == ascii_lower(ogg_ext()[1]));
            assert(ascii_lower(e[2]) == ascii_lower(ogg_ext()[2]));
        }
    }
    r
}

/// Decide whether a directory entry's name resolves a sound reference:
/// the name must start with the reference's stem and carry a `wav` or
/// `ogg` extension in any case.
pub fn matches_audio_file(name: &[u8], stem: &[u8]) -> (r: bool)
    ensures
        r == is_audio_candidate(name@, stem@),
{
    proof {
        lemma_last_dot(name@);
    }
    if stem.len() > name.len() {
        return false;
    }
    let mut i: usize = 0;
    while i < stem.len()
        invariant
            0 <= i <= stem@.len(),
            stem@.len() <= name@.len(),
            forall|k: int| 0 <= k < i ==> name@[k] == #[trigger] stem@[k],
        decreases stem@.len() - i,
    {
        if name[i] != stem[i] {
            return false;
        }
        i = i + 1;
    }
    let n: usize = name.len();
    let mut j: usize = n;
    while j > 0
        invariant
            0 <= j <= n,
            n == name@.len(),
            stem@.len() <= name@.len(),
            is_prefix(stem@, name@),
            forall|k: int| j <= k < n ==> name@[k] != 46,
        decreases j,
    {
        if name[j - 1] == 46 {
            proof {
                lemma_last_dot(name@);
                assert(last_dot(name@) == Some(j - 1)) by {
                    match last_dot(name@) {
                        None => {
                            assert(name@[j - 1] != 46);
                        },
                        Some(p) => {
                            if p > j - 1 {
                                assert(name@[p] != 46);
                            }
                            if p < j - 1 {
                                assert(name@[j - 1] != 46);
                            }
                        },
                    }
                }
            }
            if n - j != 3 {
                return false;
            }
            let r = ext_is_audio(name[j], name[j + 1], name[j + 2]);
            proof {
                assert(name@.skip(j as int) =~= seq![name@[j as int], name@[j + 1], name@[j + 2]]);
            }
            return r;
        }
        j = j - 1;
    }
    false
}

} // verus!
