//! Measure-to-beat mapping under per-measure time signatures.
//!
//! A chart addresses events by measure index and fractional position
//! within the measure.  Each measure spans four beats unless the sparse
//! override table lists another beat count for it.  [`Crotchet`] turns
//! such a coordinate into a single cumulative beat value by a prefix sum
//! over the measures before it.

use std::collections::HashMap;
use vstd::prelude::*;

use crate::rat::Qv;
use crate::rat::Rat;
use crate::rat::lemma_norm_some;
use crate::rat::lemma_q_add_assoc;
use crate::rat::lemma_q_add_compat;
use crate::rat::lemma_q_add_sub;
use crate::rat::lemma_q_eq_trans;
use crate::rat::lemma_q_ops_wf;
use crate::rat::norm;
use crate::rat::q_add;
use crate::rat::q_eq;
use crate::rat::q_lt;
use crate::rat::q_mul;
use crate::rat::q_wf;
use crate::rat::q_zero;
use crate::timeline::ChartError;
use crate::timeline::rat_zero;

verus! {

broadcast use vstd::std_specs::hash::group_hash_axioms;

/// The default beat count of a measure with no override.
pub open spec fn rat_four() -> Rat {
    Rat { num: 4, den: 1 }
}

/// The beat count of measure `k` under the override table `m`.
pub open spec fn beats_of(m: Map<u64, Rat>, k: u64) -> Rat {
    if m.contains_key(k) {
        m[k]
    } else {
        rat_four()
    }
}

/// Every override in the table is a well-formed, strictly positive beat
/// count.
pub open spec fn table_wf(m: Map<u64, Rat>) -> bool {
    forall|k: u64| m.contains_key(k) ==> (#[trigger] m[k]).wf() && q_lt(q_zero(), m[k]@)
}

/// The exact sum of the beat counts of measures `i` (inclusive) up to
/// `j` (exclusive).
pub open spec fn beats_between(m: Map<u64, Rat>, i: int, j: int) -> Qv
    decreases j - i,
{
    if i < 0 || i >= j {
        q_zero()
    } else {
        q_add(beats_of(m, i as u64)@, beats_between(m, i + 1, j))
    }
}

/// The exact cumulative beat coordinate of the position `pos` within
/// measure `idx`: all beats before the measure plus the fraction of its
/// own beat count.
pub open spec fn cum_beat_val(m: Map<u64, Rat>, idx: u64, pos: Qv) -> Qv {
    q_add(beats_between(m, 0, idx as int), q_mul(pos, beats_of(m, idx)@))
}

/// The bounded prefix sum of beat counts with the running total `acc`.
pub open spec fn cum_steps(m: Map<u64, Rat>, i: int, idx: u64, acc: Rat) -> Option<Rat>
    decreases idx - i,
{
    if i < 0 || i >= idx {
        Some(acc)
    } else {
        match norm(q_add(acc@, beats_of(m, i as u64)@)) {
            None => None,
            Some(a2) => cum_steps(m, i + 1, idx, a2),
        }
    }
}

/// What the bounded cumulative-beat evaluation returns.
pub open spec fn cum_beat_spec(m: Map<u64, Rat>, idx: u64, pos: Rat) -> Option<Rat> {
    match cum_steps(m, 0, idx, rat_zero()) {
        None => None,
        Some(total) => match norm(q_mul(pos@, beats_of(m, idx)@)) {
            None => None,
            Some(part) => norm(q_add(total@, part@)),
        },
    }
}

/// The exact prefix sum has a positive denominator.
pub proof fn lemma_beats_between_wf(m: Map<u64, Rat>, i: int, j: int)
    requires
        table_wf(m),
    ensures
        q_wf(beats_between(m, i, j)),
    decreases j - i,
{
    if 0 <= i < j {
        lemma_beats_between_wf(m, i + 1, j);
        lemma_q_ops_wf(beats_of(m, i as u64)@, beats_between(m, i + 1, j));
    }
}

/// A fitting bounded prefix sum equals `acc` plus the exact one.
pub proof fn lemma_cum_steps_sound(m: Map<u64, Rat>, i: int, idx: u64, acc: Rat)
    requires
        table_wf(m),
        0 <= i,
        acc.wf(),
    ensures
        cum_steps(m, i, idx, acc) matches Some(t) ==> t.wf() && q_eq(
            t@,
            q_add(acc@, beats_between(m, i, idx as int)),
        ),
    decreases idx - i,
{
    if i >= idx {
        lemma_q_ops_wf(acc@, q_zero());
        lemma_q_add_sub(acc@, q_zero());
    } else {
        let b = beats_of(m, i as u64);
        let rest = beats_between(m, i + 1, idx as int);
        lemma_beats_between_wf(m, i + 1, idx as int);
        lemma_q_ops_wf(acc@, b@);
        lemma_norm_some(q_add(acc@, b@));
        match norm(q_add(acc@, b@)) {
            None => {},
            Some(a2) => {
                lemma_cum_steps_sound(m, i + 1, idx, a2);
                match cum_steps(m, i + 1, idx, a2) {
                    None => {},
                    Some(t) => {
                        // t ~ a2 + rest ~ (acc + b) + rest
                        //   ~ acc + (b + rest).
                        lemma_q_ops_wf(a2@, rest);
                        lemma_q_ops_wf(q_add(acc@, b@), rest);
                        lemma_q_add_compat(a2@, rest, q_add(acc@, b@), rest);
                        lemma_q_eq_trans(t@, q_add(a2@, rest), q_add(q_add(acc@, b@), rest));
                        lemma_q_add_assoc(acc@, b@, rest);
                        lemma_q_ops_wf(b@, rest);
                        lemma_q_ops_wf(acc@, q_add(b@, rest));
                        lemma_q_eq_trans(
                            t@,
                            q_add(q_add(acc@, b@), rest),
                            q_add(acc@, q_add(b@, rest)),
                        );
                    },
                }
            },
        }
    }
}

/// A fitting bounded cumulative-beat evaluation equals the exact
/// cumulative beat coordinate.
pub proof fn lemma_cum_beat_spec_sound(m: Map<u64, Rat>, idx: u64, pos: Rat)
    requires
        table_wf(m),
        pos.wf(),
    ensures
        cum_beat_spec(m, idx, pos) matches Some(c) ==> c.wf() && q_eq(
            c@,
            cum_beat_val(m, idx, pos@),
        ),
{
    lemma_cum_steps_sound(m, 0, idx, rat_zero());
    match cum_steps(m, 0, idx, rat_zero()) {
        None => {},
        Some(total) => {
            let before = beats_between(m, 0, idx as int);
            lemma_beats_between_wf(m, 0, idx as int);
            // total ~ 0 + before ~ before.
            lemma_q_ops_wf(rat_zero()@, before);
            lemma_q_add_sub(rat_zero()@, before);
            lemma_q_ops_wf(before, rat_zero()@);
            lemma_q_add_sub(before, rat_zero()@);
            lemma_q_eq_trans(q_add(rat_zero()@, before), q_add(before, rat_zero()@), before);
            lemma_q_eq_trans(total@, q_add(rat_zero()@, before), before);
            let b = beats_of(m, idx);
            lemma_q_ops_wf(pos@, b@);
            lemma_norm_some(q_mul(pos@, b@));
            match norm(q_mul(pos@, b@)) {
                None => {},
                Some(part) => {
                    lemma_q_ops_wf(total@, part@);
                    lemma_norm_some(q_add(total@, part@));
                    match norm(q_add(total@, part@)) {
                        None => {},
                        Some(c) => {
                            lemma_q_add_compat(total@, part@, before, q_mul(pos@, b@));
                            lemma_q_ops_wf(before, q_mul(pos@, b@));
                            lemma_q_eq_trans(
                                c@,
                                q_add(total@, part@),
                                q_add(before, q_mul(pos@, b@)),
                            );
                        },
                    }
                },
            }
        },
    }
}

/// The validating construction of the override table, one entry at a
/// time in order, later entries overwriting earlier ones.
pub open spec fn table_steps(entries: Seq<(u64, Rat)>, i: int, m: Map<u64, Rat>) -> Result<
    Map<u64, Rat>,
    ChartError,
>
    decreases entries.len() - i,
{
    if i < 0 || i >= entries.len() {
        Ok(m)
    } else {
        let (k, v) = entries[i];
        if !(v.den > 0 && v.num > i64::MIN) {
            Err(ChartError::InvalidNumber)
        } else if !(v.num > 0) {
            Err(ChartError::NonPositiveBeats)
        } else {
            table_steps(entries, i + 1, m.insert(k, v))
        }
    }
}

/// The sparse measure-length override table: measure index to beat
/// count, four beats where absent.
#[derive(Clone, Debug)]
pub struct Crotchet {
    pub section_len_changes_hashmap: HashMap<u64, Rat>,
}

impl Crotchet {
    /// The override table holds only well-formed positive beat counts.
    pub open spec fn wf(self) -> bool {
        table_wf(self.section_len_changes_hashmap@)
    }

    /// Build the override table from `(measure, beat count)` pairs,
    /// rejecting a beat count that is malformed, zero or negative.
    pub fn new(entries: Vec<(u64, Rat)>) -> (r: Result<Crotchet, ChartError>)
        ensures
            r matches Ok(c) ==> c.wf() && table_steps(entries@, 0, Map::empty()) == Ok::<
                Map<u64, Rat>,
                ChartError,
            >(c.section_len_changes_hashmap@),
            r matches Err(e) ==> table_steps(entries@, 0, Map::empty()) == Err::<
                Map<u64, Rat>,
                ChartError,
            >(e),
    {
        let mut map: HashMap<u64, Rat> = HashMap::new();
        let n: usize = entries.len();
        let mut i: usize = 0;
        while i < n
            invariant
                0 <= i <= n,
                n == entries@.len(),
                table_steps(entries@, 0, Map::empty()) == table_steps(entries@, i as int, map@),
                table_wf(map@),
            decreases n - i,
        {
            let (k, v) = entries[i];
            if !(v.den > 0 && v.num > i64::MIN) {
                return Err(ChartError::InvalidNumber);
            }
            if !(v.num > 0) {
                return Err(ChartError::NonPositiveBeats);
            }
            proof {
                assert((v.num as int) * 1 == v.num as int);
                assert(0 * (v.den as int) == 0);
            }
            map.insert(k, v);
            i = i + 1;
        }
        Ok(Crotchet { section_len_changes_hashmap: map })
    }

    /// The cumulative beat coordinate of `pos_in_measure` within measure
    /// `measure_idx`: the beat counts of all earlier measures plus the
    /// fraction of this measure's own count.  `None` exactly when an
    /// intermediate exact value does not fit the bounded rationals.
    pub fn get_crotchet(&self, measure_idx: u64, pos_in_measure: &Rat) -> (r: Option<Rat>)
        requires
            self.wf(),
            pos_in_measure.wf(),
        ensures
            r == cum_beat_spec(self.section_len_changes_hashmap@, measure_idx, *pos_in_measure),
            r matches Some(c) ==> c.wf() && q_eq(
                c@,
                cum_beat_val(self.section_len_changes_hashmap@, measure_idx, pos_in_measure@),
            ),
    {
        proof {
            lemma_cum_beat_spec_sound(
                self.section_len_changes_hashmap@,
                measure_idx,
                *pos_in_measure,
            );
        }
        let mut acc = Rat::from_int(0);
        let mut m: u64 = 0;
        while m < measure_idx
            invariant
                0 <= m <= measure_idx,
                table_wf(self.section_len_changes_hashmap@),
                pos_in_measure.wf(),
                acc.wf(),
                cum_steps(self.section_len_changes_hashmap@, 0, measure_idx, rat_zero())
                    == cum_steps(self.section_len_changes_hashmap@, m as int, measure_idx, acc),
            decreases measure_idx - m,
        {
            let beats: Rat = match self.section_len_changes_hashmap.get(&m) {
                Some(b) => *b,
                None => Rat::from_int(4),
            };
            acc = match acc.add(&beats) {
                None => {
                    return None;
                },
                Some(a) => a,
            };
            m = m + 1;
        }
        let current: Rat = match self.section_len_changes_hashmap.get(&measure_idx) {
            Some(b) => *b,
            None => Rat::from_int(4),
        };
        let part = match pos_in_measure.mul(&current) {
            None => {
                return None;
            },
            Some(p) => p,
        };
        acc.add(&part)
    }
}

} // verus!
