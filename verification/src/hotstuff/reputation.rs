//! Leader reputation: how often each validator's views succeeded.

use vstd::prelude::*;

use std::sync::Arc;

use crate::types::data_types::{same_bytes, VerifyingKey};

verus! {

/// The record of one validator.
#[derive(Clone, Copy, PartialEq, Eq, Structural, Debug)]
pub struct LeaderReputationEntry {
    /// Views that the validator led to a certificate.
    pub successes: u32,
    /// Views that the validator led.
    pub total: u32,
}

/// The score of a record in basis points: full marks without a record, and never less than a
/// quarter.
pub open spec fn entry_score(entry: LeaderReputationEntry) -> int {
    if entry.total == 0 {
        10_000
    } else {
        let raw = ((entry.successes as int * 10_000 / entry.total as int) as u32) as int;
        if raw < 2_500 {
            2_500
        } else {
            raw
        }
    }
}

impl Default for LeaderReputationEntry {
    fn default() -> (r: Self)
        ensures
            r.successes == 0,
            r.total == 0,
    {
        Self::new()
    }
}

impl LeaderReputationEntry {
    pub fn new() -> (r: Self)
        ensures
            r.successes == 0,
            r.total == 0,
    {
        LeaderReputationEntry { successes: 0, total: 0 }
    }

    /// The score of the record, in basis points.
    pub fn score_bps(&self) -> (r: u32)
        ensures
            r == entry_score(*self),
            r >= 2_500,
            self.successes <= self.total ==> r <= 10_000,
    {
        if self.total == 0 {
            10_000
        } else {
            let product: u64 = self.successes as u64 * 10_000;
            let raw: u64 = product / (self.total as u64);
            proof {
                if self.successes <= self.total {
                    assert(raw <= 10_000) by (nonlinear_arith)
                        requires
                            raw == product / (self.total as u64),
                            product == self.successes * 10_000,
                            self.successes <= self.total,
                            self.total > 0,
                    ;
                }
            }
            let score: u32 = #[verifier::truncate] (raw as u32);
            if score < 2_500 {
                2_500
            } else {
                score
            }
        }
    }

    /// Count a view that succeeded.
    pub fn record_success(&mut self)
        requires
            old(self).successes < u32::MAX,
            old(self).total < u32::MAX,
        ensures
            final(self).successes == old(self).successes + 1,
            final(self).total == old(self).total + 1,
    {
        self.successes = self.successes + 1;
        self.total = self.total + 1;
    }

    /// Count a view that timed out.
    pub fn record_timeout(&mut self)
        requires
            old(self).total < u32::MAX,
        ensures
            final(self).successes == old(self).successes,
            final(self).total == old(self).total + 1,
    {
        self.total = self.total + 1;
    }
}

/// What a list of records says.
pub type Records = Seq<([u8; 32], LeaderReputationEntry)>;

/// The place of the record of `key`, or the number of records when it has none.
pub open spec fn record_index(entries: Records, key: [u8; 32], from: int) -> int
    decreases entries.len() - from,
{
    if from >= entries.len() {
        entries.len() as int
    } else if entries[from].0 == key {
        from
    } else {
        record_index(entries, key, from + 1)
    }
}

/// The record of `key`; an empty record when it has none.
pub open spec fn record_of(entries: Records, key: [u8; 32]) -> LeaderReputationEntry {
    let at = record_index(entries, key, 0);
    if 0 <= at < entries.len() {
        entries[at].1
    } else {
        LeaderReputationEntry { successes: 0, total: 0 }
    }
}

/// `entries` with the record of `key` replaced, or added at the end.
pub open spec fn with_record(
    entries: Records,
    key: [u8; 32],
    entry: LeaderReputationEntry,
) -> Records {
    let at = record_index(entries, key, 0);
    if 0 <= at < entries.len() {
        entries.update(at, (key, entry))
    } else {
        entries.push((key, entry))
    }
}

/// A record with one more success.
pub open spec fn after_success(entry: LeaderReputationEntry) -> LeaderReputationEntry {
    LeaderReputationEntry {
        successes: (entry.successes + 1) as u32,
        total: (entry.total + 1) as u32,
    }
}

/// A record with one more timeout.
pub open spec fn after_timeout(entry: LeaderReputationEntry) -> LeaderReputationEntry {
    LeaderReputationEntry { successes: entry.successes, total: (entry.total + 1) as u32 }
}

/// Records after a decay: both counts halved, and records that come to nothing dropped.
pub open spec fn decayed(entries: Records) -> Records
    decreases entries.len(),
{
    if entries.len() == 0 {
        entries
    } else {
        let last = entries.last();
        let half = LeaderReputationEntry {
            successes: (last.1.successes / 2) as u32,
            total: (last.1.total / 2) as u32,
        };
        if half.total > 0 {
            decayed(entries.drop_last()).push((last.0, half))
        } else {
            decayed(entries.drop_last())
        }
    }
}

/// The number of views counted in all records.
pub open spec fn total_events(entries: Records) -> nat
    decreases entries.len(),
{
    if entries.len() == 0 {
        0
    } else {
        total_events(entries.drop_last()) + entries.last().1.total as nat
    }
}

pub proof fn lemma_record_index(entries: Records, key: [u8; 32], from: int)
    requires
        0 <= from <= entries.len(),
    ensures
        from <= record_index(entries, key, from) <= entries.len(),
        record_index(entries, key, from) < entries.len() ==> entries[record_index(
            entries,
            key,
            from,
        )].0 == key,
        forall|j: int| from <= j < record_index(entries, key, from) ==> (#[trigger] entries[j]).0 != key,
    decreases entries.len() - from,
{
    if from < entries.len() && entries[from].0 != key {
        lemma_record_index(entries, key, from + 1);
    }
}

proof fn lemma_record_index_is(entries: Records, key: [u8; 32], from: int, at: int)
    requires
        0 <= from <= at <= entries.len(),
        forall|j: int| from <= j < at ==> (#[trigger] entries[j]).0 != key,
        at < entries.len() ==> entries[at].0 == key,
    ensures
        record_index(entries, key, from) == at,
    decreases at - from,
{
    if from < at {
        lemma_record_index_is(entries, key, from + 1, at);
    }
}

/// The records of all validators that ever led a counted view.
#[derive(PartialEq, Eq, Debug)]
pub struct LeaderReputation {
    pub entries: Arc<Vec<([u8; 32], LeaderReputationEntry)>>,
    /// Records decay each time the number of counted views is a multiple of this.
    pub window_size: u32,
}

impl Clone for LeaderReputation {
    fn clone(&self) -> (r: Self)
        ensures
            r == *self,
    {
        LeaderReputation { entries: self.entries.clone(), window_size: self.window_size }
    }
}

/// A copy of a list of records.
fn copy_records(entries: &Vec<([u8; 32], LeaderReputationEntry)>) -> (r: Vec<
    ([u8; 32], LeaderReputationEntry),
>)
    ensures
        r@ == entries@,
{
    let mut r: Vec<([u8; 32], LeaderReputationEntry)> = Vec::new();
    let mut i: usize = 0;
    while i < entries.len()
        invariant
            i <= entries@.len(),
            r@ =~= entries@.take(i as int),
        decreases entries@.len() - i,
    {
        r.push((entries[i].0, entries[i].1));
        i = i + 1;
    }
    assert(entries@.take(i as int) =~= entries@);
    r
}

impl LeaderReputation {
    pub fn new(window_size: u32) -> (r: Self)
        ensures
            r.entries@ == Seq::<([u8; 32], LeaderReputationEntry)>::empty(),
            r.window_size == window_size,
    {
        LeaderReputation { entries: Arc::new(Vec::new()), window_size }
    }

    /// The place of the record of `key`, or the number of records.
    fn find(&self, key: &[u8; 32]) -> (at: usize)
        ensures
            at == record_index(self.entries@, *key, 0),
            at <= self.entries@.len(),
    {
        let mut i: usize = 0;
        while i < self.entries.len()
            invariant
                i <= self.entries@.len(),
                forall|j: int| 0 <= j < i ==> (#[trigger] self.entries@[j]).0 != *key,
            decreases self.entries@.len() - i,
        {
            if same_bytes(&self.entries[i].0, key) {
                proof {
                    lemma_record_index_is(self.entries@, *key, 0, i as int);
                }
                return i;
            }
            i = i + 1;
        }
        proof {
            lemma_record_index_is(self.entries@, *key, 0, i as int);
        }
        i
    }

    /// The record of `validator`; an empty one when it has none.
    pub fn entry(&self, validator: &VerifyingKey) -> (r: LeaderReputationEntry)
        ensures
            r == record_of(self.entries@, validator.bytes),
    {
        let at: usize = self.find(&validator.bytes);
        if at < self.entries.len() {
            self.entries[at].1
        } else {
            LeaderReputationEntry::new()
        }
    }

    /// Replace the record of `validator`, adding it if there is none.
    fn set_entry(&mut self, validator: &VerifyingKey, entry: LeaderReputationEntry)
        ensures
            final(self).entries@ == with_record(old(self).entries@, validator.bytes, entry),
            final(self).window_size == old(self).window_size,
    {
        let at: usize = self.find(&validator.bytes);
        let mut entries = copy_records(&*self.entries);
        if at < entries.len() {
            entries.set(at, (validator.bytes, entry));
        } else {
            entries.push((validator.bytes, entry));
        }
        self.entries = Arc::new(entries);
    }

    /// Count a view that `leader` led to a certificate.
    pub fn record_success(&mut self, leader: &VerifyingKey)
        requires
            record_of(old(self).entries@, leader.bytes).successes < u32::MAX,
            record_of(old(self).entries@, leader.bytes).total < u32::MAX,
        ensures
            final(self).entries@ == with_record(
                old(self).entries@,
                leader.bytes,
                after_success(record_of(old(self).entries@, leader.bytes)),
            ),
            final(self).window_size == old(self).window_size,
    {
        let mut entry = self.entry(leader);
        entry.record_success();
        self.set_entry(leader, entry);
    }

    /// Count a view of `leader` that timed out.
    pub fn record_timeout(&mut self, leader: &VerifyingKey)
        requires
            record_of(old(self).entries@, leader.bytes).total < u32::MAX,
        ensures
            final(self).entries@ == with_record(
                old(self).entries@,
                leader.bytes,
                after_timeout(record_of(old(self).entries@, leader.bytes)),
            ),
            final(self).window_size == old(self).window_size,
    {
        let mut entry = self.entry(leader);
        entry.record_timeout();
        self.set_entry(leader, entry);
    }

    /// The score of `validator` in basis points; full marks when it has no record.
    pub fn score_bps(&self, validator: &VerifyingKey) -> (r: u32)
        ensures
            r == entry_score(record_of(self.entries@, validator.bytes)),
            record_index(self.entries@, validator.bytes, 0) == self.entries@.len() ==> r == 10_000,
            r >= 2_500,
    {
        self.entry(validator).score_bps()
    }

    /// Halve every count, and drop the records that come to nothing.
    pub fn decay(&mut self)
        ensures
            final(self).entries@ == decayed(old(self).entries@),
            final(self).window_size == old(self).window_size,
    {
        let mut entries: Vec<([u8; 32], LeaderReputationEntry)> = Vec::new();
        let mut i: usize = 0;
        while i < self.entries.len()
            invariant
                i <= self.entries@.len(),
                entries@ == decayed(self.entries@.take(i as int)),
            decreases self.entries@.len() - i,
        {
            assert(self.entries@.take(i + 1).drop_last() =~= self.entries@.take(i as int));
            let entry = self.entries[i].1;
            let half = LeaderReputationEntry {
                successes: entry.successes / 2,
                total: entry.total / 2,
            };
            if half.total > 0 {
                entries.push((self.entries[i].0, half));
            }
            i = i + 1;
        }
        assert(self.entries@.take(i as int) =~= self.entries@);
        self.entries = Arc::new(entries);
    }

    /// The number of views counted in all records, unless it exceeds what a `u32` can hold.
    pub fn events(&self) -> (r: Option<u32>)
        ensures
            match r {
                Some(n) => n == total_events(self.entries@),
                None => total_events(self.entries@) > u32::MAX,
            },
    {
        let mut sum: u32 = 0;
        let mut i: usize = 0;
        while i < self.entries.len()
            invariant
                i <= self.entries@.len(),
                sum == total_events(self.entries@.take(i as int)),
            decreases self.entries@.len() - i,
        {
            assert(self.entries@.take(i + 1).drop_last() =~= self.entries@.take(i as int));
            proof {
                lemma_events_grow(self.entries@, i + 1);
            }
            match sum.checked_add(self.entries[i].1.total) {
                Some(next) => {
                    sum = next;
                },
                None => {
                    return None;
                },
            }
            i = i + 1;
        }
        assert(self.entries@.take(i as int) =~= self.entries@);
        Some(sum)
    }
}

proof fn lemma_events_grow(entries: Records, upto: int)
    requires
        0 <= upto <= entries.len(),
    ensures
        total_events(entries.take(upto)) <= total_events(entries),
    decreases entries.len(),
{
    if upto == entries.len() {
        assert(entries.take(upto) =~= entries);
    } else {
        lemma_events_grow(entries.drop_last(), upto);
        assert(entries.drop_last().take(upto) =~= entries.take(upto));
    }
}

/// A success never lowers the number of successes, and a record that is in order (no more
/// successes than views) stays in order whatever is counted.
pub proof fn law_records_stay_in_order(entry: LeaderReputationEntry)
    requires
        entry.successes <= entry.total,
        entry.total < u32::MAX,
    ensures
        after_success(entry).successes <= after_success(entry).total,
        after_timeout(entry).successes <= after_timeout(entry).total,
        entry.successes / 2 <= entry.total / 2,
{
}

/// A timeout never raises a validator's score.
pub proof fn law_timeout_never_raises_score(entry: LeaderReputationEntry)
    requires
        entry.successes <= entry.total,
        entry.total < u32::MAX,
    ensures
        entry_score(after_timeout(entry)) <= entry_score(entry),
{
    let s = entry.successes as int;
    let t = entry.total as int;
    if t == 0 {
        assert(s == 0);
    } else {
        assert(s * 10_000 / (t + 1) <= s * 10_000 / t <= 10_000) by (nonlinear_arith)
            requires
                0 <= s <= t,
                t > 0,
        ;
        assert(s * 10_000 / (t + 1) >= 0) by (nonlinear_arith)
            requires
                0 <= s <= t,
                t > 0,
        ;
    }
}

/// A success never lowers a validator's score.
pub proof fn law_success_never_lowers_score(entry: LeaderReputationEntry)
    requires
        entry.successes <= entry.total,
        entry.total < u32::MAX,
    ensures
        entry_score(after_success(entry)) >= entry_score(entry),
{
    let s = entry.successes as int;
    let t = entry.total as int;
    let next = after_success(entry);
    assert(next.successes == s + 1 && next.total == t + 1);
    if t > 0 {
        assert(0 <= s * 10_000 / t <= (s + 1) * 10_000 / (t + 1) <= 10_000) by (nonlinear_arith)
            requires
                0 <= s <= t,
                t > 0,
        ;
    } else {
        assert((s + 1) * 10_000 / (t + 1) == 10_000) by (nonlinear_arith)
            requires
                s == 0,
                t == 0,
        ;
    }
    assert(next.successes as int * 10_000 / next.total as int == (s + 1) * 10_000 / (t + 1));
}

/// Whether no record has more successes than views.
pub open spec fn in_order(entries: Records) -> bool {
    forall|i: int| 0 <= i < entries.len() ==> (#[trigger] entries[i]).1.successes <= entries[i].1.total
}

proof fn lemma_decay_stays_in_order(entries: Records)
    requires
        in_order(entries),
    ensures
        in_order(decayed(entries)),
    decreases entries.len(),
{
    if entries.len() > 0 {
        assert(in_order(entries.drop_last())) by {
            assert forall|i: int| 0 <= i < entries.len() - 1 implies (
            #[trigger] entries.drop_last()[i]).1.successes <= entries.drop_last()[i].1.total by {
                assert(entries.drop_last()[i] == entries[i]);
            }
        }
        lemma_decay_stays_in_order(entries.drop_last());
        assert(entries[entries.len() - 1].1.successes <= entries[entries.len() - 1].1.total);
    }
}

/// Every validator's score lies between a quarter and full marks, and still does whatever is
/// counted for whomever, and after a decay.
pub proof fn law_scores_stay_in_range(entries: Records, leader: [u8; 32], validator: [u8; 32])
    requires
        in_order(entries),
        record_of(entries, leader).total < u32::MAX,
    ensures
        2_500 <= entry_score(record_of(entries, validator)) <= 10_000,
        in_order(with_record(entries, leader, after_success(record_of(entries, leader)))),
        in_order(with_record(entries, leader, after_timeout(record_of(entries, leader)))),
        in_order(decayed(entries)),
{
    lemma_record_index(entries, validator, 0);
    lemma_record_index(entries, leader, 0);
    lemma_decay_stays_in_order(entries);
    let record = record_of(entries, validator);
    let s = record.successes as int;
    let t = record.total as int;
    assert(s <= t) by {
        let at = record_index(entries, validator, 0);
        if at < entries.len() {
            assert(entries[at].1.successes <= entries[at].1.total);
        }
    }
    if t > 0 {
        assert(0 <= s * 10_000 / t <= 10_000) by (nonlinear_arith)
            requires
                0 <= s <= t,
                t > 0,
        ;
    }
    let at = record_index(entries, leader, 0);
    if at < entries.len() {
        assert(entries[at].1.successes <= entries[at].1.total);
    }
}

} // verus!
