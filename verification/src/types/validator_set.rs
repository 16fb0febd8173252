//! Validator sets, their updates, and the state of a validator set transition.

use vstd::prelude::*;

use std::sync::Arc;

use crate::types::data_types::{BlockHeight, Power, TotalPower, VerifyingKey};

verus! {

/// Whether `a` comes before `b` in byte order, looking from position `from` on.
pub open spec fn bytes_less(a: Seq<u8>, b: Seq<u8>, from: int) -> bool
    decreases a.len() - from,
{
    if from < 0 || from >= a.len() || from >= b.len() {
        false
    } else if a[from] != b[from] {
        a[from] < b[from]
    } else {
        bytes_less(a, b, from + 1)
    }
}

/// The order of validators within a set: the byte order of their keys.
pub open spec fn key_less(a: VerifyingKey, b: VerifyingKey) -> bool {
    bytes_less(a.bytes@, b.bytes@, 0)
}

fn is_key_less(a: &VerifyingKey, b: &VerifyingKey) -> (r: bool)
    ensures
        r == key_less(*a, *b),
{
    let mut i: usize = 0;
    while i < 32
        invariant
            i <= 32,
            key_less(*a, *b) == bytes_less(a.bytes@, b.bytes@, i as int),
        decreases 32 - i,
    {
        if a.bytes[i] != b.bytes[i] {
            return a.bytes[i] < b.bytes[i];
        }
        i = i + 1;
    }
    false
}

/// `entries` with `key` given `power`: in its place if it is there, else inserted in order.
pub open spec fn put_entry(
    entries: Seq<(VerifyingKey, Power)>,
    key: VerifyingKey,
    power: Power,
) -> Seq<(VerifyingKey, Power)>
    decreases entries.len(),
{
    if entries.len() == 0 {
        seq![(key, power)]
    } else if entries[0].0 == key {
        seq![(key, power)] + entries.drop_first()
    } else if key_less(key, entries[0].0) {
        seq![(key, power)] + entries
    } else {
        seq![entries[0]] + put_entry(entries.drop_first(), key, power)
    }
}

/// `entries` without `key`.
pub open spec fn remove_entry(
    entries: Seq<(VerifyingKey, Power)>,
    key: VerifyingKey,
) -> Seq<(VerifyingKey, Power)>
    decreases entries.len(),
{
    if entries.len() == 0 {
        entries
    } else if entries.last().0 == key {
        remove_entry(entries.drop_last(), key)
    } else {
        remove_entry(entries.drop_last(), key).push(entries.last())
    }
}

/// The power that `entries` gives to `key`.
pub open spec fn power_of(entries: Seq<(VerifyingKey, Power)>, key: VerifyingKey) -> Option<Power>
    decreases entries.len(),
{
    if entries.len() == 0 {
        None
    } else if entries[0].0 == key {
        Some(entries[0].1)
    } else {
        power_of(entries.drop_first(), key)
    }
}

/// The place of `key` in `entries`, or the number of entries when it is absent.
pub open spec fn position_of(entries: Seq<(VerifyingKey, Power)>, key: VerifyingKey) -> int
    decreases entries.len(),
{
    if entries.len() == 0 || entries[0].0 == key {
        0
    } else {
        1 + position_of(entries.drop_first(), key)
    }
}

/// The sum of all powers.
pub open spec fn power_sum(entries: Seq<(VerifyingKey, Power)>) -> nat
    decreases entries.len(),
{
    if entries.len() == 0 {
        0
    } else {
        power_sum(entries.drop_last()) + entries.last().1.0 as nat
    }
}

/// The power that a quorum needs: more than two thirds of the total.
pub open spec fn quorum_power(total: nat) -> nat {
    (total * 2) / 3 + 1
}

/// `entries` after `inserts` were put one after another.
pub open spec fn put_entries(
    entries: Seq<(VerifyingKey, Power)>,
    inserts: Seq<(VerifyingKey, Power)>,
) -> Seq<(VerifyingKey, Power)>
    decreases inserts.len(),
{
    if inserts.len() == 0 {
        entries
    } else {
        put_entry(put_entries(entries, inserts.drop_last()), inserts.last().0, inserts.last().1)
    }
}

/// `entries` after `deletes` were removed one after another.
pub open spec fn remove_entries(
    entries: Seq<(VerifyingKey, Power)>,
    deletes: Seq<VerifyingKey>,
) -> Seq<(VerifyingKey, Power)>
    decreases deletes.len(),
{
    if deletes.len() == 0 {
        entries
    } else {
        remove_entry(remove_entries(entries, deletes.drop_last()), deletes.last())
    }
}

pub proof fn lemma_power_sum_bound(entries: Seq<(VerifyingKey, Power)>)
    ensures
        power_sum(entries) <= entries.len() * (u64::MAX as nat),
    decreases entries.len(),
{
    if entries.len() > 0 {
        lemma_power_sum_bound(entries.drop_last());
        assert((entries.len() - 1) * (u64::MAX as nat) + (u64::MAX as nat) == entries.len() * (
        u64::MAX as nat)) by (nonlinear_arith)
            requires
                entries.len() > 0,
        ;
    }
}

proof fn lemma_power_of_step(entries: Seq<(VerifyingKey, Power)>, i: int, key: VerifyingKey)
    requires
        0 <= i < entries.len(),
        entries[i].0 != key,
        power_of(entries, key) == power_of(entries.skip(i), key),
    ensures
        power_of(entries, key) == power_of(entries.skip(i + 1), key),
{
    assert(entries.skip(i).drop_first() =~= entries.skip(i + 1));
}

/// Updates to a validator set: powers to set and validators to remove.
#[derive(PartialEq, Eq, Debug)]
pub struct ValidatorSetUpdates {
    pub inserts: Arc<Vec<(VerifyingKey, Power)>>,
    pub deletes: Arc<Vec<VerifyingKey>>,
}

impl Clone for ValidatorSetUpdates {
    fn clone(&self) -> (r: Self)
        ensures
            r == *self,
    {
        ValidatorSetUpdates { inserts: self.inserts.clone(), deletes: self.deletes.clone() }
    }
}

impl ValidatorSetUpdates {
    /// No updates.
    pub fn new() -> (r: Self)
        ensures
            r.inserts@ == Seq::<(VerifyingKey, Power)>::empty(),
            r.deletes@ == Seq::<VerifyingKey>::empty(),
    {
        ValidatorSetUpdates { inserts: Arc::new(Vec::new()), deletes: Arc::new(Vec::new()) }
    }

    /// Set the power of `key` to `power`; a pending removal of `key` is dropped.
    pub fn insert(&mut self, key: VerifyingKey, power: Power)
        ensures
            final(self).inserts@ == remove_entry(old(self).inserts@, key).push((key, power)),
            final(self).deletes@ == without_key(old(self).deletes@, key),
    {
        let mut inserts = entries_without(&*self.inserts, &key);
        inserts.push((key, power));
        let deletes = keys_without(&*self.deletes, &key);
        self.inserts = Arc::new(inserts);
        self.deletes = Arc::new(deletes);
    }

    /// Remove `key`; a pending change of its power is dropped.
    pub fn delete(&mut self, key: VerifyingKey)
        ensures
            final(self).inserts@ == remove_entry(old(self).inserts@, key),
            final(self).deletes@ == without_key(old(self).deletes@, key).push(key),
    {
        let inserts = entries_without(&*self.inserts, &key);
        let mut deletes = keys_without(&*self.deletes, &key);
        deletes.push(key);
        self.inserts = Arc::new(inserts);
        self.deletes = Arc::new(deletes);
    }

    /// The power that the updates set for `key`.
    pub fn get_insert(&self, key: &VerifyingKey) -> (r: Option<Power>)
        ensures
            r == power_of(self.inserts@, *key),
    {
        lookup_power(&*self.inserts, key)
    }
}

/// `keys` without any occurrence of `key`.
pub open spec fn without_key(keys: Seq<VerifyingKey>, key: VerifyingKey) -> Seq<VerifyingKey>
    decreases keys.len(),
{
    if keys.len() == 0 {
        keys
    } else if keys.last() == key {
        without_key(keys.drop_last(), key)
    } else {
        without_key(keys.drop_last(), key).push(keys.last())
    }
}

fn keys_without(keys: &Vec<VerifyingKey>, key: &VerifyingKey) -> (r: Vec<VerifyingKey>)
    ensures
        r@ == without_key(keys@, *key),
{
    let mut r: Vec<VerifyingKey> = Vec::new();
    let mut i: usize = 0;
    while i < keys.len()
        invariant
            i <= keys@.len(),
            r@ == without_key(keys@.take(i as int), *key),
        decreases keys@.len() - i,
    {
        assert(keys@.take(i + 1).drop_last() =~= keys@.take(i as int));
        if keys[i] != *key {
            r.push(keys[i]);
        }
        i = i + 1;
    }
    assert(keys@.take(keys@.len() as int) =~= keys@);
    r
}

fn entries_without(entries: &Vec<(VerifyingKey, Power)>, key: &VerifyingKey) -> (r: Vec<
    (VerifyingKey, Power),
>)
    ensures
        r@ == remove_entry(entries@, *key),
{
    let mut r: Vec<(VerifyingKey, Power)> = Vec::new();
    let mut i: usize = 0;
    while i < entries.len()
        invariant
            i <= entries@.len(),
            r@ == remove_entry(entries@.take(i as int), *key),
        decreases entries@.len() - i,
    {
        assert(entries@.take(i + 1).drop_last() =~= entries@.take(i as int));
        if entries[i].0 != *key {
            r.push(entries[i]);
        }
        i = i + 1;
    }
    assert(entries@.take(entries@.len() as int) =~= entries@);
    r
}

fn lookup_power(entries: &Vec<(VerifyingKey, Power)>, key: &VerifyingKey) -> (r: Option<Power>)
    ensures
        r == power_of(entries@, *key),
{
    let mut i: usize = 0;
    assert(entries@.skip(0) =~= entries@);
    while i < entries.len()
        invariant
            i <= entries@.len(),
            power_of(entries@, *key) == power_of(entries@.skip(i as int), *key),
        decreases entries@.len() - i,
    {
        if entries[i].0 == *key {
            return Some(entries[i].1);
        }
        proof {
            lemma_power_of_step(entries@, i as int, *key);
        }
        i = i + 1;
    }
    None
}

fn entries_with(entries: &Vec<(VerifyingKey, Power)>, key: &VerifyingKey, power: Power) -> (r: Vec<
    (VerifyingKey, Power),
>)
    ensures
        r@ == put_entry(entries@, *key, power),
{
    let mut r: Vec<(VerifyingKey, Power)> = Vec::new();
    let mut i: usize = 0;
    assert(entries@.skip(0) =~= entries@);
    assert(Seq::<(VerifyingKey, Power)>::empty() + put_entry(entries@, *key, power) =~= put_entry(
        entries@,
        *key,
        power,
    ));
    while i < entries.len() && entries[i].0 != *key && !is_key_less(key, &entries[i].0)
        invariant
            i <= entries@.len(),
            put_entry(entries@, *key, power) == r@ + put_entry(
                entries@.skip(i as int),
                *key,
                power,
            ),
        decreases entries@.len() - i,
    {
        let ghost before = r@;
        let ghost rest = entries@.skip(i as int);
        r.push(entries[i]);
        proof {
            assert(rest.drop_first() =~= entries@.skip(i + 1));
            assert(before + (seq![rest[0]] + put_entry(rest.drop_first(), *key, power)) =~= r@
                + put_entry(entries@.skip(i + 1), *key, power));
        }
        i = i + 1;
    }
    let ghost rest = entries@.skip(i as int);
    let ghost before = r@;
    r.push((*key, power));
    if i < entries.len() && entries[i].0 == *key {
        i = i + 1;
    }
    assert(put_entry(rest, *key, power) =~= seq![(*key, power)] + entries@.skip(i as int)) by {
        if rest.len() > 0 && rest[0].0 == *key {
            assert(rest.drop_first() =~= entries@.skip(i as int));
        }
    }
    assert(put_entry(entries@, *key, power) =~= r@ + entries@.skip(i as int));
    while i < entries.len()
        invariant
            i <= entries@.len(),
            put_entry(entries@, *key, power) == r@ + entries@.skip(i as int),
        decreases entries@.len() - i,
    {
        let ghost before = r@;
        r.push(entries[i]);
        assert(before + entries@.skip(i as int) =~= r@ + entries@.skip(i + 1));
        i = i + 1;
    }
    assert(r@ + entries@.skip(i as int) =~= r@);
    r
}

/// Whether two lists of validators are the same.
pub fn same_entries(
    a: &Vec<(VerifyingKey, Power)>,
    b: &Vec<(VerifyingKey, Power)>,
) -> (r: bool)
    ensures
        r == (a@ == b@),
{
    if a.len() != b.len() {
        return false;
    }
    let mut i: usize = 0;
    while i < a.len()
        invariant
            i <= a@.len(),
            a@.len() == b@.len(),
            forall|j: int| 0 <= j < i ==> a@[j] == b@[j],
        decreases a@.len() - i,
    {
        if a[i].0 != b[i].0 || a[i].1 != b[i].1 {
            return false;
        }
        i = i + 1;
    }
    assert(a@ =~= b@);
    true
}

/// A set of validators with their powers, in the byte order of their keys.
#[derive(PartialEq, Eq, Debug)]
pub struct ValidatorSet {
    pub entries: Arc<Vec<(VerifyingKey, Power)>>,
}

impl View for ValidatorSet {
    type V = Seq<(VerifyingKey, Power)>;

    open spec fn view(&self) -> Seq<(VerifyingKey, Power)> {
        self.entries@
    }
}

impl Clone for ValidatorSet {
    fn clone(&self) -> (r: Self)
        ensures
            r == *self,
    {
        ValidatorSet { entries: self.entries.clone() }
    }
}

/// Whether a list of validators has a member with key `key`.
pub open spec fn has_validator(entries: Seq<(VerifyingKey, Power)>, key: VerifyingKey) -> bool {
    power_of(entries, key) is Some
}

/// A validator set after `updates`: powers are set first, then validators removed.
pub open spec fn updated_entries(
    entries: Seq<(VerifyingKey, Power)>,
    updates: ValidatorSetUpdates,
) -> Seq<(VerifyingKey, Power)> {
    remove_entries(put_entries(entries, updates.inserts@), updates.deletes@)
}

impl ValidatorSet {
    /// The empty set.
    pub fn new() -> (r: Self)
        ensures
            r@ == Seq::<(VerifyingKey, Power)>::empty(),
    {
        ValidatorSet { entries: Arc::new(Vec::new()) }
    }

    /// Give `key` the power `power`.
    pub fn put(&mut self, key: &VerifyingKey, power: Power)
        ensures
            final(self)@ == put_entry(old(self)@, *key, power),
    {
        self.entries = Arc::new(entries_with(&*self.entries, key, power));
    }

    /// Take `key` out of the set.
    pub fn remove(&mut self, key: &VerifyingKey)
        ensures
            final(self)@ == remove_entry(old(self)@, *key),
    {
        self.entries = Arc::new(entries_without(&*self.entries, key));
    }

    /// Apply `updates` to the set.
    pub fn apply_updates(&mut self, updates: &ValidatorSetUpdates)
        ensures
            final(self)@ == updated_entries(old(self)@, *updates),
    {
        let ghost start = self@;
        let mut i: usize = 0;
        assert(updates.inserts@.take(0) =~= Seq::<(VerifyingKey, Power)>::empty());
        while i < updates.inserts.len()
            invariant
                i <= updates.inserts@.len(),
                self@ == put_entries(start, updates.inserts@.take(i as int)),
            decreases updates.inserts@.len() - i,
        {
            assert(updates.inserts@.take(i + 1).drop_last() =~= updates.inserts@.take(i as int));
            self.put(&updates.inserts[i].0, updates.inserts[i].1);
            i = i + 1;
        }
        assert(updates.inserts@.take(i as int) =~= updates.inserts@);
        let ghost middle = self@;
        let mut j: usize = 0;
        assert(updates.deletes@.take(0) =~= Seq::<VerifyingKey>::empty());
        while j < updates.deletes.len()
            invariant
                j <= updates.deletes@.len(),
                self@ == remove_entries(middle, updates.deletes@.take(j as int)),
            decreases updates.deletes@.len() - j,
        {
            assert(updates.deletes@.take(j + 1).drop_last() =~= updates.deletes@.take(j as int));
            self.remove(&updates.deletes[j]);
            j = j + 1;
        }
        assert(updates.deletes@.take(j as int) =~= updates.deletes@);
    }

    /// The power of `key`, if it is a member.
    pub fn power(&self, key: &VerifyingKey) -> (r: Option<Power>)
        ensures
            r == power_of(self@, *key),
    {
        lookup_power(&*self.entries, key)
    }

    /// Whether `key` is a member.
    pub fn contains(&self, key: &VerifyingKey) -> (r: bool)
        ensures
            r == has_validator(self@, *key),
    {
        lookup_power(&*self.entries, key).is_some()
    }

    /// The number of members.
    pub fn len(&self) -> (r: usize)
        ensures
            r == self@.len(),
    {
        self.entries.len()
    }

    /// The sum of the powers of the members.
    pub fn total_power(&self) -> (r: TotalPower)
        ensures
            r.0 == power_sum(self@),
    {
        let mut total: u128 = 0;
        let mut i: usize = 0;
        let count: usize = self.entries.len();
        while i < count
            invariant
                i <= count,
                count == self@.len(),
                total == power_sum(self@.take(i as int)),
            decreases self@.len() - i,
        {
            assert(self@.take(i + 1).drop_last() =~= self@.take(i as int));
            proof {
                lemma_power_sum_bound(self@.take(i + 1));
                assert((i + 1) * (u64::MAX as nat) <= (u64::MAX as nat) * (u64::MAX as nat))
                    by (nonlinear_arith)
                    requires
                        i + 1 <= u64::MAX,
                ;
            }
            total = total + self.entries[i].1.0 as u128;
            i = i + 1;
        }
        assert(self@.take(i as int) =~= self@);
        TotalPower(total)
    }

    /// The power that a quorum of this set needs.
    pub fn quorum(&self) -> (r: TotalPower)
        ensures
            r.0 == quorum_power(power_sum(self@)),
    {
        let total: u128 = self.total_power().0;
        let count: usize = self.entries.len();
        proof {
            assert(self@.len() == count);
            lemma_power_sum_bound(self@);
            assert(self@.len() * (u64::MAX as nat) <= (u64::MAX as nat) * (u64::MAX as nat))
                by (nonlinear_arith)
                requires
                    self@.len() <= u64::MAX,
            ;
        }
        let thirds: u128 = total / 3;
        let rest: u128 = total % 3;
        assert((total as nat * 2) / 3 == thirds * 2 + (rest * 2) / 3);
        TotalPower(thirds * 2 + (rest * 2) / 3 + 1)
    }

    /// The place of `key` in the set, if it is a member.
    pub fn position(&self, key: &VerifyingKey) -> (r: Option<usize>)
        ensures
            match r {
                Some(at) => at < self@.len() && self@[at as int].0 == *key && self@[at as int].1
                    == power_of(self@, *key)->0 && has_validator(self@, *key) && at
                    == position_of(self@, *key),
                None => !has_validator(self@, *key) && position_of(self@, *key) == self@.len(),
            },
    {
        let mut i: usize = 0;
        assert(self@.skip(0) =~= self@);
        while i < self.entries.len()
            invariant
                i <= self@.len(),
                power_of(self@, *key) == power_of(self@.skip(i as int), *key),
                position_of(self@, *key) == i + position_of(self@.skip(i as int), *key),
            decreases self@.len() - i,
        {
            if self.entries[i].0 == *key {
                return Some(i);
            }
            proof {
                lemma_power_of_step(self@, i as int, *key);
                assert(self@.skip(i as int).drop_first() =~= self@.skip(i + 1));
            }
            i = i + 1;
        }
        None
    }

    /// The key of the member at `index`.
    pub fn key_at(&self, index: usize) -> (r: VerifyingKey)
        requires
            index < self@.len(),
        ensures
            r == self@[index as int].0,
    {
        self.entries[index].0
    }
}

/// Whether the validator set updates of a block are still to be applied.
#[derive(PartialEq, Eq, Debug)]
pub enum ValidatorSetUpdatesStatus {
    /// The block updates no validator.
    NoUpdates,
    /// The updates take effect when the block is committed.
    Pending(ValidatorSetUpdates),
    /// The updates were applied.
    Committed,
}

impl Clone for ValidatorSetUpdatesStatus {
    fn clone(&self) -> (r: Self)
        ensures
            r == *self,
    {
        match self {
            ValidatorSetUpdatesStatus::NoUpdates => ValidatorSetUpdatesStatus::NoUpdates,
            ValidatorSetUpdatesStatus::Pending(updates) => ValidatorSetUpdatesStatus::Pending(
                updates.clone(),
            ),
            ValidatorSetUpdatesStatus::Committed => ValidatorSetUpdatesStatus::Committed,
        }
    }
}

impl ValidatorSetUpdatesStatus {
    pub fn is_pending(&self) -> (r: bool)
        ensures
            r == (self is Pending),
    {
        match self {
            ValidatorSetUpdatesStatus::Pending(_) => true,
            _ => false,
        }
    }
}

/// The committed validator set, the one before it, and how far the change between them has come.
#[derive(PartialEq, Eq, Debug)]
pub struct ValidatorSetState {
    pub committed_validator_set: ValidatorSet,
    pub previous_validator_set: ValidatorSet,
    /// The height of the last block that changed the validator set.
    pub update_height: Option<BlockHeight>,
    /// Whether the change has been decided.
    pub update_decided: bool,
}

impl Clone for ValidatorSetState {
    fn clone(&self) -> (r: Self)
        ensures
            r == *self,
    {
        ValidatorSetState {
            committed_validator_set: self.committed_validator_set.clone(),
            previous_validator_set: self.previous_validator_set.clone(),
            update_height: self.update_height,
            update_decided: self.update_decided,
        }
    }
}

/// What a [`ValidatorSetState`] holds.
#[verifier::ext_equal]
pub struct ValidatorsView {
    pub committed: Seq<(VerifyingKey, Power)>,
    pub previous: Seq<(VerifyingKey, Power)>,
    pub update_height: Option<BlockHeight>,
    pub update_decided: bool,
}

impl View for ValidatorSetState {
    type V = ValidatorsView;

    open spec fn view(&self) -> ValidatorsView {
        ValidatorsView {
            committed: self.committed_validator_set@,
            previous: self.previous_validator_set@,
            update_height: self.update_height,
            update_decided: self.update_decided,
        }
    }
}

impl ValidatorSetState {
    pub fn new(
        committed_validator_set: ValidatorSet,
        previous_validator_set: ValidatorSet,
        update_height: Option<BlockHeight>,
        update_decided: bool,
    ) -> (r: Self)
        ensures
            r.committed_validator_set == committed_validator_set,
            r.previous_validator_set == previous_validator_set,
            r.update_height == update_height,
            r.update_decided == update_decided,
    {
        ValidatorSetState {
            committed_validator_set,
            previous_validator_set,
            update_height,
            update_decided,
        }
    }
}

/// Two quorums of one validator set with total power `total` share power: two disjoint groups
/// cannot both reach a quorum.
pub proof fn law_quorums_intersect(total: nat, first: nat, second: nat)
    requires
        first >= quorum_power(total),
        second >= quorum_power(total),
    ensures
        first + second > total + total / 3,
        first + second > total,
{
}

} // verus!
