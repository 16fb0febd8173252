//! What updates make of a validator set.

use vstd::prelude::*;

use crate::types::data_types::{Power, VerifyingKey};
use crate::types::validator_set;
use crate::types::validator_set::ValidatorSetUpdates;

verus! {

/// Whether updates remove a validator.
pub open spec fn removes(updates: ValidatorSetUpdates, key: VerifyingKey) -> bool {
    updates.deletes@.contains(key)
}

/// Whether a place is the last one at which the updates give a validator a power.
pub open spec fn sets_last_at(updates: ValidatorSetUpdates, key: VerifyingKey, at: int) -> bool {
    &&& 0 <= at < updates.inserts@.len()
    &&& updates.inserts@[at].0 == key
    &&& forall|later: int|
        at < later < updates.inserts@.len() ==> (#[trigger] updates.inserts@[later]).0 != key
}

/// Putting an entry gives its power to its key, and leaves every other key its power.
proof fn lemma_put(
    entries: Seq<(VerifyingKey, Power)>,
    key: VerifyingKey,
    power: Power,
    other: VerifyingKey,
)
    ensures
        validator_set::power_of(validator_set::put_entry(entries, key, power), key) == Some(power),
        other != key ==> validator_set::power_of(
            validator_set::put_entry(entries, key, power),
            other,
        ) == validator_set::power_of(entries, other),
    decreases entries.len(),
{
    let after = validator_set::put_entry(entries, key, power);
    if entries.len() == 0 {
        assert(after.drop_first() =~= entries);
        assert(validator_set::power_of(after.drop_first(), other) is None);
    } else if entries[0].0 == key {
        assert(after.drop_first() =~= entries.drop_first());
    } else if validator_set::key_less(key, entries[0].0) {
        assert(after.drop_first() =~= entries);
    } else {
        lemma_put(entries.drop_first(), key, power, other);
        assert(after.drop_first() =~= validator_set::put_entry(entries.drop_first(), key, power));
    }
}

/// One more entry counts only for a key that has none.
proof fn lemma_power_of_push(
    entries: Seq<(VerifyingKey, Power)>,
    entry: (VerifyingKey, Power),
    key: VerifyingKey,
)
    ensures
        validator_set::power_of(entries.push(entry), key) == (if validator_set::power_of(
            entries,
            key,
        ) is Some {
            validator_set::power_of(entries, key)
        } else if entry.0 == key {
            Some(entry.1)
        } else {
            None
        }),
    decreases entries.len(),
{
    let longer = entries.push(entry);
    if entries.len() == 0 {
        assert(longer.drop_first() =~= Seq::empty());
        assert(validator_set::power_of(longer.drop_first(), key) is None);
    } else {
        assert(longer.drop_first() =~= entries.drop_first().push(entry));
        lemma_power_of_push(entries.drop_first(), entry, key);
    }
}

/// Removing a key leaves it no power, and leaves every other key its power.
proof fn lemma_remove(entries: Seq<(VerifyingKey, Power)>, key: VerifyingKey, other: VerifyingKey)
    ensures
        validator_set::power_of(validator_set::remove_entry(entries, key), key) is None,
        other != key ==> validator_set::power_of(
            validator_set::remove_entry(entries, key),
            other,
        ) == validator_set::power_of(entries, other),
    decreases entries.len(),
{
    if entries.len() > 0 {
        let fewer = entries.drop_last();
        lemma_remove(fewer, key, other);
        assert(entries =~= fewer.push(entries.last()));
        lemma_power_of_push(fewer, entries.last(), other);
        let before = validator_set::remove_entry(fewer, key);
        lemma_power_of_push(before, entries.last(), key);
        lemma_power_of_push(before, entries.last(), other);
    }
}

proof fn lemma_put_all(
    entries: Seq<(VerifyingKey, Power)>,
    inserts: Seq<(VerifyingKey, Power)>,
    key: VerifyingKey,
)
    ensures
        ({
            let after = validator_set::power_of(validator_set::put_entries(entries, inserts), key);
            &&& forall|at: int|
                0 <= at < inserts.len() && (#[trigger] inserts[at]).0 == key && (forall|later: int|
                    at < later < inserts.len() ==> (#[trigger] inserts[later]).0 != key) ==> after
                    == Some(inserts[at].1)
            &&& (forall|at: int| 0 <= at < inserts.len() ==> (#[trigger] inserts[at]).0 != key)
                ==> after == validator_set::power_of(entries, key)
        }),
    decreases inserts.len(),
{
    if inserts.len() > 0 {
        let fewer = inserts.drop_last();
        let n = fewer.len() as int;
        lemma_put_all(entries, fewer, key);
        lemma_put(
            validator_set::put_entries(entries, fewer),
            inserts.last().0,
            inserts.last().1,
            key,
        );
        let after = validator_set::power_of(validator_set::put_entries(entries, inserts), key);
        assert forall|at: int|
            0 <= at < inserts.len() && (#[trigger] inserts[at]).0 == key && (forall|later: int|
                at < later < inserts.len() ==> (#[trigger] inserts[later]).0
                    != key) implies after == Some(inserts[at].1) by {
            if at < n {
                assert(inserts[n].0 != key);
                assert(fewer[at] == inserts[at]);
                assert forall|later: int| at < later < fewer.len() implies (
                #[trigger] fewer[later]).0 != key by {
                    assert(fewer[later] == inserts[later]);
                }
            }
        }
        if forall|at: int| 0 <= at < inserts.len() ==> (#[trigger] inserts[at]).0 != key {
            assert(inserts[n].0 != key);
            assert forall|at: int| 0 <= at < fewer.len() implies (#[trigger] fewer[at]).0
                != key by {
                assert(fewer[at] == inserts[at]);
            }
        }
    }
}

proof fn lemma_remove_all(
    entries: Seq<(VerifyingKey, Power)>,
    deletes: Seq<VerifyingKey>,
    key: VerifyingKey,
)
    ensures
        validator_set::power_of(validator_set::remove_entries(entries, deletes), key) == (
        if deletes.contains(key) {
            None
        } else {
            validator_set::power_of(entries, key)
        }),
    decreases deletes.len(),
{
    if deletes.len() > 0 {
        let fewer = deletes.drop_last();
        lemma_remove_all(entries, fewer, key);
        lemma_remove(validator_set::remove_entries(entries, fewer), deletes.last(), key);
        if deletes.contains(key) && key != deletes.last() {
            let i = choose|i: int| 0 <= i < deletes.len() && deletes[i] == key;
            assert(fewer[i] == key);
        }
        if fewer.contains(key) {
            let i = choose|i: int| 0 <= i < fewer.len() && fewer[i] == key;
            assert(deletes[i] == key);
        }
        assert(deletes[deletes.len() - 1] == deletes.last());
    }
}

/// Updates to a validator set do to every validator what they say: a key that they remove is no
/// validator, even if they give it a power too; any other key that they give a power has the last
/// one that they give it; and every other key is as it was.
pub proof fn law_updates_take_effect(
    entries: Seq<(VerifyingKey, Power)>,
    updates: ValidatorSetUpdates,
    key: VerifyingKey,
)
    ensures
        ({
            let before = validator_set::power_of(entries, key);
            let after = validator_set::power_of(
                validator_set::updated_entries(entries, updates),
                key,
            );
            &&& removes(updates, key) ==> after is None
            &&& forall|at: int| #[trigger]
                sets_last_at(updates, key, at) && !removes(updates, key) ==> after == Some(
                    updates.inserts@[at].1,
                )
            &&& !removes(updates, key) && (forall|at: int|
                0 <= at < updates.inserts@.len() ==> (#[trigger] updates.inserts@[at]).0 != key)
                ==> after == before
        }),
{
    lemma_put_all(entries, updates.inserts@, key);
    lemma_remove_all(
        validator_set::put_entries(entries, updates.inserts@),
        updates.deletes@,
        key,
    );
}

/// Whether validators are listed in the order of their keys, each once.
pub open spec fn in_order(entries: Seq<(VerifyingKey, Power)>) -> bool {
    forall|i: int, j: int|
        0 <= i < j < entries.len() ==> validator_set::key_less(
            (#[trigger] entries[i]).0,
            (#[trigger] entries[j]).0,
        )
}

/// The order of keys is strict and total from any place on where the bytes before it are the same.
proof fn lemma_total(a: VerifyingKey, b: VerifyingKey, from: int)
    requires
        0 <= from <= 32,
        forall|i: int| 0 <= i < from ==> (#[trigger] a.bytes@[i]) == b.bytes@[i],
    ensures
        validator_set::bytes_less(a.bytes@, b.bytes@, from) || validator_set::bytes_less(
            b.bytes@,
            a.bytes@,
            from,
        ) || a == b,
        !(validator_set::bytes_less(a.bytes@, b.bytes@, from) && validator_set::bytes_less(
            b.bytes@,
            a.bytes@,
            from,
        )),
        a == b ==> !validator_set::bytes_less(a.bytes@, b.bytes@, from),
    decreases 32 - from,
{
    if from < 32 {
        if a.bytes@[from] == b.bytes@[from] {
            lemma_total(a, b, from + 1);
        }
    } else {
        assert(a.bytes@ =~= b.bytes@);
        assert(a.bytes =~= b.bytes);
    }
}

/// The order of keys is transitive.
proof fn lemma_trans(a: VerifyingKey, b: VerifyingKey, c: VerifyingKey, from: int)
    requires
        0 <= from <= 32,
        validator_set::bytes_less(a.bytes@, b.bytes@, from),
        validator_set::bytes_less(b.bytes@, c.bytes@, from),
    ensures
        validator_set::bytes_less(a.bytes@, c.bytes@, from),
    decreases 32 - from,
{
    if from < 32 && a.bytes@[from] == b.bytes@[from] && b.bytes@[from] == c.bytes@[from] {
        lemma_trans(a, b, c, from + 1);
    }
}

/// Where a validator is put, the others keep their order.
proof fn lemma_put_in_order(
    entries: Seq<(VerifyingKey, Power)>,
    key: VerifyingKey,
    power: Power,
)
    requires
        in_order(entries),
    ensures
        in_order(validator_set::put_entry(entries, key, power)),
        forall|i: int|
            0 <= i < validator_set::put_entry(entries, key, power).len() ==> (
            #[trigger] validator_set::put_entry(entries, key, power)[i]).0 == key
                || exists|j: int|
                0 <= j < entries.len() && (#[trigger] entries[j]).0 == validator_set::put_entry(
                    entries,
                    key,
                    power,
                )[i].0,
    decreases entries.len(),
{
    let after = validator_set::put_entry(entries, key, power);
    if entries.len() > 0 {
        let first = entries[0];
        let rest = entries.drop_first();
        assert(in_order(rest)) by {
            assert forall|i: int, j: int| 0 <= i < j < rest.len() implies validator_set::key_less(
                (#[trigger] rest[i]).0,
                (#[trigger] rest[j]).0,
            ) by {
                assert(rest[i] == entries[i + 1] && rest[j] == entries[j + 1]);
            }
        }
        if first.0 == key {
            assert(after =~= entries.update(0, (key, power)));
        } else if validator_set::key_less(key, first.0) {
            assert(after =~= seq![(key, power)] + entries);
            assert forall|i: int, j: int| 0 <= i < j < after.len() implies validator_set::key_less(
                (#[trigger] after[i]).0,
                (#[trigger] after[j]).0,
            ) by {
                assert(after[j] == entries[j - 1]);
                if i > 0 {
                    assert(after[i] == entries[i - 1]);
                } else if j > 1 {
                    assert(validator_set::key_less(entries[0].0, entries[j - 1].0));
                    lemma_trans(key, first.0, entries[j - 1].0, 0);
                }
            }
            assert forall|i: int| 0 <= i < after.len() implies (#[trigger] after[i]).0 == key
                || exists|j: int|
                0 <= j < entries.len() && (#[trigger] entries[j]).0 == after[i].0 by {
                if i > 0 {
                    assert(entries[i - 1].0 == after[i].0);
                }
            }
        } else {
            lemma_put_in_order(rest, key, power);
            let tail = validator_set::put_entry(rest, key, power);
            assert(after =~= seq![first] + tail);
            lemma_total(key, first.0, 0);
            assert(validator_set::key_less(first.0, key));
            assert forall|i: int, j: int| 0 <= i < j < after.len() implies validator_set::key_less(
                (#[trigger] after[i]).0,
                (#[trigger] after[j]).0,
            ) by {
                assert(after[j] == tail[j - 1]);
                if i > 0 {
                    assert(after[i] == tail[i - 1]);
                } else if tail[j - 1].0 != key {
                    let k = choose|k: int|
                        0 <= k < rest.len() && (#[trigger] rest[k]).0 == tail[j - 1].0;
                    assert(rest[k] == entries[k + 1]);
                    assert(validator_set::key_less(entries[0].0, entries[k + 1].0));
                }
            }
            assert forall|i: int| 0 <= i < after.len() implies (#[trigger] after[i]).0 == key
                || exists|j: int|
                0 <= j < entries.len() && (#[trigger] entries[j]).0 == after[i].0 by {
                if i == 0 {
                    assert(entries[0].0 == after[0].0);
                } else if tail[i - 1].0 != key {
                    assert(after[i] == tail[i - 1]);
                    let k = choose|k: int|
                        0 <= k < rest.len() && (#[trigger] rest[k]).0 == tail[i - 1].0;
                    assert(entries[k + 1].0 == after[i].0);
                } else {
                    assert(after[i] == tail[i - 1]);
                }
            }
        }
    }
}

/// Where a validator is removed, the others keep their order.
proof fn lemma_remove_in_order(entries: Seq<(VerifyingKey, Power)>, key: VerifyingKey)
    requires
        in_order(entries),
    ensures
        in_order(validator_set::remove_entry(entries, key)),
        forall|i: int|
            0 <= i < validator_set::remove_entry(entries, key).len() ==> exists|j: int|
                0 <= j < entries.len() && #[trigger] entries[j]
                    == #[trigger] validator_set::remove_entry(entries, key)[i],
    decreases entries.len(),
{
    let after = validator_set::remove_entry(entries, key);
    if entries.len() > 0 {
        let fewer = entries.drop_last();
        let last = entries.last();
        let n = fewer.len() as int;
        assert(in_order(fewer)) by {
            assert forall|i: int, j: int| 0 <= i < j < fewer.len() implies validator_set::key_less(
                (#[trigger] fewer[i]).0,
                (#[trigger] fewer[j]).0,
            ) by {
                assert(fewer[i] == entries[i] && fewer[j] == entries[j]);
            }
        }
        lemma_remove_in_order(fewer, key);
        let some = validator_set::remove_entry(fewer, key);
        assert forall|i: int, j: int| 0 <= i < j < after.len() implies validator_set::key_less(
            (#[trigger] after[i]).0,
            (#[trigger] after[j]).0,
        ) by {
            assert(after[i] == some[i]);
            if j < some.len() {
                assert(after[j] == some[j]);
            } else {
                let k = choose|k: int| 0 <= k < fewer.len() && #[trigger] fewer[k] == some[i];
                assert(fewer[k] == entries[k]);
                assert(entries[n] == last);
                assert(validator_set::key_less(entries[k].0, entries[n].0));
            }
        }
        assert forall|i: int| 0 <= i < after.len() implies exists|j: int|
            0 <= j < entries.len() && #[trigger] entries[j] == #[trigger] after[i] by {
            if i < some.len() {
                assert(after[i] == some[i]);
                let k = choose|k: int| 0 <= k < fewer.len() && #[trigger] fewer[k] == some[i];
                assert(entries[k] == after[i]);
            } else {
                assert(entries[n] == after[i]);
            }
        }
    }
}

proof fn lemma_put_all_in_order(
    entries: Seq<(VerifyingKey, Power)>,
    inserts: Seq<(VerifyingKey, Power)>,
)
    requires
        in_order(entries),
    ensures
        in_order(validator_set::put_entries(entries, inserts)),
    decreases inserts.len(),
{
    if inserts.len() > 0 {
        lemma_put_all_in_order(entries, inserts.drop_last());
        lemma_put_in_order(
            validator_set::put_entries(entries, inserts.drop_last()),
            inserts.last().0,
            inserts.last().1,
        );
    }
}

proof fn lemma_remove_all_in_order(
    entries: Seq<(VerifyingKey, Power)>,
    deletes: Seq<VerifyingKey>,
)
    requires
        in_order(entries),
    ensures
        in_order(validator_set::remove_entries(entries, deletes)),
    decreases deletes.len(),
{
    if deletes.len() > 0 {
        lemma_remove_all_in_order(entries, deletes.drop_last());
        lemma_remove_in_order(
            validator_set::remove_entries(entries, deletes.drop_last()),
            deletes.last(),
        );
    }
}

/// Validators that are listed in the order of their keys, each once, stay so whatever updates are
/// applied: the place of a validator depends on who the validators are, and not on how they came to
/// be.
pub proof fn law_validators_stay_in_order(
    entries: Seq<(VerifyingKey, Power)>,
    updates: ValidatorSetUpdates,
)
    requires
        in_order(entries),
    ensures
        in_order(validator_set::updated_entries(entries, updates)),
{
    lemma_put_all_in_order(entries, updates.inserts@);
    lemma_remove_all_in_order(
        validator_set::put_entries(entries, updates.inserts@),
        updates.deletes@,
    );
}

/// Leaving out a key leaves the others.
proof fn lemma_without_key(keys: Seq<VerifyingKey>, key: VerifyingKey, other: VerifyingKey)
    ensures
        validator_set::without_key(keys, key).contains(other) <==> keys.contains(other) && other
            != key,
    decreases keys.len(),
{
    let after = validator_set::without_key(keys, key);
    if keys.len() > 0 {
        let fewer = keys.drop_last();
        let n = fewer.len() as int;
        lemma_without_key(fewer, key, other);
        let before = validator_set::without_key(fewer, key);
        assert(keys[n] == keys.last());
        if after.contains(other) {
            let i = choose|i: int| 0 <= i < after.len() && after[i] == other;
            if i < before.len() {
                assert(before[i] == other);
                let j = choose|j: int| 0 <= j < fewer.len() && fewer[j] == other;
                assert(keys[j] == other);
            } else {
                assert(keys[n] == other);
            }
        }
        if keys.contains(other) && other != key {
            let j = choose|j: int| 0 <= j < keys.len() && keys[j] == other;
            if j < n {
                assert(fewer[j] == other);
                let i = choose|i: int| 0 <= i < before.len() && before[i] == other;
                assert(after[i] == other);
            } else {
                assert(after[before.len() as int] == other);
            }
        }
    }
}

/// Updates that are put together by giving a validator a power, or removing it, say just that of the
/// validator, whatever they said of it before, and say of every other what they said: `given` are
/// updates after giving `key` the power `power`, and `removed` after removing it.
pub proof fn law_later_updates_replace_earlier_ones(
    updates: ValidatorSetUpdates,
    given: ValidatorSetUpdates,
    removed: ValidatorSetUpdates,
    key: VerifyingKey,
    power: Power,
    other: VerifyingKey,
)
    requires
        given.inserts@ == validator_set::remove_entry(updates.inserts@, key).push((key, power)),
        given.deletes@ == validator_set::without_key(updates.deletes@, key),
        removed.inserts@ == validator_set::remove_entry(updates.inserts@, key),
        removed.deletes@ == validator_set::without_key(updates.deletes@, key).push(key),
    ensures
        validator_set::power_of(given.inserts@, key) == Some(power),
        !given.deletes@.contains(key),
        validator_set::power_of(removed.inserts@, key) is None,
        removed.deletes@.contains(key),
        other != key ==> {
            &&& validator_set::power_of(given.inserts@, other) == validator_set::power_of(
                updates.inserts@,
                other,
            )
            &&& validator_set::power_of(removed.inserts@, other) == validator_set::power_of(
                updates.inserts@,
                other,
            )
            &&& given.deletes@.contains(other) == updates.deletes@.contains(other)
            &&& removed.deletes@.contains(other) == updates.deletes@.contains(other)
        },
{
    let rest = validator_set::remove_entry(updates.inserts@, key);
    let kept = validator_set::without_key(updates.deletes@, key);
    lemma_remove(updates.inserts@, key, other);
    lemma_power_of_push(rest, (key, power), key);
    lemma_power_of_push(rest, (key, power), other);
    lemma_without_key(updates.deletes@, key, key);
    lemma_without_key(updates.deletes@, key, other);
    assert(kept.push(key)[kept.len() as int] == key);
    if kept.contains(other) {
        let i = choose|i: int| 0 <= i < kept.len() && kept[i] == other;
        assert(kept.push(key)[i] == other);
    }
}

} // verus!
