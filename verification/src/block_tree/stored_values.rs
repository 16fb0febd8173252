//! How the values that the block tree stores are written as bytes and read back.

use vstd::prelude::*;

use std::sync::Arc;

use crate::block_tree::write_batch::EvidenceEntry;
use crate::hotstuff::reputation::{LeaderReputation, LeaderReputationEntry};
use crate::types::data_types::{
    BlockHeight, Bytes, CryptoHash, DataLen, Power, VerifyingKey, ViewNumber,
};
use crate::types::update_sets::AppStateUpdates;
use crate::types::validator_set::{ValidatorSetUpdates, ValidatorSetUpdatesStatus};
use crate::wire;
use crate::wire::{get_vector, is_vector_encodable, put_vector, Wire};

verus! {

impl Wire for [u8; 32] {
    open spec fn encoding(&self) -> Seq<u8> {
        (CryptoHash { bytes: *self }).encoding()
    }

    open spec fn fits(&self) -> bool {
        (CryptoHash { bytes: *self }).fits()
    }

    open spec fn says_same(&self, other: &Self) -> bool {
        self@ == other@
    }

    proof fn lemma_unique(a: Self, ra: Seq<u8>, b: Self, rb: Seq<u8>) {
        CryptoHash::lemma_unique((CryptoHash { bytes: a }), ra, (CryptoHash { bytes: b }), rb);
    }

    fn is_encodable(&self) -> (r: bool) {
        true
    }

    fn put(&self, out: &mut Vec<u8>) {
        CryptoHash { bytes: *self }.put(out);
    }

    fn get(bytes: &Vec<u8>, at: usize) -> (r: Option<(Self, usize)>) {
        match CryptoHash::get(bytes, at) {
            Some((hash, next)) => Some((hash.bytes, next)),
            None => {
                assert forall|value: [u8; 32], rest: Seq<u8>| value.fits() implies bytes@.skip(
                    at as int,
                ) != #[trigger] (value.encoding() + rest) by {
                    assert(value.encoding() + rest == (CryptoHash { bytes: value }).encoding() + rest);
                }
                None
            },
        }
    }
}

impl Wire for VerifyingKey {
    open spec fn encoding(&self) -> Seq<u8> {
        (CryptoHash { bytes: self.bytes }).encoding()
    }

    open spec fn fits(&self) -> bool {
        (CryptoHash { bytes: self.bytes }).fits()
    }

    open spec fn says_same(&self, other: &Self) -> bool {
        self == other
    }

    proof fn lemma_unique(a: Self, ra: Seq<u8>, b: Self, rb: Seq<u8>) {
        CryptoHash::lemma_unique((CryptoHash { bytes: a.bytes }), ra, (CryptoHash { bytes: b.bytes }), rb);
    }

    fn is_encodable(&self) -> (r: bool) {
        true
    }

    fn put(&self, out: &mut Vec<u8>) {
        CryptoHash { bytes: self.bytes }.put(out);
    }

    fn get(bytes: &Vec<u8>, at: usize) -> (r: Option<(Self, usize)>) {
        match CryptoHash::get(bytes, at) {
            Some((hash, next)) => Some((VerifyingKey { bytes: hash.bytes }, next)),
            None => {
                assert forall|value: VerifyingKey, rest: Seq<u8>| value.fits() implies bytes@.skip(
                    at as int,
                ) != #[trigger] (value.encoding() + rest) by {
                    assert(value.encoding() + rest == (CryptoHash { bytes: value.bytes }).encoding() + rest);
                }
                None
            },
        }
    }
}

impl Wire for Power {
    open spec fn encoding(&self) -> Seq<u8> {
        self.0.encoding()
    }

    open spec fn fits(&self) -> bool {
        self.0.fits()
    }

    open spec fn says_same(&self, other: &Self) -> bool {
        self == other
    }

    proof fn lemma_unique(a: Self, ra: Seq<u8>, b: Self, rb: Seq<u8>) {
        u64::lemma_unique(a.0, ra, b.0, rb);
    }

    fn is_encodable(&self) -> (r: bool) {
        true
    }

    fn put(&self, out: &mut Vec<u8>) {
        self.0.put(out);
    }

    fn get(bytes: &Vec<u8>, at: usize) -> (r: Option<(Self, usize)>) {
        match u64::get(bytes, at) {
            Some((power, next)) => Some((Power(power), next)),
            None => {
                assert forall|value: Power, rest: Seq<u8>| value.fits() implies bytes@.skip(
                    at as int,
                ) != #[trigger] (value.encoding() + rest) by {
                    assert(value.encoding() + rest == value.0.encoding() + rest);
                }
                None
            },
        }
    }
}

impl Wire for BlockHeight {
    open spec fn encoding(&self) -> Seq<u8> {
        self.0.encoding()
    }

    open spec fn fits(&self) -> bool {
        self.0.fits()
    }

    open spec fn says_same(&self, other: &Self) -> bool {
        self == other
    }

    proof fn lemma_unique(a: Self, ra: Seq<u8>, b: Self, rb: Seq<u8>) {
        u64::lemma_unique(a.0, ra, b.0, rb);
    }

    fn is_encodable(&self) -> (r: bool) {
        true
    }

    fn put(&self, out: &mut Vec<u8>) {
        self.0.put(out);
    }

    fn get(bytes: &Vec<u8>, at: usize) -> (r: Option<(Self, usize)>) {
        match u64::get(bytes, at) {
            Some((height, next)) => Some((BlockHeight(height), next)),
            None => {
                assert forall|value: BlockHeight, rest: Seq<u8>| value.fits() implies bytes@.skip(
                    at as int,
                ) != #[trigger] (value.encoding() + rest) by {
                    assert(value.encoding() + rest == value.0.encoding() + rest);
                }
                None
            },
        }
    }
}

impl Wire for ViewNumber {
    open spec fn encoding(&self) -> Seq<u8> {
        self.0.encoding()
    }

    open spec fn fits(&self) -> bool {
        self.0.fits()
    }

    open spec fn says_same(&self, other: &Self) -> bool {
        self == other
    }

    proof fn lemma_unique(a: Self, ra: Seq<u8>, b: Self, rb: Seq<u8>) {
        u64::lemma_unique(a.0, ra, b.0, rb);
    }

    fn is_encodable(&self) -> (r: bool) {
        true
    }

    fn put(&self, out: &mut Vec<u8>) {
        self.0.put(out);
    }

    fn get(bytes: &Vec<u8>, at: usize) -> (r: Option<(Self, usize)>) {
        match u64::get(bytes, at) {
            Some((view, next)) => Some((ViewNumber(view), next)),
            None => {
                assert forall|value: ViewNumber, rest: Seq<u8>| value.fits() implies bytes@.skip(
                    at as int,
                ) != #[trigger] (value.encoding() + rest) by {
                    assert(value.encoding() + rest == value.0.encoding() + rest);
                }
                None
            },
        }
    }
}

impl Wire for DataLen {
    open spec fn encoding(&self) -> Seq<u8> {
        self.0.encoding()
    }

    open spec fn fits(&self) -> bool {
        self.0.fits()
    }

    open spec fn says_same(&self, other: &Self) -> bool {
        self == other
    }

    proof fn lemma_unique(a: Self, ra: Seq<u8>, b: Self, rb: Seq<u8>) {
        u32::lemma_unique(a.0, ra, b.0, rb);
    }

    fn is_encodable(&self) -> (r: bool) {
        true
    }

    fn put(&self, out: &mut Vec<u8>) {
        self.0.put(out);
    }

    fn get(bytes: &Vec<u8>, at: usize) -> (r: Option<(Self, usize)>) {
        match u32::get(bytes, at) {
            Some((len, next)) => Some((DataLen(len), next)),
            None => {
                assert forall|value: DataLen, rest: Seq<u8>| value.fits() implies bytes@.skip(
                    at as int,
                ) != #[trigger] (value.encoding() + rest) by {
                    assert(value.encoding() + rest == value.0.encoding() + rest);
                }
                None
            },
        }
    }
}

impl Wire for LeaderReputationEntry {
    open spec fn encoding(&self) -> Seq<u8> {
        (self.successes, self.total).encoding()
    }

    open spec fn fits(&self) -> bool {
        (self.successes, self.total).fits()
    }

    open spec fn says_same(&self, other: &Self) -> bool {
        self == other
    }

    proof fn lemma_unique(a: Self, ra: Seq<u8>, b: Self, rb: Seq<u8>) {
        <(u32, u32)>::lemma_unique((a.successes, a.total), ra, (b.successes, b.total), rb);
    }

    fn is_encodable(&self) -> (r: bool) {
        true
    }

    fn put(&self, out: &mut Vec<u8>) {
        (self.successes, self.total).put(out);
    }

    fn get(bytes: &Vec<u8>, at: usize) -> (r: Option<(Self, usize)>) {
        match <(u32, u32)>::get(bytes, at) {
            Some(((successes, total), next)) => Some((LeaderReputationEntry { successes, total }, next)),
            None => {
                assert forall|value: LeaderReputationEntry, rest: Seq<u8>| value.fits() implies bytes@.skip(
                    at as int,
                ) != #[trigger] (value.encoding() + rest) by {
                    assert(value.encoding() + rest == (value.successes, value.total).encoding() + rest);
                }
                None
            },
        }
    }
}

impl Wire for Bytes {
    open spec fn encoding(&self) -> Seq<u8> {
        wire::vector_bytes(self@)
    }

    open spec fn fits(&self) -> bool {
        wire::vector_fits(self@)
    }

    open spec fn says_same(&self, other: &Self) -> bool {
        self@ == other@
    }

    proof fn lemma_unique(a: Self, ra: Seq<u8>, b: Self, rb: Seq<u8>) {
        wire::lemma_vector(a@, ra, b@, rb);
        assert forall|i: int| 0 <= i < a@.len() implies a@[i] == b@[i] by {
            assert(a@[i].says_same(&b@[i]));
        }
        assert(a@ =~= b@);
    }

    fn is_encodable(&self) -> (r: bool) {
        is_vector_encodable(&*self.bytes)
    }

    fn put(&self, out: &mut Vec<u8>) {
        put_vector(&*self.bytes, out);
    }

    fn get(bytes: &Vec<u8>, at: usize) -> (r: Option<(Self, usize)>) {
        match get_vector(bytes, at) {
            Some((list, next)) => Some((Bytes::new(list), next)),
            None => {
                assert forall|value: Bytes, rest: Seq<u8>| value.fits() implies bytes@.skip(
                    at as int,
                ) != #[trigger] (value.encoding() + rest) by {
                    assert(value.encoding() + rest == wire::vector_bytes(value@) + rest);
                }
                None
            },
        }
    }
}

/// The parts of a piece of evidence, in the order in which they are written.
pub type EvidenceParts = (u64, (CryptoHash, (CryptoHash, CryptoHash)));

/// The parts of a piece of evidence.
pub open spec fn evidence_parts(entry: EvidenceEntry) -> EvidenceParts {
    (entry.0.0, (CryptoHash { bytes: entry.1 }, (entry.2, entry.3)))
}

impl Wire for EvidenceEntry {
    open spec fn encoding(&self) -> Seq<u8> {
        evidence_parts(*self).encoding()
    }

    open spec fn fits(&self) -> bool {
        true
    }

    open spec fn says_same(&self, other: &Self) -> bool {
        self == other
    }

    proof fn lemma_unique(a: Self, ra: Seq<u8>, b: Self, rb: Seq<u8>) {
        EvidenceParts::lemma_unique(evidence_parts(a), ra, evidence_parts(b), rb);
    }

    fn is_encodable(&self) -> (r: bool) {
        true
    }

    fn put(&self, out: &mut Vec<u8>) {
        let parts: EvidenceParts = (self.0.0, (CryptoHash { bytes: self.1 }, (self.2, self.3)));
        parts.put(out);
    }

    fn get(bytes: &Vec<u8>, at: usize) -> (r: Option<(Self, usize)>) {
        match EvidenceParts::get(bytes, at) {
            Some(((view, (leader, (first, second))), next)) => Some(
                ((ViewNumber(view), leader.bytes, first, second), next),
            ),
            None => {
                assert forall|value: EvidenceEntry, rest: Seq<u8>| value.fits() implies bytes@.skip(
                    at as int,
                ) != #[trigger] (value.encoding() + rest) by {
                    assert(value.encoding() + rest == evidence_parts(value).encoding() + rest);
                }
                None
            },
        }
    }
}

/// The parts of updates to the application state, in the order in which they are written.
pub type AppStateUpdatesParts = (Vec<(Bytes, Bytes)>, Vec<Bytes>);

/// The parts of updates to the application state.
pub open spec fn app_state_updates_parts(updates: AppStateUpdates) -> AppStateUpdatesParts {
    (*updates.inserts, *updates.deletes)
}

impl Wire for AppStateUpdates {
    open spec fn encoding(&self) -> Seq<u8> {
        app_state_updates_parts(*self).encoding()
    }

    open spec fn fits(&self) -> bool {
        app_state_updates_parts(*self).fits()
    }

    open spec fn says_same(&self, other: &Self) -> bool {
        &&& wire::same_vector(self.inserts@, other.inserts@)
        &&& wire::same_vector(self.deletes@, other.deletes@)
    }

    proof fn lemma_unique(a: Self, ra: Seq<u8>, b: Self, rb: Seq<u8>) {
        AppStateUpdatesParts::lemma_unique(
            app_state_updates_parts(a),
            ra,
            app_state_updates_parts(b),
            rb,
        );
    }

    fn is_encodable(&self) -> (r: bool) {
        is_vector_encodable(&*self.inserts) && is_vector_encodable(&*self.deletes)
    }

    fn put(&self, out: &mut Vec<u8>) {
        let ghost before = out@;
        put_vector(&*self.inserts, out);
        put_vector(&*self.deletes, out);
        assert(out@ =~= before + self.encoding());
    }

    fn get(bytes: &Vec<u8>, at: usize) -> (r: Option<(Self, usize)>) {
        match AppStateUpdatesParts::get(bytes, at) {
            Some(((inserts, deletes), next)) => Some(
                (
                    AppStateUpdates { inserts: Arc::new(inserts), deletes: Arc::new(deletes) },
                    next,
                ),
            ),
            None => {
                assert forall|value: AppStateUpdates, rest: Seq<u8>|
                    value.fits() implies bytes@.skip(at as int) != #[trigger] (value.encoding()
                    + rest) by {
                    assert(value.encoding() + rest == app_state_updates_parts(value).encoding()
                        + rest);
                }
                None
            },
        }
    }
}

/// The parts of updates to the validator set, in the order in which they are written.
pub type ValidatorSetUpdatesParts = (Vec<(VerifyingKey, Power)>, Vec<VerifyingKey>);

/// The parts of updates to the validator set.
pub open spec fn validator_set_updates_parts(
    updates: ValidatorSetUpdates,
) -> ValidatorSetUpdatesParts {
    (*updates.inserts, *updates.deletes)
}

impl Wire for ValidatorSetUpdates {
    open spec fn encoding(&self) -> Seq<u8> {
        validator_set_updates_parts(*self).encoding()
    }

    open spec fn fits(&self) -> bool {
        validator_set_updates_parts(*self).fits()
    }

    open spec fn says_same(&self, other: &Self) -> bool {
        &&& wire::same_vector(self.inserts@, other.inserts@)
        &&& wire::same_vector(self.deletes@, other.deletes@)
    }

    proof fn lemma_unique(a: Self, ra: Seq<u8>, b: Self, rb: Seq<u8>) {
        ValidatorSetUpdatesParts::lemma_unique(
            validator_set_updates_parts(a),
            ra,
            validator_set_updates_parts(b),
            rb,
        );
    }

    fn is_encodable(&self) -> (r: bool) {
        is_vector_encodable(&*self.inserts) && is_vector_encodable(&*self.deletes)
    }

    fn put(&self, out: &mut Vec<u8>) {
        let ghost before = out@;
        put_vector(&*self.inserts, out);
        put_vector(&*self.deletes, out);
        assert(out@ =~= before + self.encoding());
    }

    fn get(bytes: &Vec<u8>, at: usize) -> (r: Option<(Self, usize)>) {
        match ValidatorSetUpdatesParts::get(bytes, at) {
            Some(((inserts, deletes), next)) => Some(
                (
                    ValidatorSetUpdates { inserts: Arc::new(inserts), deletes: Arc::new(deletes) },
                    next,
                ),
            ),
            None => {
                assert forall|value: ValidatorSetUpdates, rest: Seq<u8>|
                    value.fits() implies bytes@.skip(at as int) != #[trigger] (value.encoding()
                    + rest) by {
                    assert(value.encoding() + rest == validator_set_updates_parts(
                        value,
                    ).encoding() + rest);
                }
                None
            },
        }
    }
}

/// The byte that tells the status of updates to the validator set.
pub open spec fn status_tag(status: ValidatorSetUpdatesStatus) -> u8 {
    match status {
        ValidatorSetUpdatesStatus::NoUpdates => 0,
        ValidatorSetUpdatesStatus::Pending(_) => 1,
        ValidatorSetUpdatesStatus::Committed => 2,
    }
}

impl Wire for ValidatorSetUpdatesStatus {
    open spec fn encoding(&self) -> Seq<u8> {
        match *self {
            ValidatorSetUpdatesStatus::Pending(updates) => seq![status_tag(*self)]
                + updates.encoding(),
            _ => seq![status_tag(*self)],
        }
    }

    open spec fn fits(&self) -> bool {
        match *self {
            ValidatorSetUpdatesStatus::Pending(updates) => updates.fits(),
            _ => true,
        }
    }

    open spec fn says_same(&self, other: &Self) -> bool {
        match (*self, *other) {
            (
                ValidatorSetUpdatesStatus::Pending(a),
                ValidatorSetUpdatesStatus::Pending(b),
            ) => a.says_same(&b),
            _ => self == other,
        }
    }

    proof fn lemma_unique(a: Self, ra: Seq<u8>, b: Self, rb: Seq<u8>) {
        assert((a.encoding() + ra)[0] == status_tag(a));
        assert((b.encoding() + rb)[0] == status_tag(b));
        match (a, b) {
            (
                ValidatorSetUpdatesStatus::Pending(x),
                ValidatorSetUpdatesStatus::Pending(y),
            ) => {
                assert(a.encoding() + ra =~= seq![1u8] + (x.encoding() + ra));
                assert(b.encoding() + rb =~= seq![1u8] + (y.encoding() + rb));
                wire::lemma_head(seq![1u8], x.encoding() + ra, seq![1u8], y.encoding() + rb);
                ValidatorSetUpdates::lemma_unique(x, ra, y, rb);
            },
            _ => {
                wire::lemma_head(a.encoding(), ra, b.encoding(), rb);
            },
        }
    }

    fn is_encodable(&self) -> (r: bool) {
        match self {
            ValidatorSetUpdatesStatus::Pending(updates) => updates.is_encodable(),
            _ => true,
        }
    }

    fn put(&self, out: &mut Vec<u8>) {
        let ghost before = out@;
        match self {
            ValidatorSetUpdatesStatus::NoUpdates => {
                out.push(0);
            },
            ValidatorSetUpdatesStatus::Pending(updates) => {
                out.push(1);
                updates.put(out);
            },
            ValidatorSetUpdatesStatus::Committed => {
                out.push(2);
            },
        }
        assert(out@ =~= before + self.encoding());
    }

    fn get(bytes: &Vec<u8>, at: usize) -> (r: Option<(Self, usize)>) {
        let ghost all = bytes@.skip(at as int);
        assert forall|value: ValidatorSetUpdatesStatus, rest: Seq<u8>|
            all == #[trigger] (value.encoding() + rest) implies all.len() > 0 && all[0]
            == status_tag(value) by {
            assert((value.encoding() + rest)[0] == status_tag(value));
        }
        if bytes.len() - at < 1 {
            return None;
        }
        let tag: u8 = bytes[at];
        let next: usize = at + 1;
        assert(all =~= seq![tag] + bytes@.skip(next as int));
        if tag == 0 {
            let status = ValidatorSetUpdatesStatus::NoUpdates;
            assert(all =~= status.encoding() + bytes@.skip(next as int));
            return Some((status, next));
        }
        if tag == 2 {
            let status = ValidatorSetUpdatesStatus::Committed;
            assert(all =~= status.encoding() + bytes@.skip(next as int));
            return Some((status, next));
        }
        if tag != 1 {
            return None;
        }
        match ValidatorSetUpdates::get(bytes, next) {
            Some((updates, end)) => {
                let status = ValidatorSetUpdatesStatus::Pending(updates);
                let ghost rest = bytes@.skip(end as int);
                assert(seq![1u8] + (updates.encoding() + rest) =~= (seq![1u8] + updates.encoding())
                    + rest);
                assert(status.encoding() == seq![1u8] + updates.encoding());
                Some((status, end))
            },
            None => {
                assert forall|value: ValidatorSetUpdatesStatus, rest: Seq<u8>|
                    value.fits() implies all != #[trigger] (value.encoding() + rest) by {
                    if all == value.encoding() + rest {
                        let updates = value->Pending_0;
                        assert(value.encoding() == seq![1u8] + updates.encoding());
                        assert(value.encoding() + rest =~= seq![1u8] + (updates.encoding() + rest));
                        wire::lemma_head(
                            seq![tag],
                            bytes@.skip(next as int),
                            seq![1u8],
                            updates.encoding() + rest,
                        );
                    }
                }
                None
            },
        }
    }
}

/// The parts of leader records, in the order in which they are written.
pub type LeaderReputationParts = (Vec<([u8; 32], LeaderReputationEntry)>, u32);

/// The parts of leader records.
pub open spec fn leader_reputation_parts(reputation: LeaderReputation) -> LeaderReputationParts {
    (*reputation.entries, reputation.window_size)
}

impl Wire for LeaderReputation {
    open spec fn encoding(&self) -> Seq<u8> {
        leader_reputation_parts(*self).encoding()
    }

    open spec fn fits(&self) -> bool {
        leader_reputation_parts(*self).fits()
    }

    open spec fn says_same(&self, other: &Self) -> bool {
        &&& wire::same_vector(self.entries@, other.entries@)
        &&& self.window_size == other.window_size
    }

    proof fn lemma_unique(a: Self, ra: Seq<u8>, b: Self, rb: Seq<u8>) {
        LeaderReputationParts::lemma_unique(
            leader_reputation_parts(a),
            ra,
            leader_reputation_parts(b),
            rb,
        );
    }

    fn is_encodable(&self) -> (r: bool) {
        is_vector_encodable(&*self.entries)
    }

    fn put(&self, out: &mut Vec<u8>) {
        let ghost before = out@;
        put_vector(&*self.entries, out);
        self.window_size.put(out);
        assert(out@ =~= before + self.encoding());
    }

    fn get(bytes: &Vec<u8>, at: usize) -> (r: Option<(Self, usize)>) {
        match LeaderReputationParts::get(bytes, at) {
            Some(((entries, window_size), next)) => Some(
                (LeaderReputation { entries: Arc::new(entries), window_size }, next),
            ),
            None => {
                assert forall|value: LeaderReputation, rest: Seq<u8>|
                    value.fits() implies bytes@.skip(at as int) != #[trigger] (value.encoding()
                    + rest) by {
                    assert(value.encoding() + rest == leader_reputation_parts(value).encoding()
                        + rest);
                }
                None
            },
        }
    }
}

} // verus!
