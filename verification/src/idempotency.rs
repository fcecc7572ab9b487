//! The idempotency store: for each pair of actor and idempotency key, the
//! response that the first execution of a command produced.

use vstd::prelude::*;
use crate::response::{ResponseView, SavedResponse};

verus! {

/// The response saved for one pair of actor and idempotency key.
#[derive(Debug)]
pub struct IdempotencyRecord {
    pub actor_id: u64,
    pub idempotency_key: String,
    pub saved_response: SavedResponse,
    pub created_at: u64,
}

/// What an [`IdempotencyRecord`] holds, as mathematical values.
#[verifier::ext_equal]
pub struct RecordView {
    pub actor_id: u64,
    pub idempotency_key: Seq<char>,
    pub saved_response: ResponseView,
    pub created_at: u64,
}

/// What is kept under a key of the store.
#[verifier::ext_equal]
pub struct SavedOutcome {
    pub response: ResponseView,
    pub created_at: u64,
}

/// A key of the store: the actor and the idempotency key that the actor chose.
pub type StoreKey = (u64, Seq<char>);

impl RecordView {
    /// The key under which the record is kept.
    pub open spec fn key(self) -> StoreKey {
        (self.actor_id, self.idempotency_key)
    }

    /// What the record keeps under its key.
    pub open spec fn outcome(self) -> SavedOutcome {
        SavedOutcome { response: self.saved_response, created_at: self.created_at }
    }
}

impl View for IdempotencyRecord {
    type V = RecordView;

    open spec fn view(&self) -> RecordView {
        RecordView {
            actor_id: self.actor_id,
            idempotency_key: self.idempotency_key@,
            saved_response: self.saved_response@,
            created_at: self.created_at,
        }
    }
}

impl Clone for IdempotencyRecord {
    fn clone(&self) -> (copy: Self)
        ensures
            copy@ == self@,
    {
        IdempotencyRecord {
            actor_id: self.actor_id,
            idempotency_key: self.idempotency_key.clone(),
            saved_response: self.saved_response.clone(),
            created_at: self.created_at,
        }
    }
}

/// The views of a list of records, in order.
pub open spec fn record_views(records: Seq<IdempotencyRecord>) -> Seq<RecordView> {
    Seq::new(records.len(), |i: int| records[i]@)
}

/// No two records of the list have the same key.
pub open spec fn distinct_keys(records: Seq<RecordView>) -> bool {
    forall|i: int, j: int|
        0 <= i < j < records.len() ==> (#[trigger] records[i]).key() != (#[trigger] records[j]).key()
}

/// Some record of the list has the key.
pub open spec fn has_key(records: Seq<RecordView>, key: StoreKey) -> bool {
    exists|i: int| 0 <= i < records.len() && (#[trigger] records[i]).key() == key
}

/// The place of a record with the key, where the list has one.
pub open spec fn place_of(records: Seq<RecordView>, key: StoreKey) -> int {
    choose|i: int| 0 <= i < records.len() && (#[trigger] records[i]).key() == key
}

/// The list of records read as a map from keys to saved outcomes.
pub open spec fn as_map(records: Seq<RecordView>) -> Map<StoreKey, SavedOutcome> {
    Map::new(
        |key: StoreKey| has_key(records, key),
        |key: StoreKey| records[place_of(records, key)].outcome(),
    )
}

/// In a list without repeated keys, a key is found where its record stands.
pub proof fn lemma_place_of(records: Seq<RecordView>, i: int)
    requires
        distinct_keys(records),
        0 <= i < records.len(),
    ensures
        has_key(records, records[i].key()),
        place_of(records, records[i].key()) == i,
        as_map(records).dom().contains(records[i].key()),
        as_map(records)[records[i].key()] == records[i].outcome(),
{
    let key = records[i].key();
    assert(has_key(records, key));
    let p = place_of(records, key);
    assert(0 <= p < records.len() && records[p].key() == key);
    if p < i {
        assert(records[p].key() != records[i].key());
    } else if i < p {
        assert(records[i].key() != records[p].key());
    }
}

/// Appending a record with a new key adds exactly that key to the map.
pub proof fn lemma_push_inserts(records: Seq<RecordView>, record: RecordView)
    requires
        distinct_keys(records),
        !has_key(records, record.key()),
    ensures
        distinct_keys(records.push(record)),
        as_map(records.push(record)) == as_map(records).insert(record.key(), record.outcome()),
{
    let longer = records.push(record);
    assert forall|i: int, j: int| 0 <= i < j < longer.len() implies (#[trigger] longer[i]).key()
        != (#[trigger] longer[j]).key() by {
        if j < records.len() {
            assert(records[i].key() != records[j].key());
        } else {
            assert(longer[i] == records[i]);
            if records[i].key() == record.key() {
                assert(has_key(records, record.key()));
            }
        }
    }
    let grown = as_map(records).insert(record.key(), record.outcome());
    assert forall|key: StoreKey| as_map(longer).dom().contains(key) <==> grown.dom().contains(
        key,
    ) by {
        if has_key(longer, key) {
            let p = place_of(longer, key);
            if p < records.len() {
                assert(records[p].key() == key);
            }
        }
        if has_key(records, key) {
            let p = place_of(records, key);
            assert(longer[p].key() == key);
        }
        if key == record.key() {
            assert(longer[records.len() as int].key() == key);
        }
    }
    assert forall|key: StoreKey| as_map(longer).dom().contains(key) implies as_map(longer)[key]
        == grown[key] by {
        let p = place_of(longer, key);
        lemma_place_of(longer, p);
        if p < records.len() {
            assert(records[p].key() == key);
            lemma_place_of(records, p);
        }
    }
    assert(as_map(longer) =~= grown);
}

/// Why a response could not be saved.
#[derive(Debug, PartialEq, Eq, Structural, Clone, Copy)]
pub enum SaveError {
    /// Another writer has already saved a response under the same key.
    Conflict,
}

/// The saved responses, at most one for each pair of actor and key.
pub struct IdempotencyStore {
    records: Vec<IdempotencyRecord>,
}

impl View for IdempotencyStore {
    type V = Map<StoreKey, SavedOutcome>;

    closed spec fn view(&self) -> Map<StoreKey, SavedOutcome> {
        as_map(record_views(self.records@))
    }
}

impl IdempotencyStore {
    /// No key is kept twice.
    pub closed spec fn wf(&self) -> bool {
        distinct_keys(record_views(self.records@))
    }

    /// The number of records kept.
    pub closed spec fn count(&self) -> nat {
        self.records@.len()
    }

    /// A store that holds nothing.
    pub fn new() -> (store: Self)
        ensures
            store.wf(),
            store@ == Map::<StoreKey, SavedOutcome>::empty(),
            store.count() == 0,
    {
        let store = IdempotencyStore { records: Vec::new() };
        assert(store@ =~= Map::<StoreKey, SavedOutcome>::empty());
        store
    }

    /// The number of records kept.
    pub fn len(&self) -> (n: usize)
        requires
            self.wf(),
        ensures
            n == self.count(),
            n == self@.dom().len(),
            self@.dom().finite(),
    {
        proof {
            lemma_count(record_views(self.records@));
        }
        self.records.len()
    }

    fn find(&self, actor_id: u64, key: &String) -> (found: Option<usize>)
        requires
            self.wf(),
        ensures
            found is Some <==> self@.dom().contains((actor_id, key@)),
            found matches Some(i) ==> i < self.records@.len() && self.records@[i as int]@.key() == (
                actor_id,
                key@,
            ),
    {
        let ghost views = record_views(self.records@);
        let mut i: usize = 0;
        while i < self.records.len()
            invariant
                i <= self.records.len(),
                views == record_views(self.records@),
                forall|j: int| 0 <= j < i ==> (#[trigger] views[j]).key() != (actor_id, key@),
            decreases self.records.len() - i,
        {
            let record = &self.records[i];
            if record.actor_id == actor_id && record.idempotency_key == *key {
                assert(views[i as int] == self.records@[i as int]@);
                assert(has_key(views, (actor_id, key@)));
                return Some(i);
            }
            assert(views[i as int] == self.records@[i as int]@);
            i = i + 1;
        }
        None
    }

    /// Whether a response is saved for the actor and key.
    pub fn contains(&self, actor_id: u64, key: &String) -> (found: bool)
        requires
            self.wf(),
        ensures
            found == self@.dom().contains((actor_id, key@)),
    {
        self.find(actor_id, key).is_some()
    }

    /// The response saved for the actor and key, or `None` where the pair has
    /// not been seen.
    pub fn check(&self, actor_id: u64, key: &String) -> (saved: Option<SavedResponse>)
        requires
            self.wf(),
        ensures
            saved is Some <==> self@.dom().contains((actor_id, key@)),
            saved matches Some(response) ==> response@ == self@[(actor_id, key@)].response,
    {
        match self.find(actor_id, key) {
            Some(i) => {
                proof {
                    let views = record_views(self.records@);
                    assert(views[i as int] == self.records@[i as int]@);
                    lemma_place_of(views, i as int);
                }
                Some(self.records[i].saved_response.clone())
            },
            None => None,
        }
    }

    /// When the response for the actor and key was saved, or `None` where
    /// the pair has not been seen.
    pub fn saved_at(&self, actor_id: u64, key: &String) -> (at: Option<u64>)
        requires
            self.wf(),
        ensures
            at is Some <==> self@.dom().contains((actor_id, key@)),
            at matches Some(t) ==> t == self@[(actor_id, key@)].created_at,
    {
        match self.find(actor_id, key) {
            Some(i) => {
                proof {
                    let views = record_views(self.records@);
                    assert(views[i as int] == self.records@[i as int]@);
                    lemma_place_of(views, i as int);
                }
                Some(self.records[i].created_at)
            },
            None => None,
        }
    }

    /// Keeps the record unless its key is taken. A record that is kept is
    /// never changed afterwards: a second write under its key is refused with
    /// [`SaveError::Conflict`] and leaves the store as it was.
    pub(crate) fn insert(&mut self, record: IdempotencyRecord) -> (result: Result<(), SaveError>)
        requires
            old(self).wf(),
        ensures
            final(self).wf(),
            result is Ok <==> !old(self)@.dom().contains(record@.key()),
            result is Ok ==> final(self)@ == old(self)@.insert(record@.key(), record@.outcome()),
            result is Err ==> final(self)@ == old(self)@,
            result is Err ==> result == Err::<(), SaveError>(SaveError::Conflict),
    {
        if self.find(record.actor_id, &record.idempotency_key).is_some() {
            return Err(SaveError::Conflict);
        }
        proof {
            lemma_push_inserts(record_views(self.records@), record@);
            assert(record_views(self.records@.push(record)) =~= record_views(self.records@).push(
                record@,
            ));
        }
        self.records.push(record);
        Ok(())
    }
}

/// A list of records without repeated keys has as many keys as records.
pub proof fn lemma_count(records: Seq<RecordView>)
    requires
        distinct_keys(records),
    ensures
        as_map(records).dom().finite(),
        as_map(records).dom().len() == records.len(),
    decreases records.len(),
{
    if records.len() == 0 {
        assert(as_map(records).dom() =~= Set::<StoreKey>::empty());
    } else {
        let front = records.drop_last();
        let last = records.last();
        assert forall|i: int, j: int| 0 <= i < j < front.len() implies (#[trigger] front[i]).key()
            != (#[trigger] front[j]).key() by {
            assert(records[i].key() != records[j].key());
        }
        lemma_count(front);
        if has_key(front, last.key()) {
            let p = place_of(front, last.key());
            assert(records[p].key() != records[records.len() - 1].key());
        }
        lemma_push_inserts(front, last);
        assert(front.push(last) =~= records);
    }
}

} // verus!
