//! The record store: a map from keys to values under a memory ceiling.

use crate::config::StorageConfig;
use crate::snapshot::{
    json_error_text, json_of_pairs, no_key_twice, pairs_from_json, pairs_of_json, pairs_to_json,
    pairs_view, records_of, SnapshotError,
};
use vstd::hash_map::StringHashMap;
use vstd::prelude::*;
use vstd::utf8::encode_utf8;

verus! {

/// The bytes that one record is charged: the length of its key plus the
/// length of its value, both as UTF-8.
pub open spec fn record_size(key: Seq<char>, value: Seq<char>) -> nat {
    encode_utf8(key).len() + encode_utf8(value).len()
}

/// The summed size of all records of `records`.
pub open spec fn total_size(records: Map<Seq<char>, Seq<char>>) -> nat
    decreases records.dom().len(),
    when records.dom().finite()
{
    if records.dom().len() == 0 {
        0
    } else {
        let key = records.dom().choose();
        record_size(key, records[key]) + total_size(records.remove(key))
    }
}

/// Whether a store with the records `records` and the ceiling `ceiling`
/// takes the record `key` to `value`: what `key` held before is given up
/// first, and the new total must not be above the ceiling.
pub open spec fn admits(
    records: Map<Seq<char>, Seq<char>>,
    ceiling: nat,
    key: Seq<char>,
    value: Seq<char>,
) -> bool {
    total_size(records.remove(key)) + record_size(key, value) <= ceiling
}

/// The records after an attempt to write `key` to `value`: written where
/// the store admits the record, untouched where it does not.
pub open spec fn written(
    records: Map<Seq<char>, Seq<char>>,
    ceiling: nat,
    key: Seq<char>,
    value: Seq<char>,
) -> Map<Seq<char>, Seq<char>> {
    if admits(records, ceiling, key, value) {
        records.insert(key, value)
    } else {
        records
    }
}

/// The total is the size of any one record plus the total of the others.
pub proof fn lemma_total_size_remove(records: Map<Seq<char>, Seq<char>>, key: Seq<char>)
    requires
        records.dom().finite(),
        records.contains_key(key),
    ensures
        total_size(records) == record_size(key, records[key]) + total_size(records.remove(key)),
    decreases records.dom().len(),
{
    let chosen = records.dom().choose();
    assert(records.dom().len() != 0) by {
        if records.dom().len() == 0 {
            records.dom().lemma_len0_is_empty();
        }
    }
    if chosen != key {
        let without_chosen = records.remove(chosen);
        let without_key = records.remove(key);
        assert(records.dom().contains(chosen)) by {
            vstd::set::axiom_set_choose_len(records.dom());
        }
        lemma_total_size_remove(without_chosen, key);
        lemma_total_size_remove(without_key, chosen);
        assert(without_chosen.remove(key) =~= without_key.remove(chosen));
    }
}

/// Writing a record replaces what its key was charged by the size of the
/// new record.
pub proof fn lemma_total_size_insert(
    records: Map<Seq<char>, Seq<char>>,
    key: Seq<char>,
    value: Seq<char>,
)
    requires
        records.dom().finite(),
    ensures
        total_size(records.insert(key, value)) == total_size(records.remove(key)) + record_size(
            key,
            value,
        ),
{
    let after = records.insert(key, value);
    lemma_total_size_remove(after, key);
    assert(after.remove(key) =~= records.remove(key));
}

/// The total of an empty store is zero, and taking a record away never
/// raises the total.
pub proof fn lemma_total_size_bounds(records: Map<Seq<char>, Seq<char>>, key: Seq<char>)
    requires
        records.dom().finite(),
    ensures
        total_size(Map::<Seq<char>, Seq<char>>::empty()) == 0,
        total_size(records.remove(key)) <= total_size(records),
        !records.contains_key(key) ==> records.remove(key) == records,
{
    if records.contains_key(key) {
        lemma_total_size_remove(records, key);
    } else {
        assert(records.remove(key) =~= records);
    }
}

/// Pairs with distinct keys stand for exactly themselves as records.
pub proof fn lemma_records_of_distinct(pairs: Seq<(Seq<char>, Seq<char>)>)
    requires
        no_key_twice(pairs),
    ensures
        records_of(pairs).dom().finite(),
        forall|i: int|
            0 <= i < pairs.len() ==> records_of(pairs).contains_key((#[trigger] pairs[i]).0)
                && records_of(pairs)[pairs[i].0] == pairs[i].1,
        forall|k: Seq<char>| #[trigger]
            records_of(pairs).contains_key(k) ==> exists|i: int|
                0 <= i < pairs.len() && (#[trigger] pairs[i]).0 == k,
    decreases pairs.len(),
{
    if pairs.len() > 0 {
        let front = pairs.drop_last();
        let last = pairs.last();
        assert(no_key_twice(front)) by {
            assert forall|i: int, j: int| 0 <= i < j < front.len() implies (#[trigger] front[i]).0
                != (#[trigger] front[j]).0 by {
                assert(front[i] == pairs[i] && front[j] == pairs[j]);
            }
        }
        lemma_records_of_distinct(front);
        assert forall|i: int| 0 <= i < pairs.len() implies records_of(pairs).contains_key(
            (#[trigger] pairs[i]).0,
        ) && records_of(pairs)[pairs[i].0] == pairs[i].1 by {
            if i < pairs.len() - 1 {
                assert(front[i] == pairs[i]);
                assert(pairs[i].0 != pairs[pairs.len() - 1].0);
            }
        }
        assert forall|k: Seq<char>| #[trigger] records_of(pairs).contains_key(k) implies exists|
            i: int,
        |
            0 <= i < pairs.len() && (#[trigger] pairs[i]).0 == k by {
            if k == last.0 {
                assert(pairs[pairs.len() - 1].0 == k);
            } else {
                assert(records_of(front).contains_key(k));
                let i = choose|i: int| 0 <= i < front.len() && (#[trigger] front[i]).0 == k;
                assert(pairs[i].0 == k);
            }
        }
    }
}

/// Whether the running total stays countable on this machine while
/// `pairs` are written one after the other.
pub open spec fn loadable(pairs: Seq<(Seq<char>, Seq<char>)>) -> bool {
    forall|n: int|
        0 <= n <= pairs.len() ==> total_size(records_of(#[trigger] pairs.subrange(0, n)))
            <= usize::MAX
}

/// The in-memory store.
pub struct Storage {
    data: StringHashMap<String>,
    /// Every key of `data`, once, in the order in which the keys came.
    keys: Vec<String>,
    config: StorageConfig,
    current_memory: usize,
}

impl View for Storage {
    type V = Map<Seq<char>, Seq<char>>;

    /// The records: each key with its value.
    closed spec fn view(&self) -> Map<Seq<char>, Seq<char>> {
        Map::new(|k: Seq<char>| self.data@.contains_key(k), |k: Seq<char>| self.data@[k]@)
    }
}

impl Storage {
    /// The invariant of the store: it holds finitely many records, its
    /// running total is their summed size, and its list of keys names each
    /// record once.
    pub closed spec fn wf(&self) -> bool {
        &&& self.data@.dom().finite()
        &&& self.current_memory == total_size(self@)
        &&& forall|i: int|
            0 <= i < self.keys@.len() ==> self.data@.contains_key((#[trigger] self.keys@[i])@)
        &&& forall|i: int, j: int|
            0 <= i < j < self.keys@.len() ==> (#[trigger] self.keys@[i])@ != (
            #[trigger] self.keys@[j])@
        &&& forall|k: Seq<char>| #[trigger]
            self.data@.contains_key(k) ==> exists|i: int|
                0 <= i < self.keys@.len() && (#[trigger] self.keys@[i])@ == k
    }

    /// The records as pairs, in the order in which their keys came.
    pub closed spec fn listing(&self) -> Seq<(Seq<char>, Seq<char>)> {
        Seq::new(self.keys@.len(), |i: int| (self.keys@[i]@, self.data@[self.keys@[i]@]@))
    }

    /// The listing of a well-formed store holds each record once.
    pub proof fn lemma_listing(&self)
        requires
            self.wf(),
        ensures
            no_key_twice(self.listing()),
            records_of(self.listing()) == self@,
    {
        let pairs = self.listing();
        assert(no_key_twice(pairs));
        lemma_records_of_distinct(pairs);
        assert forall|k: Seq<char>| records_of(pairs).contains_key(k) implies self@.contains_key(
            k,
        ) by {
            let i = choose|i: int| 0 <= i < pairs.len() && (#[trigger] pairs[i]).0 == k;
            assert(self.data@.contains_key(self.keys@[i]@));
        }
        assert forall|k: Seq<char>| #[trigger] self@.contains_key(k) implies records_of(
            pairs,
        ).contains_key(k) && records_of(pairs)[k] == self@[k] by {
            let i = choose|i: int| 0 <= i < self.keys@.len() && (#[trigger] self.keys@[i])@ == k;
            assert(pairs[i].0 == k);
            assert(pairs[i].1 == self.data@[k]@);
            assert(records_of(pairs)[pairs[i].0] == pairs[i].1);
        }
        assert forall|k: Seq<char>| records_of(pairs).dom().contains(k) == self@.dom().contains(
            k,
        ) by {
            assert(records_of(pairs).contains_key(k) ==> self@.contains_key(k));
            assert(self@.contains_key(k) ==> records_of(pairs).contains_key(k));
        }
        assert(records_of(pairs).dom() =~= self@.dom());
        assert(records_of(pairs) =~= self@);
    }

    /// The ceiling on the summed size of the records.
    pub closed spec fn ceiling(&self) -> nat {
        self.config.max_memory as nat
    }

    /// Whether snapshots are enabled.
    pub closed spec fn persistent(&self) -> bool {
        self.config.persistence_enabled
    }

    /// The running total.
    pub closed spec fn used(&self) -> nat {
        self.current_memory as nat
    }

    /// In a well-formed store the running total is the summed size of the
    /// records, and there are finitely many of them.
    pub proof fn lemma_wf(&self)
        requires
            self.wf(),
        ensures
            self.used() == total_size(self@),
            self@.dom().finite(),
    {
        assert(self@.dom() =~= self.data@.dom());
    }

    /// An empty store with the limits of `config`.
    pub fn new(config: StorageConfig) -> (r: Storage)
        ensures
            r.wf(),
            r@ == Map::<Seq<char>, Seq<char>>::empty(),
            r.used() == 0,
            r.ceiling() == config.max_memory,
            r.persistent() == config.persistence_enabled,
    {
        let r = Storage { data: StringHashMap::new(), keys: Vec::new(), config, current_memory: 0 };
        proof {
            assert(r@ =~= Map::<Seq<char>, Seq<char>>::empty());
            lemma_total_size_bounds(r@, Seq::<char>::empty());
        }
        r
    }

    /// Writes the record `key` to `value` unless that would take the total
    /// over the ceiling; what the key held before is not counted against
    /// the new record. A refused write leaves the store as it was.
    pub fn insert(&mut self, key: String, value: String) -> (ok: bool)
        requires
            old(self).wf(),
        ensures
            final(self).wf(),
            final(self).ceiling() == old(self).ceiling(),
            final(self).persistent() == old(self).persistent(),
            ok == admits(old(self)@, old(self).ceiling(), key@, value@),
            final(self)@ == written(old(self)@, old(self).ceiling(), key@, value@),
            final(self).used() == total_size(final(self)@),
            ok ==> final(self).used() == total_size(old(self)@.remove(key@)) + record_size(
                key@,
                value@,
            ),
            !ok ==> final(self).used() == old(self).used(),
    {
        let key_len: usize = key.as_str().as_bytes().len();
        let value_len: usize = value.as_str().as_bytes().len();
        proof {
            assert(self@.dom() =~= self.data@.dom());
            lemma_total_size_bounds(self@, key@);
        }
        let mut known: bool = false;
        let held: usize = match self.data.get(key.as_str()) {
            Some(previous) => {
                proof {
                    lemma_total_size_remove(self@, key@);
                }
                known = true;
                key_len + previous.as_str().as_bytes().len()
            },
            None => 0,
        };
        let base: usize = self.current_memory - held;
        assert(base == total_size(self@.remove(key@)));
        let entry_size: usize = match key_len.checked_add(value_len) {
            Some(n) => n,
            None => { return false; },
        };
        let total: usize = match base.checked_add(entry_size) {
            Some(n) => n,
            None => { return false; },
        };
        if total > self.config.max_memory {
            return false;
        }
        proof {
            lemma_total_size_insert(self@, key@, value@);
        }
        let ghost before = self@;
        let ghost key_text = key@;
        let ghost value_text = value@;
        if !known {
            self.keys.push(key.clone());
        }
        self.data.insert(key, value);
        self.current_memory = total;
        proof {
            assert(self@ =~= before.insert(key_text, value_text));
            assert(self.data@.dom() =~= old(self).data@.dom().insert(key_text));
            assert forall|k: Seq<char>| #[trigger] self.data@.contains_key(k) implies exists|
                i: int,
            |
                0 <= i < self.keys@.len() && (#[trigger] self.keys@[i])@ == k by {
                if k == key_text && !known {
                    assert(self.keys@[old(self).keys@.len() as int]@ == k);
                } else {
                    assert(old(self).data@.contains_key(k));
                    let i = choose|i: int|
                        0 <= i < old(self).keys@.len() && (#[trigger] old(self).keys@[i])@ == k;
                    assert(self.keys@[i]@ == k);
                }
            }
        }
        true
    }

    /// The value of the record `key`, if the store holds one.
    pub fn get(&self, key: &str) -> (r: Option<&String>)
        ensures
            match r {
                Some(value) => self@.contains_key(key@) && value@ == self@[key@],
                None => !self@.contains_key(key@),
            },
    {
        self.data.get(key)
    }

    /// The running total: the summed size of all records.
    pub fn memory_usage(&self) -> (r: usize)
        requires
            self.wf(),
        ensures
            r == total_size(self@),
            r == self.used(),
    {
        proof {
            self.lemma_wf();
        }
        self.current_memory
    }

    /// The records as pairs of owned texts, in the order of `listing`.
    pub fn records(&self) -> (pairs: Vec<(String, String)>)
        requires
            self.wf(),
        ensures
            pairs_view(pairs@) == self.listing(),
            records_of(pairs_view(pairs@)) == self@,
    {
        let mut pairs: Vec<(String, String)> = Vec::new();
        let mut i: usize = 0;
        while i < self.keys.len()
            invariant
                self.wf(),
                0 <= i <= self.keys@.len(),
                pairs@.len() == i,
                forall|j: int|
                    0 <= j < i ==> (#[trigger] pairs@[j]).0@ == self.keys@[j]@ && pairs@[j].1@
                        == self.data@[self.keys@[j]@]@,
            decreases self.keys@.len() - i,
        {
            let key = self.keys[i].clone();
            assert(self.data@.contains_key(self.keys@[i as int]@));
            let value = match self.data.get(key.as_str()) {
                Some(v) => v.clone(),
                None => String::new(),
            };
            pairs.push((key, value));
            i = i + 1;
        }
        proof {
            assert(pairs_view(pairs@) =~= self.listing());
            self.lemma_listing();
        }
        pairs
    }

    /// The snapshot of the store: nothing where snapshots are switched
    /// off, else the records as one JSON object.
    pub fn snapshot(&self) -> (r: Result<Option<String>, SnapshotError>)
        requires
            self.wf(),
        ensures
            !self.persistent() ==> r == Ok::<Option<String>, SnapshotError>(None),
            self.persistent() ==> match json_of_pairs(self.listing()) {
                Some(text) => r matches Ok(Some(t)) && t@ == text,
                None => r matches Err(SnapshotError::Encode(_)),
            },
    {
        if !self.config.persistence_enabled {
            return Ok(None);
        }
        let pairs = self.records();
        proof {
            self.lemma_listing();
        }
        match pairs_to_json(&pairs) {
            Ok(text) => Ok(Some(text)),
            Err(e) => Err(SnapshotError::Encode(json_error_text(&e))),
        }
    }

    /// Replaces the records by those of `pairs`, written one after the
    /// other, and counts the total anew. Where the total cannot be counted
    /// the store stays as it was.
    pub fn load_records(&mut self, pairs: &Vec<(String, String)>) -> (ok: bool)
        requires
            old(self).wf(),
        ensures
            final(self).wf(),
            final(self).ceiling() == old(self).ceiling(),
            final(self).persistent() == old(self).persistent(),
            ok == loadable(pairs_view(pairs@)),
            ok ==> final(self)@ == records_of(pairs_view(pairs@)),
            ok ==> final(self).used() == total_size(records_of(pairs_view(pairs@))),
            !ok ==> final(self)@ == old(self)@ && final(self).used() == old(self).used(),
    {
        let ghost all = pairs_view(pairs@);
        let mut fresh = Storage::new(
            StorageConfig {
                max_memory: usize::MAX,
                persistence_enabled: self.config.persistence_enabled,
            },
        );
        assert(all.subrange(0, 0) =~= Seq::<(Seq<char>, Seq<char>)>::empty());
        let mut i: usize = 0;
        while i < pairs.len()
            invariant
                fresh.wf(),
                self.wf(),
                fresh.ceiling() == usize::MAX,
                fresh.persistent() == old(self).persistent(),
                all == pairs_view(pairs@),
                0 <= i <= pairs@.len(),
                fresh@ == records_of(all.subrange(0, i as int)),
                fresh.used() == total_size(fresh@),
                forall|n: int|
                    0 <= n <= i ==> total_size(records_of(#[trigger] all.subrange(0, n)))
                        <= usize::MAX,
                *self == *old(self),
            decreases pairs@.len() - i,
        {
            let key = pairs[i].0.clone();
            let value = pairs[i].1.clone();
            proof {
                fresh.lemma_wf();
                lemma_total_size_insert(fresh@, key@, value@);
                let next = all.subrange(0, i + 1);
                assert(next.drop_last() =~= all.subrange(0, i as int));
                assert(next.last() == (key@, value@));
            }
            if !fresh.insert(key, value) {
                return false;
            }
            proof {
                fresh.lemma_wf();
            }
            i = i + 1;
        }
        assert(all.subrange(0, i as int) =~= all);
        let ghost loaded = fresh;
        fresh.config = StorageConfig {
            max_memory: self.config.max_memory,
            persistence_enabled: self.config.persistence_enabled,
        };
        assert(fresh.data == loaded.data && fresh.keys == loaded.keys);
        *self = fresh;
        true
    }

    /// Reads a snapshot into the store: nothing happens where snapshots
    /// are switched off; else the records become those of the JSON object
    /// `text`, and the total is counted anew.
    pub fn restore(&mut self, text: &str) -> (r: Result<(), SnapshotError>)
        requires
            old(self).wf(),
        ensures
            final(self).wf(),
            final(self).ceiling() == old(self).ceiling(),
            final(self).persistent() == old(self).persistent(),
            r is Err ==> final(self)@ == old(self)@ && final(self).used() == old(self).used(),
            !old(self).persistent() ==> r is Ok && final(self)@ == old(self)@,
            !old(self).persistent() ==> final(self).used() == old(self).used(),
            old(self).persistent() ==> match pairs_of_json(text@) {
                None => r matches Err(SnapshotError::Decode(_)),
                Some(pairs) => if loadable(pairs) {
                    r is Ok && final(self)@ == records_of(pairs) && final(self).used()
                        == total_size(records_of(pairs))
                } else {
                    r == Err::<(), SnapshotError>(SnapshotError::TooLarge)
                },
            },
    {
        if !self.config.persistence_enabled {
            return Ok(());
        }
        match pairs_from_json(text) {
            Err(e) => Err(SnapshotError::Decode(json_error_text(&e))),
            Ok(pairs) => {
                if self.load_records(&pairs) {
                    Ok(())
                } else {
                    Err(SnapshotError::TooLarge)
                }
            },
        }
    }

    /// Whether snapshots are enabled.
    pub fn is_persistence_enabled(&self) -> (r: bool)
        ensures
            r == self.persistent(),
    {
        self.config.persistence_enabled
    }
}

} // verus!
