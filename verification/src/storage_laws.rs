//! What holds of the store over several writes.

use crate::snapshot::{no_key_twice, records_of};
use crate::storage::{
    admits, lemma_records_of_distinct, lemma_total_size_bounds,
    lemma_total_size_insert, record_size, total_size, written, Storage,
};
use vstd::prelude::*;

verus! {

/// The records after attempts to write each pair of `pairs` in turn.
pub open spec fn written_all(
    records: Map<Seq<char>, Seq<char>>,
    ceiling: nat,
    pairs: Seq<(Seq<char>, Seq<char>)>,
) -> Map<Seq<char>, Seq<char>>
    decreases pairs.len(),
{
    if pairs.len() == 0 {
        records
    } else {
        written(
            written_all(records, ceiling, pairs.drop_last()),
            ceiling,
            pairs.last().0,
            pairs.last().1,
        )
    }
}

/// The summed size of the first `n` pairs of `pairs`.
pub open spec fn sizes_sum(pairs: Seq<(Seq<char>, Seq<char>)>, n: int) -> nat
    decreases n,
{
    if n <= 0 {
        0
    } else {
        sizes_sum(pairs, n - 1) + record_size(pairs[n - 1].0, pairs[n - 1].1)
    }
}

/// Memory invariant: whatever was written or refused, the running total
/// of a well-formed store is the summed size of its records, and every
/// attempt to write leaves the store well-formed (see `Storage::insert`).
pub proof fn law_memory_invariant(store: Storage)
    requires
        store.wf(),
    ensures
        store.used() == total_size(store@),
{
    store.lemma_wf();
}

/// Capacity rejection, one record: a record whose own size is above the
/// ceiling is refused, and the records stay as they were.
pub proof fn law_oversized_record_rejected(
    records: Map<Seq<char>, Seq<char>>,
    ceiling: nat,
    key: Seq<char>,
    value: Seq<char>,
)
    requires
        records.dom().finite(),
        record_size(key, value) > ceiling,
    ensures
        !admits(records, ceiling, key, value),
        written(records, ceiling, key, value) == records,
{
}

/// Writing pairs with distinct keys into an empty store while their
/// summed size stays within the ceiling admits each of them.
pub proof fn lemma_written_all_within(ceiling: nat, pairs: Seq<(Seq<char>, Seq<char>)>, n: int)
    requires
        no_key_twice(pairs),
        0 <= n <= pairs.len(),
        sizes_sum(pairs, n) <= ceiling,
    ensures
        written_all(Map::empty(), ceiling, pairs.subrange(0, n)) == records_of(
            pairs.subrange(0, n),
        ),
        records_of(pairs.subrange(0, n)).dom().finite(),
        total_size(records_of(pairs.subrange(0, n))) == sizes_sum(pairs, n),
        forall|i: int|
            0 <= i < n ==> admits(
                #[trigger] written_all(Map::empty(), ceiling, pairs.subrange(0, i)),
                ceiling,
                pairs[i].0,
                pairs[i].1,
            ),
    decreases n,
{
    let empty = Map::<Seq<char>, Seq<char>>::empty();
    let taken = pairs.subrange(0, n);
    if n == 0 {
        lemma_total_size_bounds(empty, Seq::empty());
    } else {
        let before = pairs.subrange(0, n - 1);
        let key = pairs[n - 1].0;
        let value = pairs[n - 1].1;
        lemma_written_all_within(ceiling, pairs, n - 1);
        assert(taken.drop_last() =~= before);
        assert(taken.last() == pairs[n - 1]);
        assert(no_key_twice(before)) by {
            assert forall|i: int, j: int| 0 <= i < j < before.len() implies (
            #[trigger] before[i]).0 != (#[trigger] before[j]).0 by {
                assert(before[i] == pairs[i] && before[j] == pairs[j]);
            }
        }
        lemma_records_of_distinct(before);
        let held = records_of(before);
        assert(!held.contains_key(key)) by {
            if held.contains_key(key) {
                let i = choose|i: int| 0 <= i < before.len() && (#[trigger] before[i]).0 == key;
                assert(before[i] == pairs[i]);
                assert(pairs[i].0 != pairs[n - 1].0);
            }
        }
        lemma_total_size_bounds(held, key);
        lemma_total_size_insert(held, key, value);
        assert(admits(held, ceiling, key, value));
    }
}

/// Capacity rejection, several records: where records with distinct keys
/// are written into an empty store and their summed size first goes
/// above the ceiling with the record at position `k`, every record before
/// it is admitted, that one is refused, and the refusal leaves the records
/// and their total as they were.
pub proof fn law_capacity_rejection(ceiling: nat, pairs: Seq<(Seq<char>, Seq<char>)>, k: int)
    requires
        no_key_twice(pairs),
        0 <= k < pairs.len(),
        sizes_sum(pairs, k) <= ceiling,
        sizes_sum(pairs, k + 1) > ceiling,
    ensures
        forall|i: int|
            0 <= i < k ==> admits(
                #[trigger] written_all(Map::empty(), ceiling, pairs.subrange(0, i)),
                ceiling,
                pairs[i].0,
                pairs[i].1,
            ),
        !admits(
            written_all(Map::empty(), ceiling, pairs.subrange(0, k)),
            ceiling,
            pairs[k].0,
            pairs[k].1,
        ),
        written_all(Map::empty(), ceiling, pairs.subrange(0, k + 1)) == written_all(
            Map::empty(),
            ceiling,
            pairs.subrange(0, k),
        ),
        total_size(written_all(Map::empty(), ceiling, pairs.subrange(0, k + 1))) == sizes_sum(
            pairs,
            k,
        ),
{
    lemma_written_all_within(ceiling, pairs, k);
    let before = pairs.subrange(0, k);
    let held = records_of(before);
    let key = pairs[k].0;
    let value = pairs[k].1;
    assert(no_key_twice(before)) by {
        assert forall|i: int, j: int| 0 <= i < j < before.len() implies (#[trigger] before[i]).0
            != (#[trigger] before[j]).0 by {
            assert(before[i] == pairs[i] && before[j] == pairs[j]);
        }
    }
    lemma_records_of_distinct(before);
    assert(!held.contains_key(key)) by {
        if held.contains_key(key) {
            let i = choose|i: int| 0 <= i < before.len() && (#[trigger] before[i]).0 == key;
            assert(before[i] == pairs[i]);
            assert(pairs[i].0 != pairs[k].0);
        }
    }
    lemma_total_size_bounds(held, key);
    let next = pairs.subrange(0, k + 1);
    assert(next.drop_last() =~= before);
    assert(next.last() == pairs[k]);
}

/// Overwrite: after two attempts to write the same key, first to `first`
/// and then to `second`, whether the second is admitted does not depend
/// on the first; where it is, the key holds `second`, no other record has
/// changed, and the total counts `second` alone for this key; where it is
/// not, the records are as the first attempt left them.
pub proof fn law_overwrite(
    records: Map<Seq<char>, Seq<char>>,
    ceiling: nat,
    key: Seq<char>,
    first: Seq<char>,
    second: Seq<char>,
)
    requires
        records.dom().finite(),
    ensures
        ({
            let middle = written(records, ceiling, key, first);
            let after = written(middle, ceiling, key, second);
            &&& admits(middle, ceiling, key, second) == admits(records, ceiling, key, second)
            &&& admits(records, ceiling, key, second) ==> {
                &&& after == records.insert(key, second)
                &&& after[key] == second
                &&& after.dom() == records.dom().insert(key)
                &&& total_size(after) == total_size(records.remove(key)) + record_size(key, second)
            }
            &&& !admits(records, ceiling, key, second) ==> after == middle
        }),
{
    let middle = written(records, ceiling, key, first);
    assert(middle.remove(key) =~= records.remove(key));
    assert(middle.insert(key, second) =~= records.insert(key, second));
    lemma_total_size_insert(records, key, second);
}

} // verus!
