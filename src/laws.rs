use crate::records::{lemma_sorted_keys_distinct, Record};
use crate::store::KVStore;
use vstd::prelude::*;

verus! {

/// No two records of a well-formed store share a key; every operation that changes the
/// store keeps it well-formed.
pub proof fn lemma_keys_unique(store: KVStore)
    requires
        store.wf(),
    ensures
        forall|i: int, j: int|
            0 <= i < store.records().len() && 0 <= j < store.records().len() && i != j
                ==> #[trigger] store.records()[i].0 != #[trigger] store.records()[j].0,
{
    let s: Seq<Record> = store.records();
    assert forall|i: int, j: int|
        0 <= i < s.len() && 0 <= j < s.len() && i != j implies #[trigger] s[i].0 != #[trigger] s[j].0 by {
        lemma_sorted_keys_distinct(s, i, j);
    }
}

/// Once `create_key_with_key` has stored `d1` under `k`, the key is present with `d1`, so a
/// second `create_key_with_key` under `k` fails with `AlreadyExists` and leaves `d1` there.
pub proof fn lemma_create_with_key_conflict(m: Map<Seq<char>, Seq<u8>>, k: Seq<char>, d1: Seq<u8>)
    ensures
        m.insert(k, d1).contains_key(k),
        m.insert(k, d1)[k] == d1,
{
}

/// After `insert` of `d1` and then of `d2` under one key, `get` of that key gives `d2`.
pub proof fn lemma_upsert_overwrite(
    m: Map<Seq<char>, Seq<u8>>,
    k: Seq<char>,
    d1: Seq<u8>,
    d2: Seq<u8>,
)
    ensures
        m.insert(k, d1).insert(k, d2).contains_key(k),
        m.insert(k, d1).insert(k, d2)[k] == d2,
{
}

/// After `delete` of a key, the key is absent, so `get` of it fails with `NotFound`.
pub proof fn lemma_delete_then_get(m: Map<Seq<char>, Seq<u8>>, k: Seq<char>)
    ensures
        !m.remove(k).contains_key(k),
{
}

} // verus!
