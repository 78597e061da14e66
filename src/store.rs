use core::cmp::Ordering;
use crate::codec::Document;
use crate::errors::StoreError;
use crate::key_order::{compare_keys, key_lt, lemma_key_lt_irreflexive, lemma_key_lt_transitive};
use crate::keygen::{is_generated_key, random_key, MAX_KEY_ATTEMPTS};
use crate::records::{
    has_key, keys_sorted, lemma_insert_sorted, lemma_map_of_dom, lemma_map_of_len, lemma_map_of_sorted,
    lemma_remove_sorted, lemma_update_sorted, map_of, Record,
};
use vstd::prelude::*;

verus! {

/// How many records a listing returns when no limit is given.
pub const DEFAULT_LIST_LIMIT: u64 = 1000;

/// The records that a sequence of stored pairs stands for.
pub open spec fn records_of(v: Seq<(String, Document)>) -> Seq<Record> {
    v.map_values(|e: (String, Document)| (e.0@, e.1@))
}

/// The first and the end position of a listing window over `n` records.
pub open spec fn list_window(n: int, skip: Option<u64>, limit: Option<u64>) -> (int, int) {
    let s = skip.unwrap_or(0) as int;
    let l = limit.unwrap_or(DEFAULT_LIST_LIMIT) as int;
    let start = if s < n { s } else { n };
    let end = if s + l < n { s + l } else { n };
    (start, end)
}

/// Query parameters of a listing.
#[derive(Debug, Clone, Copy, PartialEq, Eq)]
pub struct ListQuery {
    pub skip: Option<u64>,
    pub limit: Option<u64>,
}

/// The store: its records, kept in increasing key order.
///
/// The records sit in a `Vec` sorted by key rather than in a `BTreeMap`: with `String` keys
/// vstd's specification of `BTreeMap` gives nothing to prove lookups with, while a sorted
/// sequence lets every operation be stated over `map_of(records())`.
///
/// Every operation takes a namespace and ignores it: all records share one keyspace,
/// whatever namespace a request names.
#[derive(Debug)]
pub struct KVStore {
    entries: Vec<(String, Document)>,
}

impl View for KVStore {
    type V = Map<Seq<char>, Seq<u8>>;

    open spec fn view(&self) -> Map<Seq<char>, Seq<u8>> {
        map_of(self.records())
    }
}

impl KVStore {
    /// The records in the order in which the store keeps them.
    pub closed spec fn records(&self) -> Seq<Record> {
        records_of(self.entries@)
    }

    pub open spec fn wf(&self) -> bool {
        keys_sorted(self.records())
    }

    /// An empty store.
    pub fn new() -> (r: KVStore)
        ensures
            r.wf(),
            r.records() == Seq::<Record>::empty(),
            r@ == Map::<Seq<char>, Seq<u8>>::empty(),
    {
        let r = KVStore { entries: Vec::new() };
        assert(r.records() =~= Seq::<Record>::empty());
        r
    }

    /// A well-formed store has one record for each key of its map.
    pub proof fn lemma_len(&self)
        requires
            self.wf(),
        ensures
            self.records().len() == self@.len(),
    {
        lemma_map_of_len(self.records());
    }

    /// The number of records.
    pub fn len(&self) -> (r: usize)
        requires
            self.wf(),
        ensures
            r == self.records().len(),
            r == self@.len(),
    {
        proof {
            self.lemma_len();
        }
        self.entries.len()
    }

    /// The record at a place in the key order.
    pub fn record_at(&self, i: usize) -> (r: &(String, Document))
        requires
            i < self.records().len(),
        ensures
            (r.0@, r.1@) == self.records()[i as int],
    {
        &self.entries[i]
    }

    /// Where `key` stands or would stand in the key order, and whether it is there.
    fn position(&self, key: &str) -> (r: (usize, bool))
        requires
            self.wf(),
        ensures
            r.0 <= self.records().len(),
            forall|i: int| 0 <= i < r.0 ==> key_lt(#[trigger] self.records()[i].0, key@),
            r.1 ==> r.0 < self.records().len() && self.records()[r.0 as int].0 == key@,
            !r.1 && r.0 < self.records().len() ==> key_lt(key@, self.records()[r.0 as int].0),
            r.1 <==> self@.contains_key(key@),
    {
        let ghost s = self.records();
        let n = self.entries.len();
        let mut i: usize = 0;
        while i < n
            invariant
                n == s.len(),
                s == self.records(),
                keys_sorted(s),
                i <= n,
                forall|j: int| 0 <= j < i ==> key_lt(#[trigger] s[j].0, key@),
            decreases n - i,
        {
            assert(s[i as int].0 == self.entries@[i as int].0@);
            match compare_keys(self.entries[i].0.as_str(), key) {
                Ordering::Less => {
                    i = i + 1;
                },
                Ordering::Equal => {
                    proof {
                        lemma_map_of_sorted(s);
                    }
                    return (i, true);
                },
                Ordering::Greater => {
                    proof {
                        lemma_map_of_dom(s, key@);
                        if has_key(s, key@) {
                            let j = choose|j: int| 0 <= j < s.len() && s[j].0 == key@;
                            if j < i {
                                lemma_key_lt_irreflexive(key@);
                            } else {
                                if j > i {
                                    lemma_key_lt_transitive(key@, s[i as int].0, s[j].0);
                                }
                                lemma_key_lt_irreflexive(key@);
                            }
                        }
                    }
                    return (i, false);
                },
            }
        }
        proof {
            lemma_map_of_dom(s, key@);
            if has_key(s, key@) {
                let j = choose|j: int| 0 <= j < s.len() && s[j].0 == key@;
                lemma_key_lt_irreflexive(key@);
            }
        }
        (i, false)
    }

    /// Adds a record under a key that is absent, at its place in the key order.
    fn insert_at(&mut self, p: usize, key: String, value: Document)
        requires
            old(self).wf(),
            p <= old(self).records().len(),
            forall|i: int| 0 <= i < p ==> key_lt(#[trigger] old(self).records()[i].0, key@),
            p < old(self).records().len() ==> key_lt(key@, old(self).records()[p as int].0),
        ensures
            final(self).wf(),
            final(self)@ == old(self)@.insert(key@, value@),
            !old(self)@.contains_key(key@),
    {
        let ghost s = self.records();
        let ghost r = (key@, value@);
        self.entries.insert(p, (key, value));
        proof {
            lemma_insert_sorted(s, p as int, r);
            assert(self.records() =~= s.insert(p as int, r));
        }
    }

    /// Adds a record under a new random key, drawing again while the key is taken,
    /// at most `MAX_KEY_ATTEMPTS` times.
    pub fn create_key(&mut self, _namespace: String, value: Document) -> (r: Result<String, StoreError>)
        requires
            old(self).wf(),
        ensures
            final(self).wf(),
            r is Ok ==> {
                &&& is_generated_key(r->Ok_0@)
                &&& !old(self)@.contains_key(r->Ok_0@)
                &&& final(self)@ == old(self)@.insert(r->Ok_0@, value@)
            },
            r is Err ==> r->Err_0 == StoreError::KeyspaceExhausted && final(self).records() == old(self).records(),
            (forall|k: Seq<char>| #[trigger] old(self)@.contains_key(k) ==> !is_generated_key(k)) ==> r is Ok,
    {
        let mut attempt: u32 = 0;
        while attempt < MAX_KEY_ATTEMPTS
            invariant
                self.wf(),
                self.records() == old(self).records(),
                attempt > 0 ==> exists|k: Seq<char>| #[trigger] old(self)@.contains_key(k) && is_generated_key(k),
            decreases MAX_KEY_ATTEMPTS - attempt,
        {
            let key = random_key();
            let (p, found) = self.position(key.as_str());
            if !found {
                let out = key.clone();
                self.insert_at(p, key, value);
                return Ok(out);
            }
            assert(old(self)@.contains_key(key@) && is_generated_key(key@));
            attempt = attempt + 1;
        }
        Err(StoreError::KeyspaceExhausted)
    }

    /// Adds a record under the given key; fails, changing nothing, where the key is present.
    pub fn create_key_with_key(&mut self, _namespace: String, key: String, value: Document) -> (r: Result<String, StoreError>)
        requires
            old(self).wf(),
        ensures
            final(self).wf(),
            old(self)@.contains_key(key@) ==> r == Err::<String, StoreError>(StoreError::AlreadyExists)
                && final(self).records() == old(self).records(),
            !old(self)@.contains_key(key@) ==> r is Ok && r->Ok_0@ == key@
                && final(self)@ == old(self)@.insert(key@, value@),
    {
        let (p, found) = self.position(key.as_str());
        if found {
            return Err(StoreError::AlreadyExists);
        }
        let out = key.clone();
        self.insert_at(p, key, value);
        Ok(out)
    }

    /// Stores the document under the key, adding the record or replacing its document.
    pub fn insert(&mut self, _namespace: String, key: String, value: Document) -> (r: Result<String, StoreError>)
        requires
            old(self).wf(),
        ensures
            final(self).wf(),
            r is Ok && r->Ok_0@ == key@,
            final(self)@ == old(self)@.insert(key@, value@),
    {
        let (p, found) = self.position(key.as_str());
        let out = key.clone();
        if found {
            let ghost s = self.records();
            let ghost d = value@;
            self.entries.set(p, (key, value));
            proof {
                lemma_update_sorted(s, p as int, d);
                assert(self.records() =~= s.update(p as int, (s[p as int].0, d)));
            }
        } else {
            self.insert_at(p, key, value);
        }
        Ok(out)
    }

    /// The document stored under the key.
    pub fn get(&self, _namespace: String, key: String) -> (r: Result<Document, StoreError>)
        requires
            self.wf(),
        ensures
            self@.contains_key(key@) ==> r is Ok && r->Ok_0@ == self@[key@],
            !self@.contains_key(key@) ==> r == Err::<Document, StoreError>(StoreError::NotFound),
    {
        let (p, found) = self.position(key.as_str());
        if !found {
            return Err(StoreError::NotFound);
        }
        proof {
            lemma_map_of_sorted(self.records());
        }
        Ok(self.entries[p].1.duplicate())
    }

    /// Removes the record under the key.
    pub fn delete(&mut self, _namespace: String, key: String) -> (r: Result<String, StoreError>)
        requires
            old(self).wf(),
        ensures
            final(self).wf(),
            old(self)@.contains_key(key@) ==> r is Ok && r->Ok_0@ == key@
                && final(self)@ == old(self)@.remove(key@),
            !old(self)@.contains_key(key@) ==> r == Err::<String, StoreError>(StoreError::NotFound)
                && final(self).records() == old(self).records(),
    {
        let (p, found) = self.position(key.as_str());
        if !found {
            return Err(StoreError::NotFound);
        }
        let ghost s = self.records();
        let _ = self.entries.remove(p);
        proof {
            lemma_remove_sorted(s, p as int);
            assert(self.records() =~= s.remove(p as int));
        }
        Ok(key)
    }

    /// The records in key order after the first `skip` (default 0), at most `limit`
    /// (default `DEFAULT_LIST_LIMIT`) of them; fails where that window is empty.
    pub fn list_keys(&self, _namespace: String, skip: Option<u64>, limit: Option<u64>) -> (r: Result<
        Vec<(String, Document)>,
        StoreError,
    >)
        requires
            self.wf(),
        ensures
            ({
                let (start, end) = list_window(self.records().len() as int, skip, limit);
                &&& start < end ==> r is Ok && records_of(r->Ok_0@) == self.records().subrange(start, end)
                &&& start >= end ==> r is Err && r->Err_0 == StoreError::NoResults
            }),
    {
        let n = self.entries.len();
        let skip = skip.unwrap_or(0);
        let limit = limit.unwrap_or(DEFAULT_LIST_LIMIT);
        let start: usize = if skip < n as u64 { skip as usize } else { n };
        let end: usize = if limit < (n - start) as u64 { start + limit as usize } else { n };
        let ghost w = list_window(n as int, Some(skip), Some(limit));
        assert(start == w.0 && end == w.1);
        if start >= end {
            return Err(StoreError::NoResults);
        }
        let mut out: Vec<(String, Document)> = Vec::new();
        let mut i = start;
        while i < end
            invariant
                start <= i <= end <= n,
                n == self.records().len(),
                records_of(out@) == self.records().subrange(start as int, i as int),
            decreases end - i,
        {
            let ghost before = out@;
            let e = &self.entries[i];
            let k = e.0.clone();
            let d = e.1.duplicate();
            out.push((k, d));
            proof {
                assert(out@ == before.push((k, d)));
                assert(records_of(out@) =~= records_of(before).push((k@, d@)));
                assert(records_of(out@) =~= self.records().subrange(start as int, i + 1));
            }
            i = i + 1;
        }
        Ok(out)
    }
}

} // verus!
