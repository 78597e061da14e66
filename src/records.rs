use crate::key_order::{key_lt, lemma_key_lt_irreflexive, lemma_key_lt_transitive};
use vstd::prelude::*;

verus! {

/// A record as the contracts see it: the key's characters and the document's bytes.
pub type Record = (Seq<char>, Seq<u8>);

/// Keys strictly increase along the sequence, so no key occurs twice.
pub open spec fn keys_sorted(s: Seq<Record>) -> bool {
    forall|i: int, j: int| 0 <= i < j < s.len() ==> key_lt(#[trigger] s[i].0, #[trigger] s[j].0)
}

/// The map that a sequence of records stands for; a later record wins over an earlier one.
pub open spec fn map_of(s: Seq<Record>) -> Map<Seq<char>, Seq<u8>>
    decreases s.len(),
{
    if s.len() == 0 {
        Map::empty()
    } else {
        map_of(s.drop_last()).insert(s.last().0, s.last().1)
    }
}

/// Whether some record of the sequence has the key.
pub open spec fn has_key(s: Seq<Record>, k: Seq<char>) -> bool {
    exists|i: int| 0 <= i < s.len() && s[i].0 == k
}

pub proof fn lemma_sorted_keys_distinct(s: Seq<Record>, i: int, j: int)
    requires
        keys_sorted(s),
        0 <= i < s.len(),
        0 <= j < s.len(),
        i != j,
    ensures
        s[i].0 != s[j].0,
{
    if i < j {
        assert(key_lt(s[i].0, s[j].0));
    } else {
        assert(key_lt(s[j].0, s[i].0));
    }
    lemma_key_lt_irreflexive(s[i].0);
}

/// In a sorted sequence each record is found in the map under its key.
pub proof fn lemma_map_of_index(s: Seq<Record>, i: int)
    requires
        keys_sorted(s),
        0 <= i < s.len(),
    ensures
        map_of(s).contains_key(s[i].0),
        map_of(s)[s[i].0] == s[i].1,
    decreases s.len(),
{
    let n = s.len() - 1;
    if i < n {
        assert(keys_sorted(s.drop_last()));
        lemma_map_of_index(s.drop_last(), i);
        lemma_sorted_keys_distinct(s, i, n);
    }
}

/// The map's keys are exactly the keys of the records.
pub proof fn lemma_map_of_dom(s: Seq<Record>, k: Seq<char>)
    ensures
        map_of(s).contains_key(k) <==> has_key(s, k),
    decreases s.len(),
{
    if s.len() > 0 {
        lemma_map_of_dom(s.drop_last(), k);
        if has_key(s.drop_last(), k) {
            let i = choose|i: int| 0 <= i < s.len() - 1 && s.drop_last()[i].0 == k;
            assert(s[i].0 == k);
        }
        if has_key(s, k) && s.last().0 != k {
            let i = choose|i: int| 0 <= i < s.len() && s[i].0 == k;
            assert(s.drop_last()[i].0 == k);
        }
    }
}

/// A sorted sequence has as many records as its map has keys.
pub proof fn lemma_map_of_len(s: Seq<Record>)
    requires
        keys_sorted(s),
    ensures
        map_of(s).dom().finite(),
        map_of(s).len() == s.len(),
    decreases s.len(),
{
    if s.len() > 0 {
        let t = s.drop_last();
        assert(keys_sorted(t));
        lemma_map_of_len(t);
        lemma_map_of_dom(t, s.last().0);
        if has_key(t, s.last().0) {
            let i = choose|i: int| 0 <= i < t.len() && t[i].0 == s.last().0;
            lemma_sorted_keys_distinct(s, i, s.len() - 1);
        }
    }
}

/// Facts on a sorted sequence: every key maps to its record, and nothing else is there.
pub proof fn lemma_map_of_sorted(s: Seq<Record>)
    requires
        keys_sorted(s),
    ensures
        forall|i: int| 0 <= i < s.len() ==> #[trigger] map_of(s).contains_key(s[i].0) && map_of(s)[s[i].0] == s[i].1,
        forall|k: Seq<char>| #[trigger] map_of(s).contains_key(k) <==> has_key(s, k),
{
    assert forall|i: int| 0 <= i < s.len() implies #[trigger] map_of(s).contains_key(s[i].0) && map_of(s)[s[i].0] == s[i].1 by {
        lemma_map_of_index(s, i);
    }
    assert forall|k: Seq<char>| #[trigger] map_of(s).contains_key(k) <==> has_key(s, k) by {
        lemma_map_of_dom(s, k);
    }
}

/// Two sorted sequences with the same records at the keys stand for the same map.
pub proof fn lemma_map_of_from_records(s: Seq<Record>, m: Map<Seq<char>, Seq<u8>>)
    requires
        keys_sorted(s),
        forall|i: int| 0 <= i < s.len() ==> #[trigger] m.contains_key(s[i].0) && m[s[i].0] == s[i].1,
        forall|k: Seq<char>| #[trigger] m.contains_key(k) ==> has_key(s, k),
    ensures
        map_of(s) == m,
{
    lemma_map_of_sorted(s);
    assert forall|k: Seq<char>| #[trigger] map_of(s).contains_key(k) <==> m.contains_key(k) by {
        if has_key(s, k) {
            let i = choose|i: int| 0 <= i < s.len() && s[i].0 == k;
            assert(m.contains_key(s[i].0));
        }
    }
    assert forall|k: Seq<char>| #[trigger] map_of(s).contains_key(k) implies map_of(s)[k] == m[k] by {
        let i = choose|i: int| 0 <= i < s.len() && s[i].0 == k;
        assert(m.contains_key(s[i].0));
    }
    assert(map_of(s) =~= m);
}

/// Inserting a record at the place that keeps the keys sorted.
pub proof fn lemma_insert_sorted(s: Seq<Record>, p: int, r: Record)
    requires
        keys_sorted(s),
        0 <= p <= s.len(),
        forall|i: int| 0 <= i < p ==> key_lt(#[trigger] s[i].0, r.0),
        p < s.len() ==> key_lt(r.0, s[p].0),
    ensures
        keys_sorted(s.insert(p, r)),
        map_of(s.insert(p, r)) == map_of(s).insert(r.0, r.1),
        !map_of(s).contains_key(r.0),
{
    let t = s.insert(p, r);
    assert forall|i: int, j: int| 0 <= i < j < t.len() implies key_lt(#[trigger] t[i].0, #[trigger] t[j].0) by {
        if j == p {
            assert(t[i] == s[i]);
        } else if i == p {
            assert(t[j] == s[j - 1]);
            if j - 1 > p {
                lemma_key_lt_transitive(r.0, s[p].0, s[j - 1].0);
            }
        } else if i < p && j > p {
            assert(key_lt(s[i].0, r.0));
            if j - 1 > p {
                lemma_key_lt_transitive(r.0, s[p].0, s[j - 1].0);
            }
            lemma_key_lt_transitive(s[i].0, r.0, s[j - 1].0);
        } else if i > p {
            assert(t[i] == s[i - 1] && t[j] == s[j - 1]);
        } else {
            assert(t[i] == s[i] && t[j] == s[j]);
        }
    }
    lemma_map_of_sorted(s);
    lemma_map_of_sorted(t);
    assert(!has_key(s, r.0)) by {
        if has_key(s, r.0) {
            let i = choose|i: int| 0 <= i < s.len() && s[i].0 == r.0;
            if i < p {
                lemma_key_lt_irreflexive(r.0);
            } else {
                if i > p {
                    assert(key_lt(s[p].0, s[i].0));
                    lemma_key_lt_transitive(r.0, s[p].0, s[i].0);
                }
                lemma_key_lt_irreflexive(r.0);
            }
        }
    }
    let m = map_of(s).insert(r.0, r.1);
    assert forall|i: int| 0 <= i < t.len() implies #[trigger] m.contains_key(t[i].0) && m[t[i].0] == t[i].1 by {
        if i < p {
            assert(t[i] == s[i]);
            assert(s[i].0 != r.0);
        } else if i > p {
            assert(t[i] == s[i - 1]);
            assert(s[i - 1].0 != r.0);
        }
    }
    assert forall|k: Seq<char>| #[trigger] m.contains_key(k) implies has_key(t, k) by {
        if k == r.0 {
            assert(t[p].0 == k);
        } else {
            let i = choose|i: int| 0 <= i < s.len() && s[i].0 == k;
            if i < p {
                assert(t[i] == s[i]);
            } else {
                assert(t[i + 1] == s[i]);
            }
        }
    }
    lemma_map_of_from_records(t, m);
}

/// Removing the record at a place.
pub proof fn lemma_remove_sorted(s: Seq<Record>, p: int)
    requires
        keys_sorted(s),
        0 <= p < s.len(),
    ensures
        keys_sorted(s.remove(p)),
        map_of(s.remove(p)) == map_of(s).remove(s[p].0),
{
    let t = s.remove(p);
    assert forall|i: int, j: int| 0 <= i < j < t.len() implies key_lt(#[trigger] t[i].0, #[trigger] t[j].0) by {
        if i < p && j >= p {
            assert(key_lt(s[i].0, s[j + 1].0));
        } else if i >= p {
            assert(key_lt(s[i + 1].0, s[j + 1].0));
        } else {
            assert(key_lt(s[i].0, s[j].0));
        }
    }
    lemma_map_of_sorted(s);
    let m = map_of(s).remove(s[p].0);
    assert forall|i: int| 0 <= i < t.len() implies #[trigger] m.contains_key(t[i].0) && m[t[i].0] == t[i].1 by {
        if i < p {
            assert(t[i] == s[i]);
            lemma_sorted_keys_distinct(s, i, p);
        } else {
            assert(t[i] == s[i + 1]);
            lemma_sorted_keys_distinct(s, i + 1, p);
        }
    }
    assert forall|k: Seq<char>| #[trigger] m.contains_key(k) implies has_key(t, k) by {
        let i = choose|i: int| 0 <= i < s.len() && s[i].0 == k;
        assert(i != p);
        if i < p {
            assert(t[i] == s[i]);
        } else {
            assert(t[i - 1] == s[i]);
        }
    }
    lemma_map_of_from_records(t, m);
}

/// Replacing the document of the record at a place.
pub proof fn lemma_update_sorted(s: Seq<Record>, p: int, d: Seq<u8>)
    requires
        keys_sorted(s),
        0 <= p < s.len(),
    ensures
        keys_sorted(s.update(p, (s[p].0, d))),
        map_of(s.update(p, (s[p].0, d))) == map_of(s).insert(s[p].0, d),
{
    let k = s[p].0;
    let u = s.remove(p);
    lemma_remove_sorted(s, p);
    assert forall|i: int| 0 <= i < p implies key_lt(#[trigger] u[i].0, k) by {
        assert(u[i] == s[i]);
    }
    if p < u.len() {
        assert(u[p] == s[p + 1]);
    }
    lemma_insert_sorted(u, p, (k, d));
    assert(u.insert(p, (k, d)) =~= s.update(p, (k, d)));
    assert(map_of(s).remove(k).insert(k, d) =~= map_of(s).insert(k, d));
}

} // verus!
