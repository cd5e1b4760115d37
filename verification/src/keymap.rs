//! Association lists keyed by public keys, kept sorted by the keys' SEC1
//! bytes, the order a `BTreeMap<PublicKey, _>` would keep.
use vstd::prelude::*;
use crate::crypto::{PublicKey, bytes_lt, lemma_bytes_lt_irreflexive, lemma_bytes_lt_transitive};

verus! {

/// The keys of an association list, in order.
pub open spec fn key_seq<V>(s: Seq<(PublicKey, V)>) -> Seq<Seq<u8>> {
    s.map_values(|e: (PublicKey, V)| e.0@)
}

/// Keys strictly increasing (so no key occurs twice).
pub open spec fn keys_sorted(ks: Seq<Seq<u8>>) -> bool {
    forall|i: int, j: int| 0 <= i < j < ks.len() ==> bytes_lt(#[trigger] ks[i], #[trigger] ks[j])
}

/// Whether `k` is a key of the list.
pub open spec fn has_key<V>(s: Seq<(PublicKey, V)>, k: Seq<u8>) -> bool {
    exists|i: int| 0 <= i < s.len() && #[trigger] s[i].0@ == k
}

/// The position of key `k` (meaningful where `has_key`).
pub open spec fn key_index<V>(s: Seq<(PublicKey, V)>, k: Seq<u8>) -> int {
    choose|i: int| 0 <= i < s.len() && #[trigger] s[i].0@ == k
}

/// The list read as a map from key bytes to the entries' views.
pub open spec fn map_view<V: View>(s: Seq<(PublicKey, V)>) -> Map<Seq<u8>, V::V> {
    Map::new(|k: Seq<u8>| has_key(s, k), |k: Seq<u8>| s[key_index(s, k)].1@)
}

/// In a sorted list each key sits at exactly one position.
pub proof fn lemma_sorted_unique<V>(s: Seq<(PublicKey, V)>, i: int, j: int)
    requires
        keys_sorted(key_seq(s)),
        0 <= i < s.len(),
        0 <= j < s.len(),
        s[i].0@ == s[j].0@,
    ensures
        i == j,
{
    if i < j {
        assert(bytes_lt(key_seq(s)[i], key_seq(s)[j]));
        lemma_bytes_lt_irreflexive(s[i].0@);
    } else if j < i {
        assert(bytes_lt(key_seq(s)[j], key_seq(s)[i]));
        lemma_bytes_lt_irreflexive(s[i].0@);
    }
}

/// The map view at the key of position `i` is the entry at `i`.
pub proof fn lemma_map_view_at<V: View>(s: Seq<(PublicKey, V)>, i: int)
    requires
        keys_sorted(key_seq(s)),
        0 <= i < s.len(),
    ensures
        has_key(s, s[i].0@),
        key_index(s, s[i].0@) == i,
        map_view(s).contains_key(s[i].0@),
        map_view(s)[s[i].0@] == s[i].1@,
{
    assert(has_key(s, s[i].0@));
    let j = key_index(s, s[i].0@);
    lemma_sorted_unique(s, i, j);
}

/// Finds `key` in a sorted list: `Ok(i)` where it sits at `i`, else
/// `Err(p)` with `p` the position where it would keep the list sorted.
pub fn find_key<V>(entries: &Vec<(PublicKey, V)>, key: &PublicKey) -> (r: Result<usize, usize>)
    requires
        keys_sorted(key_seq(entries@)),
    ensures
        r matches Ok(i) ==> i < entries@.len() && entries@[i as int].0@ == key@,
        r matches Err(p) ==> p <= entries@.len()
            && (forall|i: int| 0 <= i < p ==> bytes_lt(#[trigger] entries@[i].0@, key@))
            && (forall|i: int| p <= i < entries@.len() ==> bytes_lt(key@, #[trigger] entries@[i].0@)),
        r is Ok <==> has_key(entries@, key@),
{
    let mut i: usize = 0;
    while i < entries.len()
        invariant
            i <= entries@.len(),
            keys_sorted(key_seq(entries@)),
            forall|j: int| 0 <= j < i ==> bytes_lt(#[trigger] entries@[j].0@, key@),
        decreases entries.len() - i,
    {
        let c = entries[i].0.compare(key);
        if c == 0 {
            return Ok(i);
        }
        if c > 0 {
            proof {
                assert forall|j: int| i <= j < entries@.len() implies bytes_lt(key@, #[trigger] entries@[j].0@) by {
                    if j > i {
                        assert(bytes_lt(key_seq(entries@)[i as int], key_seq(entries@)[j]));
                        lemma_bytes_lt_transitive(key@, entries@[i as int].0@, entries@[j].0@);
                    }
                }
                assert forall|j: int| 0 <= j < entries@.len() implies entries@[j].0@ != key@ by {
                    if j < i {
                        lemma_bytes_lt_irreflexive(key@);
                    } else {
                        lemma_bytes_lt_irreflexive(key@);
                    }
                }
            }
            return Err(i);
        }
        i = i + 1;
    }
    proof {
        assert forall|j: int| 0 <= j < entries@.len() implies entries@[j].0@ != key@ by {
            lemma_bytes_lt_irreflexive(key@);
        }
    }
    Err(i)
}

/// Inserting an entry at a position that keeps the keys sorted.
pub proof fn lemma_insert_sorted<V: View>(s: Seq<(PublicKey, V)>, p: int, e: (PublicKey, V))
    requires
        keys_sorted(key_seq(s)),
        0 <= p <= s.len(),
        forall|i: int| 0 <= i < p ==> bytes_lt(#[trigger] s[i].0@, e.0@),
        forall|i: int| p <= i < s.len() ==> bytes_lt(e.0@, #[trigger] s[i].0@),
    ensures
        keys_sorted(key_seq(s.insert(p, e))),
        map_view(s.insert(p, e)) == map_view(s).insert(e.0@, e.1@),
        !has_key(s, e.0@),
{
    let t = s.insert(p, e);
    assert forall|i: int, j: int| 0 <= i < j < key_seq(t).len() implies bytes_lt(#[trigger] key_seq(t)[i], #[trigger] key_seq(t)[j]) by {
        if j < p {
            assert(bytes_lt(key_seq(s)[i], key_seq(s)[j]));
        } else if j == p {
        } else if i < p {
            assert(bytes_lt(key_seq(s)[i], key_seq(s)[j - 1]) || i == j - 1);
        } else if i == p {
        } else {
            assert(bytes_lt(key_seq(s)[i - 1], key_seq(s)[j - 1]));
        }
    }
    assert forall|i: int| 0 <= i < s.len() implies s[i].0@ != e.0@ by {
        lemma_bytes_lt_irreflexive(e.0@);
    }
    assert(map_view(t) =~= map_view(s).insert(e.0@, e.1@)) by {
        assert forall|k: Seq<u8>| map_view(t).contains_key(k) <==> map_view(s).insert(e.0@, e.1@).contains_key(k) by {
            if has_key(t, k) {
                let j = key_index(t, k);
                if j < p {
                    assert(s[j].0@ == k);
                } else if j > p {
                    assert(s[j - 1].0@ == k);
                }
            }
            if has_key(s, k) {
                let j = key_index(s, k);
                if j < p {
                    assert(t[j].0@ == k);
                } else {
                    assert(t[j + 1].0@ == k);
                }
            }
            if k == e.0@ {
                assert(t[p].0@ == k);
            }
        }
        assert forall|k: Seq<u8>| #[trigger] map_view(t).contains_key(k) implies map_view(t)[k] == map_view(s).insert(e.0@, e.1@)[k] by {
            let j = key_index(t, k);
            lemma_map_view_at(t, j);
            if j < p {
                lemma_map_view_at(s, j);
            } else if j > p {
                lemma_map_view_at(s, j - 1);
            }
        }
    }
}

/// Replacing the value at a position keeps keys and changes one entry.
pub proof fn lemma_update_sorted<V: View>(s: Seq<(PublicKey, V)>, i: int, e: (PublicKey, V))
    requires
        keys_sorted(key_seq(s)),
        0 <= i < s.len(),
        e.0@ == s[i].0@,
    ensures
        keys_sorted(key_seq(s.update(i, e))),
        key_seq(s.update(i, e)) == key_seq(s),
        map_view(s.update(i, e)) == map_view(s).insert(e.0@, e.1@),
{
    let t = s.update(i, e);
    assert(key_seq(t) =~= key_seq(s));
    assert(map_view(t) =~= map_view(s).insert(e.0@, e.1@)) by {
        assert forall|k: Seq<u8>| map_view(t).contains_key(k) <==> map_view(s).insert(e.0@, e.1@).contains_key(k) by {
            if has_key(t, k) {
                let j = key_index(t, k);
                assert(s[j].0@ == k);
            }
            if has_key(s, k) {
                let j = key_index(s, k);
                assert(t[j].0@ == k);
            }
            if k == e.0@ {
                assert(t[i].0@ == k);
            }
        }
        assert forall|k: Seq<u8>| #[trigger] map_view(t).contains_key(k) implies map_view(t)[k] == map_view(s).insert(e.0@, e.1@)[k] by {
            let j = key_index(t, k);
            lemma_map_view_at(t, j);
            if j != i {
                if k == e.0@ {
                    lemma_sorted_unique(t, i, j);
                }
                lemma_map_view_at(s, j);
            }
        }
    }
}

/// Sets `key`'s entry to `value`, inserting it in sorted position where
/// the key is new.
pub fn upsert<V: View>(entries: &mut Vec<(PublicKey, V)>, key: PublicKey, value: V)
    requires
        keys_sorted(key_seq(old(entries)@)),
    ensures
        keys_sorted(key_seq(final(entries)@)),
        map_view(final(entries)@) == map_view(old(entries)@).insert(key@, value@),
{
    match find_key(entries, &key) {
        Ok(i) => {
            proof { lemma_update_sorted(entries@, i as int, (key, value)); }
            entries.set(i, (key, value));
        },
        Err(p) => {
            proof { lemma_insert_sorted(entries@, p as int, (key, value)); }
            entries.insert(p, (key, value));
        },
    }
}

} // verus!
