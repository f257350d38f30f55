//! Maps keyed by strings, held as vectors of `(key, value)` pairs in strictly increasing key order.
//! vstd's specifications of `BTreeMap` hold only for key types whose order obeys `obeys_cmp`,
//! which cannot be shown of `String`; the order here is `precedes`, proved a strict total order.
use vstd::prelude::*;
use crate::text::{chars_of, precedes, precedes_exec, lemma_precedes_irreflexive, lemma_precedes_total, lemma_precedes_transitive};

verus! {

/// The keys of `s` are strictly increasing.
pub open spec fn keys_sorted<V>(s: Seq<(String, V)>) -> bool {
    forall|i: int, j: int| 0 <= i < j < s.len() ==> precedes(#[trigger] s[i].0@, #[trigger] s[j].0@)
}

/// `k` is the key of some entry of `s`.
pub open spec fn has_key<V>(s: Seq<(String, V)>, k: Seq<char>) -> bool {
    exists|i: int| 0 <= i < s.len() && #[trigger] s[i].0@ == k
}

/// The map that the entries of `s` describe.
pub open spec fn map_of<V>(s: Seq<(String, V)>) -> Map<Seq<char>, V>
    decreases s.len(),
{
    if s.len() == 0 {
        Map::empty()
    } else {
        map_of(s.drop_last()).insert(s.last().0@, s.last().1)
    }
}

/// The keys of the map are the keys of the entries.
pub proof fn lemma_map_of_dom<V>(s: Seq<(String, V)>, k: Seq<char>)
    ensures
        map_of(s).contains_key(k) == has_key(s, k),
    decreases s.len(),
{
    if s.len() > 0 {
        let t = s.drop_last();
        lemma_map_of_dom(t, k);
        if has_key(t, k) {
            let c = choose|c: int| 0 <= c < t.len() && #[trigger] t[c].0@ == k;
            assert(s[c].0@ == k);
        }
        if has_key(s, k) && s.last().0@ != k {
            let c = choose|c: int| 0 <= c < s.len() && #[trigger] s[c].0@ == k;
            assert(c != s.len() - 1);
            assert(t[c].0@ == k);
        }
        if s.last().0@ == k {
            assert(s[s.len() - 1].0@ == k);
        }
    }
}

/// The map of a vector of entries is finite.
pub proof fn lemma_map_of_finite<V>(s: Seq<(String, V)>)
    ensures
        map_of(s).dom().finite(),
    decreases s.len(),
{
    if s.len() > 0 {
        lemma_map_of_finite(s.drop_last());
    }
}

/// In a sorted vector, the entry at `j` is the one the map gives for its key.
pub proof fn lemma_map_of_index<V>(s: Seq<(String, V)>, j: int)
    requires
        keys_sorted(s),
        0 <= j < s.len(),
    ensures
        map_of(s).contains_key(s[j].0@),
        map_of(s)[s[j].0@] == s[j].1,
    decreases s.len(),
{
    let t = s.drop_last();
    if j < s.len() - 1 {
        assert(keys_sorted(t)) by {
            assert forall|a: int, b: int| 0 <= a < b < t.len() implies precedes(
                #[trigger] t[a].0@,
                #[trigger] t[b].0@,
            ) by {
                assert(precedes(s[a].0@, s[b].0@));
            }
        }
        lemma_map_of_index(t, j);
        assert(precedes(s[j].0@, s[s.len() - 1].0@));
        lemma_precedes_irreflexive(s[j].0@);
        assert(t[j] == s[j]);
    }
}

/// Every index of a sorted vector, read through the map, and the keys of the map.
pub proof fn lemma_map_of_all<V>(s: Seq<(String, V)>)
    requires
        keys_sorted(s),
    ensures
        forall|j: int|
            0 <= j < s.len() ==> #[trigger] map_of(s).contains_key(s[j].0@) && map_of(s)[s[j].0@]
                == s[j].1,
        forall|k: Seq<char>| #[trigger] map_of(s).contains_key(k) == has_key(s, k),
{
    assert forall|j: int| 0 <= j < s.len() implies #[trigger] map_of(s).contains_key(s[j].0@)
        && map_of(s)[s[j].0@] == s[j].1 by {
        lemma_map_of_index(s, j);
    }
    assert forall|k: Seq<char>| #[trigger] map_of(s).contains_key(k) == has_key(s, k) by {
        lemma_map_of_dom(s, k);
    }
}

/// Where `key` stands among the sorted entries: `Ok(i)` when the entry at `i` has it, `Err(i)`
/// when it would be inserted at `i`.
pub fn locate<V>(entries: &Vec<(String, V)>, key: &String) -> (r: Result<usize, usize>)
    requires
        keys_sorted(entries@),
    ensures
        match r {
            Ok(i) => i < entries@.len() && entries@[i as int].0@ == key@,
            Err(i) => i <= entries@.len() && (forall|j: int|
                0 <= j < i ==> precedes(#[trigger] entries@[j].0@, key@)) && (forall|j: int|
                i <= j < entries@.len() ==> precedes(key@, #[trigger] entries@[j].0@)),
        },
        r is Err ==> !has_key(entries@, key@),
{
    let target = chars_of(key.as_str());
    let mut i: usize = 0;
    while i < entries.len()
        invariant
            keys_sorted(entries@),
            target@ == key@,
            i <= entries@.len(),
            forall|j: int| 0 <= j < i ==> precedes(#[trigger] entries@[j].0@, key@),
        decreases entries@.len() - i,
    {
        if entries[i].0 == *key {
            return Ok(i);
        }
        let here = chars_of(entries[i].0.as_str());
        if precedes_exec(&target, &here) {
            assert forall|j: int| i <= j < entries@.len() implies precedes(
                key@,
                #[trigger] entries@[j].0@,
            ) by {
                if j > i {
                    assert(precedes(entries@[i as int].0@, entries@[j].0@));
                    lemma_precedes_transitive(key@, entries@[i as int].0@, entries@[j].0@);
                }
            }
            assert(!has_key(entries@, key@)) by {
                if has_key(entries@, key@) {
                    let c = choose|c: int| 0 <= c < entries@.len() && #[trigger] entries@[c].0@ == key@;
                    lemma_precedes_irreflexive(key@);
                    if c < i {
                        assert(precedes(entries@[c].0@, key@));
                    } else {
                        assert(precedes(key@, entries@[c].0@));
                    }
                }
            }
            return Err(i);
        }
        proof {
            lemma_precedes_total(key@, entries@[i as int].0@);
        }
        i = i + 1;
    }
    assert(!has_key(entries@, key@)) by {
        if has_key(entries@, key@) {
            let c = choose|c: int| 0 <= c < entries@.len() && #[trigger] entries@[c].0@ == key@;
            lemma_precedes_irreflexive(key@);
            assert(precedes(entries@[c].0@, key@));
        }
    }
    Err(i)
}

/// Sets the value of `key`, keeping the keys sorted.
pub fn put<V>(entries: &mut Vec<(String, V)>, key: String, value: V)
    requires
        keys_sorted(old(entries)@),
    ensures
        keys_sorted(final(entries)@),
        map_of(final(entries)@) == map_of(old(entries)@).insert(key@, value),
{
    let ghost s = entries@;
    let ghost k = key@;
    proof {
        lemma_map_of_all(s);
    }
    match locate(entries, &key) {
        Ok(i) => {
            entries.set(i, (key, value));
            let ghost n = entries@;
            assert(keys_sorted(n)) by {
                assert forall|a: int, b: int| 0 <= a < b < n.len() implies precedes(
                    #[trigger] n[a].0@,
                    #[trigger] n[b].0@,
                ) by {
                    assert(precedes(s[a].0@, s[b].0@));
                }
            }
            proof {
                lemma_map_of_all(n);
            }
            assert(map_of(n) =~= map_of(s).insert(k, value)) by {
                assert forall|x: Seq<char>| #[trigger] has_key(n, x) == (has_key(s, x) || x == k) by {
                    if has_key(n, x) {
                        let c = choose|c: int| 0 <= c < n.len() && #[trigger] n[c].0@ == x;
                        assert(s[c].0@ == x);
                    }
                    if has_key(s, x) {
                        let c = choose|c: int| 0 <= c < s.len() && #[trigger] s[c].0@ == x;
                        assert(n[c].0@ == x);
                    }
                    if x == k {
                        assert(n[i as int].0@ == x);
                    }
                }
                assert forall|x: Seq<char>| #[trigger] has_key(n, x) implies map_of(n)[x] == map_of(
                    s,
                ).insert(k, value)[x] by {
                    let c = choose|c: int| 0 <= c < n.len() && #[trigger] n[c].0@ == x;
                    lemma_map_of_index(n, c);
                    if c != i {
                        assert(s[c].0@ == x);
                        lemma_map_of_index(s, c);
                        lemma_precedes_irreflexive(x);
                        if c < i {
                            assert(precedes(s[c].0@, s[i as int].0@));
                        } else {
                            assert(precedes(s[i as int].0@, s[c].0@));
                        }
                    }
                }
            }
        },
        Err(i) => {
            entries.insert(i, (key, value));
            let ghost n = entries@;
            assert(keys_sorted(n)) by {
                assert forall|a: int, b: int| 0 <= a < b < n.len() implies precedes(
                    #[trigger] n[a].0@,
                    #[trigger] n[b].0@,
                ) by {
                    if b < i {
                        assert(precedes(s[a].0@, s[b].0@));
                    } else if b == i {
                        assert(n[a] == s[a]);
                    } else if a == i {
                        assert(n[b] == s[b - 1]);
                    } else if a < i {
                        assert(precedes(s[a].0@, s[b - 1].0@));
                    } else {
                        assert(precedes(s[a - 1].0@, s[b - 1].0@));
                    }
                }
            }
            proof {
                lemma_map_of_all(n);
            }
            assert(map_of(n) =~= map_of(s).insert(k, value)) by {
                assert forall|x: Seq<char>| #[trigger] has_key(n, x) == (has_key(s, x) || x == k) by {
                    if has_key(n, x) {
                        let c = choose|c: int| 0 <= c < n.len() && #[trigger] n[c].0@ == x;
                        if c < i {
                            assert(s[c].0@ == x);
                        } else if c > i {
                            assert(s[c - 1].0@ == x);
                        }
                    }
                    if has_key(s, x) {
                        let c = choose|c: int| 0 <= c < s.len() && #[trigger] s[c].0@ == x;
                        if c < i {
                            assert(n[c].0@ == x);
                        } else {
                            assert(n[c + 1].0@ == x);
                        }
                    }
                    if x == k {
                        assert(n[i as int].0@ == x);
                    }
                }
                assert forall|x: Seq<char>| #[trigger] has_key(n, x) implies map_of(n)[x] == map_of(
                    s,
                ).insert(k, value)[x] by {
                    let c = choose|c: int| 0 <= c < n.len() && #[trigger] n[c].0@ == x;
                    lemma_map_of_index(n, c);
                    if c < i {
                        assert(s[c].0@ == x);
                        lemma_map_of_index(s, c);
                    } else if c > i {
                        assert(s[c - 1].0@ == x);
                        lemma_map_of_index(s, c - 1);
                    }
                }
            }
        },
    }
}

/// Removes the entry of `key`, if there is one, and returns its value.
pub fn take<V>(entries: &mut Vec<(String, V)>, key: &String) -> (r: Option<V>)
    requires
        keys_sorted(old(entries)@),
    ensures
        keys_sorted(final(entries)@),
        map_of(final(entries)@) == map_of(old(entries)@).remove(key@),
        r == map_of(old(entries)@).get(key@),
        final(entries)@.len() == old(entries)@.len() - (if r is Some { 1int } else { 0 }),
{
    let ghost s = entries@;
    let ghost k = key@;
    proof {
        lemma_map_of_all(s);
    }
    match locate(entries, key) {
        Ok(i) => {
            let (_, value) = entries.remove(i);
            let ghost n = entries@;
            assert(keys_sorted(n)) by {
                assert forall|a: int, b: int| 0 <= a < b < n.len() implies precedes(
                    #[trigger] n[a].0@,
                    #[trigger] n[b].0@,
                ) by {
                    if b < i {
                        assert(precedes(s[a].0@, s[b].0@));
                    } else if a < i {
                        assert(precedes(s[a].0@, s[b + 1].0@));
                    } else {
                        assert(precedes(s[a + 1].0@, s[b + 1].0@));
                    }
                }
            }
            proof {
                lemma_map_of_all(n);
            }
            assert(map_of(n) =~= map_of(s).remove(k)) by {
                assert forall|x: Seq<char>| #[trigger] has_key(n, x) == (has_key(s, x) && x != k) by {
                    if has_key(n, x) {
                        let c = choose|c: int| 0 <= c < n.len() && #[trigger] n[c].0@ == x;
                        lemma_precedes_irreflexive(x);
                        if c < i {
                            assert(s[c].0@ == x);
                            assert(precedes(s[c].0@, s[i as int].0@));
                        } else {
                            assert(s[c + 1].0@ == x);
                            assert(precedes(s[i as int].0@, s[c + 1].0@));
                        }
                    }
                    if has_key(s, x) && x != k {
                        let c = choose|c: int| 0 <= c < s.len() && #[trigger] s[c].0@ == x;
                        if c < i {
                            assert(n[c].0@ == x);
                        } else {
                            assert(n[c - 1].0@ == x);
                        }
                    }
                }
                assert forall|x: Seq<char>| #[trigger] has_key(n, x) implies map_of(n)[x] == map_of(
                    s,
                ).remove(k)[x] by {
                    let c = choose|c: int| 0 <= c < n.len() && #[trigger] n[c].0@ == x;
                    lemma_map_of_index(n, c);
                    if c < i {
                        assert(s[c].0@ == x);
                        lemma_map_of_index(s, c);
                    } else {
                        assert(s[c + 1].0@ == x);
                        lemma_map_of_index(s, c + 1);
                    }
                }
            }
            Some(value)
        },
        Err(_) => {
            assert(map_of(s).remove(k) =~= map_of(s));
            None
        },
    }
}


/// Two sorted vectors that describe the same map hold the same keys and values, in the same order.
pub proof fn lemma_same_map_same_entries<V>(a: Seq<(String, V)>, b: Seq<(String, V)>)
    requires
        keys_sorted(a),
        keys_sorted(b),
        map_of(a) == map_of(b),
    ensures
        a.len() == b.len(),
        forall|i: int| 0 <= i < a.len() ==> #[trigger] a[i].0@ == b[i].0@ && a[i].1 == b[i].1,
    decreases a.len() + b.len(),
{
    if a.len() == 0 || b.len() == 0 {
        if a.len() > 0 {
            lemma_map_of_index(a, a.len() - 1);
        }
        if b.len() > 0 {
            lemma_map_of_index(b, b.len() - 1);
        }
    } else {
        let la = a.len() - 1;
        let lb = b.len() - 1;
        let ka = a[la].0@;
        let kb = b[lb].0@;
        lemma_map_of_index(a, la);
        lemma_map_of_index(b, lb);
        lemma_map_of_dom(b, ka);
        lemma_map_of_dom(a, kb);
        let x = choose|x: int| 0 <= x < b.len() && #[trigger] b[x].0@ == ka;
        let y = choose|y: int| 0 <= y < a.len() && #[trigger] a[y].0@ == kb;
        if ka != kb {
            assert(x != lb && y != la);
            assert(precedes(b[x].0@, b[lb].0@));
            assert(precedes(a[y].0@, a[la].0@));
            lemma_precedes_total(ka, kb);
        }
        let a2 = a.drop_last();
        let b2 = b.drop_last();
        assert(keys_sorted(a2)) by {
            assert forall|i: int, j: int| 0 <= i < j < a2.len() implies precedes(#[trigger] a2[i].0@, #[trigger] a2[j].0@) by {
                assert(precedes(a[i].0@, a[j].0@));
            }
        }
        assert(keys_sorted(b2)) by {
            assert forall|i: int, j: int| 0 <= i < j < b2.len() implies precedes(#[trigger] b2[i].0@, #[trigger] b2[j].0@) by {
                assert(precedes(b[i].0@, b[j].0@));
            }
        }
        assert(!map_of(a2).contains_key(ka)) by {
            lemma_map_of_dom(a2, ka);
            if has_key(a2, ka) {
                let z = choose|z: int| 0 <= z < a2.len() && #[trigger] a2[z].0@ == ka;
                assert(precedes(a[z].0@, a[la].0@));
                lemma_precedes_irreflexive(ka);
            }
        }
        assert(!map_of(b2).contains_key(kb)) by {
            lemma_map_of_dom(b2, kb);
            if has_key(b2, kb) {
                let z = choose|z: int| 0 <= z < b2.len() && #[trigger] b2[z].0@ == kb;
                assert(precedes(b[z].0@, b[lb].0@));
                lemma_precedes_irreflexive(kb);
            }
        }
        assert(map_of(a2) =~= map_of(a).remove(ka));
        assert(map_of(b2) =~= map_of(b).remove(kb));
        lemma_same_map_same_entries(a2, b2);
        assert forall|i: int| 0 <= i < a.len() implies #[trigger] a[i].0@ == b[i].0@ && a[i].1 == b[i].1 by {
            if i < la {
                assert(a[i] == a2[i] && b[i] == b2[i]);
            }
        }
    }
}


/// A sorted vector describes a map with one key per entry.
pub proof fn lemma_map_of_len<V>(s: Seq<(String, V)>)
    requires
        keys_sorted(s),
    ensures
        map_of(s).dom().len() == s.len(),
    decreases s.len(),
{
    if s.len() > 0 {
        let t = s.drop_last();
        let k = s.last().0@;
        assert(keys_sorted(t)) by {
            assert forall|a: int, b: int| 0 <= a < b < t.len() implies precedes(#[trigger] t[a].0@, #[trigger] t[b].0@) by {
                assert(precedes(s[a].0@, s[b].0@));
            }
        }
        lemma_map_of_len(t);
        lemma_map_of_finite(t);
        lemma_map_of_dom(t, k);
        if has_key(t, k) {
            let z = choose|z: int| 0 <= z < t.len() && #[trigger] t[z].0@ == k;
            assert(precedes(s[z].0@, s[s.len() - 1].0@));
            lemma_precedes_irreflexive(k);
        }
        assert(map_of(s).dom() =~= map_of(t).dom().insert(k));
    }
}

} // verus!
