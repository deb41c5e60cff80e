//! Association lists: small maps kept as vectors of key/value pairs, in
//! which a key occurs at most once and an insert replaces the old value.
use vstd::prelude::*;

verus! {

/// Keys that can be compared for equality in executable code.
pub trait Key: Copy + Sized {
    fn same(&self, other: &Self) -> (r: bool)
        ensures
            r == (*self == *other),
    ;
}

impl Key for usize {
    fn same(&self, other: &Self) -> (r: bool) {
        *self == *other
    }
}

impl Key for char {
    fn same(&self, other: &Self) -> (r: bool) {
        *self == *other
    }
}

/// Index of the first entry with key `k`, or -1 when there is none.
pub open spec fn key_index<K, V>(s: Seq<(K, V)>, k: K) -> int
    decreases s.len(),
{
    if s.len() == 0 {
        -1
    } else {
        let j = key_index(s.drop_last(), k);
        if j >= 0 {
            j
        } else if s.last().0 == k {
            s.len() - 1
        } else {
            -1
        }
    }
}

/// The value stored under `k`.
pub open spec fn assoc_get<K, V>(s: Seq<(K, V)>, k: K) -> Option<V> {
    let i = key_index(s, k);
    if i < 0 {
        None
    } else {
        Some(s[i].1)
    }
}

/// The list after storing `v` under `k`: the entry of `k` is replaced in
/// place, or a new entry is added at the end.
pub open spec fn assoc_insert<K, V>(s: Seq<(K, V)>, k: K, v: V) -> Seq<(K, V)> {
    let i = key_index(s, k);
    if i < 0 {
        s.push((k, v))
    } else {
        s.update(i, (k, v))
    }
}

/// The list with `f` applied to each value.
pub open spec fn map_entries<K, V, W>(s: Seq<(K, V)>, f: spec_fn(V) -> W) -> Seq<(K, W)> {
    Seq::new(s.len(), |i: int| (s[i].0, f(s[i].1)))
}

/// Inserting commutes with mapping the values.
pub proof fn lemma_insert_map<K, V, W>(s: Seq<(K, V)>, k: K, v: V, f: spec_fn(V) -> W)
    ensures
        map_entries(assoc_insert(s, k, v), f) == assoc_insert(map_entries(s, f), k, f(v)),
{
    let t = map_entries(s, f);
    lemma_key_index_keys(s, t, k);
    lemma_key_index(s, k);
    assert(map_entries(assoc_insert(s, k, v), f) =~= assoc_insert(t, k, f(v)));
}

/// No key occurs twice.
pub open spec fn keys_distinct<K, V>(s: Seq<(K, V)>) -> bool {
    forall|i: int, j: int| 0 <= i < j < s.len() ==> s[i].0 != s[j].0
}

pub proof fn lemma_key_index<K, V>(s: Seq<(K, V)>, k: K)
    ensures
        -1 <= key_index(s, k) < s.len(),
        key_index(s, k) >= 0 ==> s[key_index(s, k)].0 == k,
        forall|j: int| 0 <= j < s.len() && (key_index(s, k) < 0 || j < key_index(s, k)) ==> s[j].0 != k,
    decreases s.len(),
{
    if s.len() > 0 {
        lemma_key_index(s.drop_last(), k);
        assert forall|j: int| 0 <= j < s.len() - 1 implies s.drop_last()[j] == s[j] by {}
    }
}

/// The key index depends on the keys only.
pub proof fn lemma_key_index_keys<K, V, W>(s: Seq<(K, V)>, t: Seq<(K, W)>, k: K)
    requires
        s.len() == t.len(),
        forall|i: int| 0 <= i < s.len() ==> s[i].0 == t[i].0,
    ensures
        key_index(s, k) == key_index(t, k),
    decreases s.len(),
{
    if s.len() > 0 {
        lemma_key_index_keys(s.drop_last(), t.drop_last(), k);
    }
}

/// Lookups in two lists with the same keys find the same position.
pub proof fn lemma_get_keys<K, V, W>(s: Seq<(K, V)>, t: Seq<(K, W)>, k: K)
    requires
        s.len() == t.len(),
        forall|i: int| 0 <= i < s.len() ==> s[i].0 == t[i].0,
    ensures
        key_index(s, k) == key_index(t, k),
        -1 <= key_index(s, k) < s.len(),
        key_index(s, k) >= 0 ==> assoc_get(s, k) == Some(s[key_index(s, k)].1) && assoc_get(t, k)
            == Some(t[key_index(s, k)].1),
        key_index(s, k) < 0 ==> assoc_get(s, k) is None && assoc_get(t, k) is None,
{
    lemma_key_index_keys(s, t, k);
    lemma_key_index(s, k);
}

/// Reading back after an insert gives the value written under that key and
/// leaves the other keys as they were.
pub proof fn lemma_get_insert<K, V>(s: Seq<(K, V)>, k: K, v: V, k2: K)
    ensures
        assoc_get(assoc_insert(s, k, v), k2) == if k2 == k {
            Some(v)
        } else {
            assoc_get(s, k2)
        },
{
    lemma_key_index(s, k);
    lemma_key_index(s, k2);
    let t = assoc_insert(s, k, v);
    lemma_key_index(t, k2);
    let i = key_index(s, k);
    let i2 = key_index(s, k2);
    let j2 = key_index(t, k2);
    if k2 == k {
        if i < 0 {
            assert(t[s.len() as int].0 == k);
        } else {
            assert(t[i].0 == k);
        }
    } else {
        if i2 >= 0 {
            assert(t[i2].0 == k2);
        }
        if j2 >= 0 && j2 < s.len() {
            assert(s[j2].0 == k2);
        }
    }
}

/// An insert keeps the keys distinct.
pub proof fn lemma_insert_distinct<K, V>(s: Seq<(K, V)>, k: K, v: V)
    requires
        keys_distinct(s),
    ensures
        keys_distinct(assoc_insert(s, k, v)),
{
    lemma_key_index(s, k);
}

/// Position of the entry with key `k`.
pub fn find_key<K: Key, V>(s: &Vec<(K, V)>, k: &K) -> (r: Option<usize>)
    ensures
        match r {
            Some(i) => i < s.len() && key_index(s@, *k) == i,
            None => key_index(s@, *k) < 0,
        },
{
    proof {
        lemma_key_index(s@, *k);
    }
    let mut i: usize = 0;
    while i < s.len()
        invariant
            i <= s.len(),
            forall|j: int| 0 <= j < i ==> s@[j].0 != *k,
            -1 <= key_index(s@, *k) < s@.len(),
            key_index(s@, *k) >= 0 ==> s@[key_index(s@, *k)].0 == *k,
            forall|j: int|
                0 <= j < s.len() && (key_index(s@, *k) < 0 || j < key_index(s@, *k)) ==> s@[j].0
                    != *k,
        decreases s.len() - i,
    {
        if s[i].0.same(k) {
            return Some(i);
        }
        i = i + 1;
    }
    None
}

/// Reference to the value stored under `k`.
pub fn get_value<'a, K: Key, V>(s: &'a Vec<(K, V)>, k: &K) -> (r: Option<&'a V>)
    ensures
        match r {
            Some(v) => assoc_get(s@, *k) == Some(*v),
            None => assoc_get(s@, *k) is None,
        },
{
    match find_key(s, k) {
        Some(i) => Some(&s[i].1),
        None => None,
    }
}

/// Stores `v` under `k`.
pub fn insert_value<K: Key, V>(s: &mut Vec<(K, V)>, k: K, v: V)
    ensures
        final(s)@ == assoc_insert(old(s)@, k, v),
{
    match find_key(s, &k) {
        Some(i) => {
            s.set(i, (k, v));
        },
        None => {
            s.push((k, v));
        },
    }
}

/// With distinct keys, the value stored under a key is that of its entry.
pub proof fn lemma_distinct_get<K, V>(s: Seq<(K, V)>, k: K)
    requires
        keys_distinct(s),
    ensures
        forall|i: int| 0 <= i < s.len() && #[trigger] s[i].0 == k ==> assoc_get(s, k) == Some(s[i].1),
        (forall|i: int| 0 <= i < s.len() ==> #[trigger] s[i].0 != k) ==> assoc_get(s, k) is None,
{
    lemma_key_index(s, k);
}

} // verus!
