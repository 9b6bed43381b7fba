//! Association lists: sequences of key/value pairs looked up by first match.
//! The manifest stores its records this way, with keys kept distinct.

use vstd::prelude::*;

verus! {

/// The index of the first pair whose key equals `key`, or -1 if there is none.
pub open spec fn find_key<K, V>(s: Seq<(K, V)>, key: K) -> int
    decreases s.len(),
{
    if s.len() == 0 {
        -1
    } else if s[0].0 == key {
        0
    } else {
        let r = find_key(s.drop_first(), key);
        if r < 0 {
            -1
        } else {
            r + 1
        }
    }
}

/// No two pairs share a key.
pub open spec fn keys_distinct<K, V>(s: Seq<(K, V)>) -> bool {
    forall|i: int, j: int| 0 <= i < j < s.len() ==> s[i].0 != s[j].0
}

/// What `find_key` returns: either a valid index of the first matching pair,
/// or -1 when no pair matches.
pub proof fn lemma_find_key_props<K, V>(s: Seq<(K, V)>, key: K)
    ensures
        find_key(s, key) >= 0 ==> {
            &&& 0 <= find_key(s, key) < s.len()
            &&& s[find_key(s, key)].0 == key
            &&& forall|j: int| 0 <= j < find_key(s, key) ==> s[j].0 != key
        },
        find_key(s, key) < 0 ==> {
            &&& find_key(s, key) == -1
            &&& forall|j: int| 0 <= j < s.len() ==> s[j].0 != key
        },
    decreases s.len(),
{
    if s.len() == 0 {
    } else if s[0].0 == key {
    } else {
        lemma_find_key_props(s.drop_first(), key);
        assert(forall|j: int| 0 < j < s.len() ==> s[j] == s.drop_first()[j - 1]);
    }
}

/// `find_key` returns exactly the first index whose key matches.
pub proof fn lemma_find_key_at<K, V>(s: Seq<(K, V)>, key: K, i: int)
    requires
        0 <= i < s.len(),
        s[i].0 == key,
        forall|j: int| 0 <= j < i ==> s[j].0 != key,
    ensures
        find_key(s, key) == i,
    decreases s.len(),
{
    if i == 0 {
    } else {
        assert(forall|j: int| 0 <= j < s.drop_first().len() ==> s.drop_first()[j] == s[j + 1]);
        lemma_find_key_at(s.drop_first(), key, i - 1);
    }
}

/// Appending a pair leaves earlier lookups alone; a new key is found at the end.
pub proof fn lemma_find_key_push<K, V>(s: Seq<(K, V)>, key: K, e: (K, V))
    ensures
        find_key(s.push(e), key) == if find_key(s, key) >= 0 {
            find_key(s, key)
        } else if e.0 == key {
            s.len() as int
        } else {
            -1int
        },
{
    lemma_find_key_props(s, key);
    let t = s.push(e);
    if find_key(s, key) >= 0 {
        let i = find_key(s, key);
        assert(t[i].0 == key);
        lemma_find_key_at(t, key, i);
    } else if e.0 == key {
        assert(t[s.len() as int].0 == key);
        lemma_find_key_at(t, key, s.len() as int);
    } else {
        lemma_find_key_props(t, key);
        if find_key(t, key) >= 0 {
            let i = find_key(t, key);
            assert(t[i].0 == key);
            assert(i < s.len() ==> s[i].0 == key);
            assert(false);
        }
    }
}

/// Lookups depend only on the keys: two lists with the same keys in the same
/// positions are searched alike.
pub proof fn lemma_find_key_same_keys<K, V>(s1: Seq<(K, V)>, s2: Seq<(K, V)>, key: K)
    requires
        s1.len() == s2.len(),
        forall|i: int| 0 <= i < s1.len() ==> s1[i].0 == s2[i].0,
    ensures
        find_key(s1, key) == find_key(s2, key),
{
    lemma_find_key_props(s1, key);
    lemma_find_key_props(s2, key);
    if find_key(s1, key) >= 0 {
        lemma_find_key_at(s2, key, find_key(s1, key));
    } else {
        if find_key(s2, key) >= 0 {
            let i = find_key(s2, key);
            assert(s1[i].0 == key);
            assert(false);
        }
    }
}

/// A list none of whose keys match is searched in vain.
pub proof fn lemma_find_key_none<K, V>(s: Seq<(K, V)>, key: K)
    requires
        forall|j: int| 0 <= j < s.len() ==> s[j].0 != key,
    ensures
        find_key(s, key) == -1,
{
    lemma_find_key_props(s, key);
    if find_key(s, key) >= 0 {
        assert(s[find_key(s, key)].0 == key);
        assert(false);
    }
}

/// Linear scan for a string key, reported with the first-match facts that
/// `find_key` is characterized by.
pub(crate) fn find_index<V>(v: &Vec<(String, V)>, key: &String) -> (r: Option<usize>)
    ensures
        match r {
            Some(i) => {
                &&& i < v@.len()
                &&& v@[i as int].0@ == key@
                &&& forall|j: int| 0 <= j < i ==> v@[j].0@ != key@
            },
            None => forall|j: int| 0 <= j < v@.len() ==> v@[j].0@ != key@,
        },
{
    let n = v.len();
    let mut i: usize = 0;
    while i < n
        invariant
            i <= n,
            n == v@.len(),
            forall|j: int| 0 <= j < i ==> v@[j].0@ != key@,
        decreases n - i,
    {
        if v[i].0 == *key {
            return Some(i);
        }
        i += 1;
    }
    None
}

/// Linear scan for an integer key, reported the same way.
pub(crate) fn find_index_u32<V>(v: &Vec<(u32, V)>, key: u32) -> (r: Option<usize>)
    ensures
        match r {
            Some(i) => {
                &&& i < v@.len()
                &&& v@[i as int].0 == key
                &&& forall|j: int| 0 <= j < i ==> v@[j].0 != key
            },
            None => forall|j: int| 0 <= j < v@.len() ==> v@[j].0 != key,
        },
{
    let n = v.len();
    let mut i: usize = 0;
    while i < n
        invariant
            i <= n,
            n == v@.len(),
            forall|j: int| 0 <= j < i ==> v@[j].0 != key,
        decreases n - i,
    {
        if v[i].0 == key {
            return Some(i);
        }
        i += 1;
    }
    None
}

} // verus!
