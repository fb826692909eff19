//! Small maps kept as vectors of `(key, value)` pairs with distinct keys.
use vstd::prelude::*;

verus! {

/// No key occurs twice in `s`.
pub open spec fn keys_unique<K, V>(s: Seq<(K, V)>) -> bool {
    forall|i: int, j: int| 0 <= i < j < s.len() ==> #[trigger] s[i].0 != #[trigger] s[j].0
}

/// Some pair of `s` has key `k`.
pub open spec fn has_key<K, V>(s: Seq<(K, V)>, k: K) -> bool {
    exists|i: int| 0 <= i < s.len() && #[trigger] s[i].0 == k
}

/// The value stored under `k`, if any.
pub open spec fn lookup<K, V>(s: Seq<(K, V)>, k: K) -> Option<V> {
    if has_key(s, k) {
        Some(s[choose|i: int| 0 <= i < s.len() && #[trigger] s[i].0 == k].1)
    } else {
        None
    }
}

/// With distinct keys, the pair at `i` is what its key finds.
pub proof fn lemma_lookup_at<K, V>(s: Seq<(K, V)>, i: int)
    requires
        keys_unique(s),
        0 <= i < s.len(),
    ensures
        lookup(s, s[i].0) == Some(s[i].1),
{
    let k = s[i].0;
    assert(s[i].0 == k);
    let j = choose|j: int| 0 <= j < s.len() && #[trigger] s[j].0 == k;
    if j != i {
        if j < i {
            assert(s[j].0 != s[i].0);
        } else {
            assert(s[i].0 != s[j].0);
        }
    }
}

/// Replacing the value at `i` changes what its key finds and nothing else.
pub proof fn lemma_lookup_update<K, V>(s: Seq<(K, V)>, i: int, v: V)
    requires
        keys_unique(s),
        0 <= i < s.len(),
    ensures
        keys_unique(s.update(i, (s[i].0, v))),
        forall|k: K| #[trigger]
            lookup(s.update(i, (s[i].0, v)), k) == if k == s[i].0 {
                Some(v)
            } else {
                lookup(s, k)
            },
{
    let t = s.update(i, (s[i].0, v));
    assert forall|a: int, b: int| 0 <= a < b < t.len() implies #[trigger] t[a].0
        != #[trigger] t[b].0 by {
        assert(t[a].0 == s[a].0 && t[b].0 == s[b].0);
        assert(s[a].0 != s[b].0);
    }
    assert forall|k: K| #[trigger]
        lookup(t, k) == if k == s[i].0 {
            Some(v)
        } else {
            lookup(s, k)
        } by {
        if k == s[i].0 {
            lemma_lookup_at(t, i);
        } else if has_key(s, k) {
            let j = choose|j: int| 0 <= j < s.len() && #[trigger] s[j].0 == k;
            lemma_lookup_at(s, j);
            lemma_lookup_at(t, j);
        } else {
            if has_key(t, k) {
                let j = choose|j: int| 0 <= j < t.len() && #[trigger] t[j].0 == k;
                assert(s[j].0 == k);
            }
        }
    }
}

/// Appending a pair with a new key adds that key and changes nothing else.
pub proof fn lemma_lookup_push<K, V>(s: Seq<(K, V)>, k: K, v: V)
    requires
        keys_unique(s),
        !has_key(s, k),
    ensures
        keys_unique(s.push((k, v))),
        forall|q: K| #[trigger]
            lookup(s.push((k, v)), q) == if q == k {
                Some(v)
            } else {
                lookup(s, q)
            },
{
    let t = s.push((k, v));
    assert forall|a: int, b: int| 0 <= a < b < t.len() implies #[trigger] t[a].0
        != #[trigger] t[b].0 by {
        if b == s.len() {
            assert(s[a].0 == t[a].0);
        } else {
            assert(s[a].0 != s[b].0);
        }
    }
    assert forall|q: K| #[trigger]
        lookup(t, q) == if q == k {
            Some(v)
        } else {
            lookup(s, q)
        } by {
        if q == k {
            lemma_lookup_at(t, s.len() as int);
        } else if has_key(s, q) {
            let j = choose|j: int| 0 <= j < s.len() && #[trigger] s[j].0 == q;
            lemma_lookup_at(s, j);
            lemma_lookup_at(t, j);
        } else {
            if has_key(t, q) {
                let j = choose|j: int| 0 <= j < t.len() && #[trigger] t[j].0 == q;
                assert(j < s.len());
                assert(s[j].0 == q);
            }
        }
    }
}

/// Inserting a pair with a new key at position `p` adds that key and changes
/// nothing else.
pub proof fn lemma_lookup_insert<K, V>(s: Seq<(K, V)>, p: int, k: K, v: V)
    requires
        keys_unique(s),
        !has_key(s, k),
        0 <= p <= s.len(),
    ensures
        keys_unique(s.insert(p, (k, v))),
        forall|q: K| #[trigger]
            lookup(s.insert(p, (k, v)), q) == if q == k {
                Some(v)
            } else {
                lookup(s, q)
            },
{
    let t = s.insert(p, (k, v));
    assert forall|a: int, b: int| 0 <= a < b < t.len() implies #[trigger] t[a].0
        != #[trigger] t[b].0 by {
        if a == p {
            assert(t[b].0 == s[b - 1].0);
        } else if b == p {
            assert(t[a].0 == s[a].0);
        } else if a < p && b < p {
            assert(s[a].0 != s[b].0);
        } else if a < p {
            assert(t[b].0 == s[b - 1].0);
            assert(s[a].0 != s[b - 1].0);
        } else {
            assert(t[a].0 == s[a - 1].0 && t[b].0 == s[b - 1].0);
            assert(s[a - 1].0 != s[b - 1].0);
        }
    }
    assert forall|q: K| #[trigger]
        lookup(t, q) == if q == k {
            Some(v)
        } else {
            lookup(s, q)
        } by {
        if q == k {
            lemma_lookup_at(t, p);
        } else if has_key(s, q) {
            let j = choose|j: int| 0 <= j < s.len() && #[trigger] s[j].0 == q;
            lemma_lookup_at(s, j);
            if j < p {
                lemma_lookup_at(t, j);
            } else {
                assert(t[j + 1] == s[j]);
                lemma_lookup_at(t, j + 1);
            }
        } else {
            if has_key(t, q) {
                let j = choose|j: int| 0 <= j < t.len() && #[trigger] t[j].0 == q;
                if j < p {
                    assert(s[j].0 == q);
                } else {
                    assert(j != p);
                    assert(s[j - 1].0 == q);
                }
            }
        }
    }
}

/// The position of key `k` in `v`, if it is there.
pub fn find_key<V>(v: &Vec<(u64, V)>, k: u64) -> (r: Option<usize>)
    ensures
        match r {
            Some(i) => i < v@.len() && v@[i as int].0 == k,
            None => !has_key(v@, k),
        },
{
    let mut i: usize = 0;
    while i < v.len()
        invariant
            i <= v@.len(),
            forall|j: int| 0 <= j < i ==> #[trigger] v@[j].0 != k,
        decreases v@.len() - i,
    {
        if v[i].0 == k {
            return Some(i);
        }
        i += 1;
    }
    None
}

} // verus!
