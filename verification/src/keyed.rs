//! Sequences of records that behave as maps: each record carries a text key,
//! and a well-formed sequence holds each key at most once.
use vstd::prelude::*;

verus! {

/// A record of the model that is found again by a text key.
pub trait Keyed {
    spec fn key(&self) -> Seq<char>;
}

/// Some record of `s` carries the key `k`.
pub open spec fn has_key<T: Keyed>(s: Seq<T>, k: Seq<char>) -> bool {
    exists|i: int| 0 <= i < s.len() && #[trigger] s[i].key() == k
}

/// No two records of `s` carry the same key.
pub open spec fn unique_keys<T: Keyed>(s: Seq<T>) -> bool {
    forall|i: int, j: int|
        0 <= i < s.len() && 0 <= j < s.len() && i != j ==> #[trigger] s[i].key() != #[trigger] s[
            j
        ].key()
}

/// The position of the record with key `k`, or -1 where there is none.
pub open spec fn key_index<T: Keyed>(s: Seq<T>, k: Seq<char>) -> int {
    if has_key(s, k) {
        choose|i: int| 0 <= i < s.len() && #[trigger] s[i].key() == k
    } else {
        -1
    }
}

/// The record with key `k`, if any.
pub open spec fn lookup<T: Keyed>(s: Seq<T>, k: Seq<char>) -> Option<T> {
    if has_key(s, k) {
        Some(s[key_index(s, k)])
    } else {
        None
    }
}

/// Insert `x`, replacing the record that carries its key where there is one.
pub open spec fn upsert<T: Keyed>(s: Seq<T>, x: T) -> Seq<T> {
    if has_key(s, x.key()) {
        s.update(key_index(s, x.key()), x)
    } else {
        s.push(x)
    }
}

/// Remove the record with key `k`, if any.
pub open spec fn remove_key<T: Keyed>(s: Seq<T>, k: Seq<char>) -> Seq<T> {
    if has_key(s, k) {
        s.remove(key_index(s, k))
    } else {
        s
    }
}

pub proof fn lemma_key_index<T: Keyed>(s: Seq<T>, k: Seq<char>)
    ensures
        has_key(s, k) ==> 0 <= key_index(s, k) < s.len() && s[key_index(s, k)].key() == k,
        !has_key(s, k) ==> key_index(s, k) == -1,
{
}

/// In a sequence with unique keys, the record found at `i` is the one of its key.
pub proof fn lemma_unique_index<T: Keyed>(s: Seq<T>, i: int)
    requires
        unique_keys(s),
        0 <= i < s.len(),
    ensures
        has_key(s, s[i].key()),
        key_index(s, s[i].key()) == i,
        lookup(s, s[i].key()) == Some(s[i]),
{
    lemma_key_index(s, s[i].key());
}

pub proof fn lemma_upsert<T: Keyed>(s: Seq<T>, x: T)
    requires
        unique_keys(s),
    ensures
        unique_keys(upsert(s, x)),
        has_key(upsert(s, x), x.key()),
        lookup(upsert(s, x), x.key()) == Some(x),
        forall|k: Seq<char>|
            k != x.key() ==> #[trigger] lookup(upsert(s, x), k) == lookup(s, k),
        forall|k: Seq<char>|
            #[trigger] has_key(upsert(s, x), k) == (has_key(s, k) || k == x.key()),
{
    lemma_key_index(s, x.key());
    let t = upsert(s, x);
    if has_key(s, x.key()) {
        assert(t.len() == s.len());
    } else {
        assert(t.len() == s.len() + 1);
    }
    assert(t[key_index(s, x.key())] == x || t[s.len() as int] == x);
    assert forall|k: Seq<char>| #[trigger] has_key(t, k) == (has_key(s, k) || k == x.key()) by {
        if has_key(s, k) {
            lemma_key_index(s, k);
            let i = key_index(s, k);
            if k != x.key() {
                assert(t[i] == s[i]);
            }
        }
        if has_key(t, k) {
            let i = choose|i: int| 0 <= i < t.len() && #[trigger] t[i].key() == k;
            if k != x.key() {
                assert(s[i] == t[i]);
            }
        }
    }
    assert(t[key_index(t, x.key())].key() == x.key());
    lemma_unique_index(t, key_index(t, x.key()));
    assert forall|k: Seq<char>| k != x.key() implies #[trigger] lookup(t, k) == lookup(s, k) by {
        if has_key(s, k) {
            lemma_key_index(s, k);
            let i = key_index(s, k);
            assert(t[i] == s[i]);
            lemma_unique_index(t, i);
        }
    }
}

pub proof fn lemma_remove_key<T: Keyed>(s: Seq<T>, k: Seq<char>)
    requires
        unique_keys(s),
    ensures
        unique_keys(remove_key(s, k)),
        !has_key(remove_key(s, k), k),
        forall|k2: Seq<char>| k2 != k ==> #[trigger] lookup(remove_key(s, k), k2) == lookup(s, k2),
        forall|k2: Seq<char>|
            #[trigger] has_key(remove_key(s, k), k2) == (has_key(s, k2) && k2 != k),
{
    lemma_key_index(s, k);
    let t = remove_key(s, k);
    if has_key(s, k) {
        let r = key_index(s, k);
        s.remove_ensures(r);
        assert forall|i: int| 0 <= i < t.len() implies (#[trigger] t[i]) == s[if i < r {
            i
        } else {
            i + 1
        }] by {}
        assert forall|k2: Seq<char>| #[trigger] has_key(t, k2) == (has_key(s, k2) && k2 != k) by {
            if has_key(s, k2) && k2 != k {
                lemma_key_index(s, k2);
                let j = key_index(s, k2);
                let i = if j < r {
                    j
                } else {
                    j - 1
                };
                assert(t[i] == s[j]);
            }
            if has_key(t, k2) {
                let i = choose|i: int| 0 <= i < t.len() && #[trigger] t[i].key() == k2;
                let j = if i < r {
                    i
                } else {
                    i + 1
                };
                assert(t[i] == s[j]);
            }
        }
        assert forall|k2: Seq<char>| k2 != k implies #[trigger] lookup(t, k2) == lookup(s, k2) by {
            if has_key(s, k2) {
                lemma_key_index(s, k2);
                let j = key_index(s, k2);
                let i = if j < r {
                    j
                } else {
                    j - 1
                };
                assert(t[i] == s[j]);
                lemma_unique_index(t, i);
            }
        }
    }
}

/// Replacing the record at a position by one with the same key keeps the keys unique.
pub proof fn lemma_update_same_key<T: Keyed>(s: Seq<T>, i: int, x: T)
    requires
        unique_keys(s),
        0 <= i < s.len(),
        x.key() == s[i].key(),
    ensures
        unique_keys(s.update(i, x)),
        forall|k: Seq<char>| #[trigger] has_key(s.update(i, x), k) == has_key(s, k),
        forall|k: Seq<char>| #[trigger] key_index(s.update(i, x), k) == key_index(s, k),
{
    let t = s.update(i, x);
    assert forall|k: Seq<char>| #[trigger] has_key(t, k) == has_key(s, k) by {
        if has_key(s, k) {
            let j = choose|j: int| 0 <= j < s.len() && #[trigger] s[j].key() == k;
            assert(t[j].key() == k);
        }
        if has_key(t, k) {
            let j = choose|j: int| 0 <= j < t.len() && #[trigger] t[j].key() == k;
            assert(s[j].key() == k);
        }
    }
    assert forall|k: Seq<char>| #[trigger] key_index(t, k) == key_index(s, k) by {
        if has_key(s, k) {
            lemma_key_index(s, k);
            lemma_unique_index(t, key_index(s, k));
        }
    }
}

/// Keeping the records that satisfy `p` keeps the keys unique.
pub proof fn lemma_filter_unique<T: Keyed>(s: Seq<T>, p: spec_fn(T) -> bool)
    requires
        unique_keys(s),
    ensures
        unique_keys(s.filter(p)),
        forall|k: Seq<char>| #[trigger] has_key(s.filter(p), k) ==> has_key(s, k),
    decreases s.len(),
{
    reveal(Seq::filter);
    if s.len() > 0 {
        let d = s.drop_last();
        assert(unique_keys(d)) by {
            assert forall|i: int, j: int|
                0 <= i < d.len() && 0 <= j < d.len() && i != j implies #[trigger] d[i].key()
                != #[trigger] d[j].key() by {
                assert(d[i] == s[i] && d[j] == s[j]);
            }
        }
        lemma_filter_unique(d, p);
        let f = d.filter(p);
        if p(s.last()) {
            let t = f.push(s.last());
            assert(!has_key(f, s.last().key())) by {
                if has_key(f, s.last().key()) {
                    assert(has_key(d, s.last().key()));
                    let j = choose|j: int| 0 <= j < d.len() && #[trigger] d[j].key() == s.last().key();
                    assert(s[j].key() == s[s.len() - 1].key());
                }
            }
            assert forall|i: int, j: int|
                0 <= i < t.len() && 0 <= j < t.len() && i != j implies #[trigger] t[i].key()
                != #[trigger] t[j].key() by {
                if i == t.len() - 1 {
                    assert(f[j].key() == t[j].key());
                } else if j == t.len() - 1 {
                    assert(f[i].key() == t[i].key());
                } else {
                    assert(t[i] == f[i] && t[j] == f[j]);
                }
            }
            assert forall|k: Seq<char>| #[trigger] has_key(t, k) implies has_key(s, k) by {
                let i = choose|i: int| 0 <= i < t.len() && #[trigger] t[i].key() == k;
                if i == t.len() - 1 {
                    assert(s[s.len() - 1].key() == k);
                } else {
                    assert(t[i] == f[i]);
                    assert(f[i].key() == k);
                    assert(has_key(f, k));
                    assert(has_key(d, k));
                    let j = choose|j: int| 0 <= j < d.len() && #[trigger] d[j].key() == k;
                    assert(s[j] == d[j]);
                }
            }
        } else {
            assert forall|k: Seq<char>| #[trigger] has_key(f, k) implies has_key(s, k) by {
                assert(has_key(d, k));
                let j = choose|j: int| 0 <= j < d.len() && #[trigger] d[j].key() == k;
                assert(s[j] == d[j]);
            }
        }
    }
}

} // verus!
