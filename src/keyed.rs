//! Tables held as sequences of rows with a unique integer key, seen as maps.
use vstd::prelude::*;

verus! {

/// No two rows share a key.
pub open spec fn unique_keys<T>(s: Seq<T>, key: spec_fn(T) -> i32) -> bool {
    forall|i: int, j: int| 0 <= i < j < s.len() ==> key(#[trigger] s[i]) != key(#[trigger] s[j])
}

/// The row at `i` has key `k`.
pub open spec fn key_at<T>(s: Seq<T>, key: spec_fn(T) -> i32, k: i32, i: int) -> bool {
    0 <= i < s.len() && key(s[i]) == k
}

/// The table as a map from key to row.
pub open spec fn keyed<T>(s: Seq<T>, key: spec_fn(T) -> i32) -> Map<i32, T> {
    Map::new(
        |k: i32| exists|i: int| key_at(s, key, k, i),
        |k: i32| s[choose|i: int| key_at(s, key, k, i)],
    )
}

pub proof fn lemma_keyed_index<T>(s: Seq<T>, key: spec_fn(T) -> i32, i: int)
    requires
        unique_keys(s, key),
        0 <= i < s.len(),
    ensures
        keyed(s, key).contains_key(key(s[i])),
        keyed(s, key)[key(s[i])] == s[i],
{
    let k = key(s[i]);
    assert(key_at(s, key, k, i));
    let j = choose|j: int| key_at(s, key, k, j);
    if j < i {
        assert(key(s[j]) != key(s[i]));
    } else if i < j {
        assert(key(s[i]) != key(s[j]));
    }
}

pub proof fn lemma_keyed_push<T>(s: Seq<T>, key: spec_fn(T) -> i32, v: T)
    requires
        unique_keys(s, key),
        !keyed(s, key).contains_key(key(v)),
    ensures
        unique_keys(s.push(v), key),
        keyed(s.push(v), key) == keyed(s, key).insert(key(v), v),
{
    let t = s.push(v);
    assert forall|i: int, j: int| 0 <= i < j < t.len() implies key(#[trigger] t[i]) != key(
        #[trigger] t[j],
    ) by {
        if j == s.len() {
            assert(key_at(s, key, key(s[i]), i));
        }
    }
    lemma_keyed_index(t, key, s.len() as int);
    assert forall|k: i32| #[trigger] keyed(t, key).contains_key(k) == keyed(s, key).insert(
        key(v),
        v,
    ).contains_key(k) by {
        if keyed(s, key).contains_key(k) {
            let i = choose|i: int| key_at(s, key, k, i);
            assert(key_at(t, key, k, i));
        }
        if keyed(t, key).contains_key(k) && k != key(v) {
            let i = choose|i: int| key_at(t, key, k, i);
            assert(key_at(s, key, k, i));
        }
    }
    assert forall|k: i32| #[trigger] keyed(t, key).contains_key(k) implies keyed(t, key)[k]
        == keyed(s, key).insert(key(v), v)[k] by {
        if k != key(v) {
            let i = choose|i: int| key_at(s, key, k, i);
            lemma_keyed_index(s, key, i);
            lemma_keyed_index(t, key, i);
        }
    }
    assert(keyed(t, key) =~= keyed(s, key).insert(key(v), v));
}

pub proof fn lemma_keyed_update<T>(s: Seq<T>, key: spec_fn(T) -> i32, i: int, v: T)
    requires
        unique_keys(s, key),
        0 <= i < s.len(),
        key(v) == key(s[i]),
    ensures
        unique_keys(s.update(i, v), key),
        keyed(s.update(i, v), key) == keyed(s, key).insert(key(v), v),
{
    let t = s.update(i, v);
    assert forall|a: int, b: int| 0 <= a < b < t.len() implies key(#[trigger] t[a]) != key(
        #[trigger] t[b],
    ) by {
        assert(key(t[a]) == key(s[a]));
        assert(key(t[b]) == key(s[b]));
    }
    lemma_keyed_index(t, key, i);
    assert forall|k: i32| #[trigger] keyed(t, key).contains_key(k) == keyed(s, key).contains_key(
        k,
    ) by {
        if keyed(s, key).contains_key(k) {
            let j = choose|j: int| key_at(s, key, k, j);
            assert(key_at(t, key, k, j));
        }
        if keyed(t, key).contains_key(k) {
            let j = choose|j: int| key_at(t, key, k, j);
            assert(key_at(s, key, k, j));
        }
    }
    assert forall|k: i32| #[trigger] keyed(t, key).contains_key(k) implies keyed(t, key)[k]
        == keyed(s, key).insert(key(v), v)[k] by {
        if k != key(v) {
            let j = choose|j: int| key_at(s, key, k, j);
            lemma_keyed_index(s, key, j);
            lemma_keyed_index(t, key, j);
        }
    }
    assert(keyed(t, key) =~= keyed(s, key).insert(key(v), v));
}

/// Dropping rows keeps the keys unique, and keeps each remaining row under its key.
pub proof fn lemma_unique_filter<T>(s: Seq<T>, key: spec_fn(T) -> i32, p: spec_fn(T) -> bool)
    requires
        unique_keys(s, key),
    ensures
        unique_keys(s.filter(p), key),
    decreases s.len(),
{
    reveal(Seq::filter);
    if s.len() > 0 {
        let d = s.drop_last();
        assert(unique_keys(d, key)) by {
            assert forall|i: int, j: int| 0 <= i < j < d.len() implies key(#[trigger] d[i]) != key(
                #[trigger] d[j],
            ) by {
                assert(d[i] == s[i] && d[j] == s[j]);
            }
        }
        lemma_unique_filter(d, key, p);
        let fd = d.filter(p);
        if p(s.last()) {
            let f = fd.push(s.last());
            assert(s.filter(p) == f);
            assert forall|i: int, j: int| 0 <= i < j < f.len() implies key(#[trigger] f[i]) != key(
                #[trigger] f[j],
            ) by {
                if j == fd.len() {
                    d.lemma_filter_contains_rev(p, fd[i]);
                    let a = choose|a: int| 0 <= a < d.len() && d[a] == fd[i];
                    assert(s[a] == d[a]);
                    assert(key(s[a]) != key(s[s.len() - 1]));
                } else {
                    assert(f[i] == fd[i] && f[j] == fd[j]);
                }
            }
        } else {
            assert(s.filter(p) == fd);
        }
    }
}

/// A row kept by a filter was a row before, and passes the filter.
pub proof fn lemma_filter_sub<T>(s: Seq<T>, p: spec_fn(T) -> bool, x: T)
    requires
        s.filter(p).contains(x),
    ensures
        s.contains(x),
        p(x),
{
    s.lemma_filter_contains_rev(p, x);
    let i = choose|i: int| 0 <= i < s.filter(p).len() && s.filter(p)[i] == x;
    s.lemma_filter_pred(p, i);
}

/// A key of some row is a key of the map.
pub proof fn lemma_keyed_has<T>(s: Seq<T>, key: spec_fn(T) -> i32, x: T)
    requires
        s.contains(x),
    ensures
        keyed(s, key).contains_key(key(x)),
{
    let i = choose|i: int| 0 <= i < s.len() && s[i] == x;
    assert(key_at(s, key, key(x), i));
}

/// A key of the map is the key of some row.
pub proof fn lemma_keyed_row<T>(s: Seq<T>, key: spec_fn(T) -> i32, k: i32)
    requires
        keyed(s, key).contains_key(k),
    ensures
        s.contains(keyed(s, key)[k]),
        key(keyed(s, key)[k]) == k,
{
    let i = choose|i: int| key_at(s, key, k, i);
    assert(s[i] == keyed(s, key)[k]);
}

/// Filtering the rows filters the map.
pub proof fn lemma_keyed_filter<T>(s: Seq<T>, key: spec_fn(T) -> i32, p: spec_fn(T) -> bool)
    requires
        unique_keys(s, key),
    ensures
        unique_keys(s.filter(p), key),
        forall|k: i32| #[trigger]
            keyed(s.filter(p), key).contains_key(k) == (keyed(s, key).contains_key(k) && p(
                keyed(s, key)[k],
            )),
        forall|k: i32| #[trigger]
            keyed(s.filter(p), key).contains_key(k) ==> keyed(s.filter(p), key)[k] == keyed(
                s,
                key,
            )[k],
{
    let f = s.filter(p);
    lemma_unique_filter(s, key, p);
    assert forall|k: i32| #[trigger] keyed(f, key).contains_key(k) implies keyed(s, key).contains_key(k)
        && p(keyed(s, key)[k]) && keyed(f, key)[k] == keyed(s, key)[k] by {
        lemma_keyed_row(f, key, k);
        let x = keyed(f, key)[k];
        lemma_filter_sub(s, p, x);
        let j = choose|j: int| 0 <= j < s.len() && s[j] == x;
        lemma_keyed_index(s, key, j);
    }
    assert forall|k: i32| keyed(s, key).contains_key(k) && p(keyed(s, key)[k]) implies #[trigger]
        keyed(f, key).contains_key(k) by {
        let j = choose|j: int| key_at(s, key, k, j);
        lemma_keyed_index(s, key, j);
        s.lemma_filter_contains(p, j);
        lemma_keyed_has(f, key, s[j]);
    }
}

} // verus!
