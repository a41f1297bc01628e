//! Association lists and element lists with unique keys.
//!
//! The engine's tables are plain vectors of key/value pairs. Keys are
//! compared by their mathematical value (`DeepView`), so a `String` key is a
//! sequence of characters and a pair key is a pair of such sequences. The
//! spec functions here are the model that every table contract speaks of.

use vstd::prelude::*;

verus! {

/// No two entries of the association list share a key.
pub open spec fn keys_unique<K: DeepView, V>(s: Seq<(K, V)>) -> bool {
    forall|i: int, j: int|
        0 <= i < j < s.len() ==> (#[trigger] s[i]).0.deep_view() != (#[trigger] s[j]).0.deep_view()
}

/// Some entry has key `k`.
pub open spec fn map_has<K: DeepView, V>(s: Seq<(K, V)>, k: K::V) -> bool {
    exists|i: int| 0 <= i < s.len() && (#[trigger] s[i]).0.deep_view() == k
}

/// Index of the entry with key `k` (meaningful when `map_has(s, k)`).
pub open spec fn map_idx<K: DeepView, V>(s: Seq<(K, V)>, k: K::V) -> int {
    choose|i: int| 0 <= i < s.len() && (#[trigger] s[i]).0.deep_view() == k
}

/// Value stored under key `k` (meaningful when `map_has(s, k)`).
pub open spec fn map_get<K: DeepView, V>(s: Seq<(K, V)>, k: K::V) -> V {
    s[map_idx(s, k)].1
}

/// With unique keys, the entry at index `i` is the one `map_idx`/`map_get` find.
pub proof fn lemma_idx_of_key<K: DeepView, V>(s: Seq<(K, V)>, i: int)
    requires
        keys_unique(s),
        0 <= i < s.len(),
    ensures
        map_has(s, s[i].0.deep_view()),
        map_idx(s, s[i].0.deep_view()) == i,
        map_get(s, s[i].0.deep_view()) == s[i].1,
{
    let k = s[i].0.deep_view();
    assert(map_has(s, k));
    let j = map_idx(s, k);
    if j != i {
        if j < i {
            assert(s[j].0.deep_view() != s[i].0.deep_view());
        } else {
            assert(s[i].0.deep_view() != s[j].0.deep_view());
        }
    }
}

/// Appending a fresh key keeps the keys unique and leaves other keys as they were.
pub proof fn lemma_map_push<K: DeepView, V>(s: Seq<(K, V)>, k: K, v: V)
    requires
        keys_unique(s),
        !map_has(s, k.deep_view()),
    ensures
        keys_unique(s.push((k, v))),
        map_has(s.push((k, v)), k.deep_view()),
        map_get(s.push((k, v)), k.deep_view()) == v,
        forall|k2: K::V|
            k2 != k.deep_view() ==> #[trigger] map_has(s.push((k, v)), k2) == map_has(s, k2),
        forall|k2: K::V|
            k2 != k.deep_view() && map_has(s, k2) ==> #[trigger] map_get(s.push((k, v)), k2)
                == map_get(s, k2),
{
    let t = s.push((k, v));
    assert forall|i: int, j: int| 0 <= i < j < t.len() implies (#[trigger] t[i]).0.deep_view()
        != (#[trigger] t[j]).0.deep_view() by {
        if j == s.len() as int {
            if t[i].0.deep_view() == k.deep_view() {
                assert(map_has(s, k.deep_view()));
            }
        }
    }
    lemma_idx_of_key(t, s.len() as int);
    assert forall|k2: K::V| k2 != k.deep_view() implies #[trigger] map_has(t, k2) == map_has(
        s,
        k2,
    ) by {
        if map_has(s, k2) {
            let i = map_idx(s, k2);
            assert(t[i].0.deep_view() == k2);
        }
        if map_has(t, k2) {
            let i = map_idx(t, k2);
            assert(s[i].0.deep_view() == k2);
        }
    }
    assert forall|k2: K::V| k2 != k.deep_view() && map_has(s, k2) implies #[trigger] map_get(
        t,
        k2,
    ) == map_get(s, k2) by {
        let i = map_idx(s, k2);
        assert(s[i].0.deep_view() == k2);
        lemma_idx_of_key(s, i);
        assert(t[i].0.deep_view() == k2);
        lemma_idx_of_key(t, i);
    }
}

/// Removing the entry at index `i` deletes exactly its key.
pub proof fn lemma_map_remove<K: DeepView, V>(s: Seq<(K, V)>, i: int)
    requires
        keys_unique(s),
        0 <= i < s.len(),
    ensures
        keys_unique(s.remove(i)),
        !map_has(s.remove(i), s[i].0.deep_view()),
        forall|k2: K::V|
            k2 != s[i].0.deep_view() ==> #[trigger] map_has(s.remove(i), k2) == map_has(s, k2),
        forall|k2: K::V|
            k2 != s[i].0.deep_view() && map_has(s, k2) ==> #[trigger] map_get(s.remove(i), k2)
                == map_get(s, k2),
{
    let t = s.remove(i);
    assert forall|a: int, b: int| 0 <= a < b < t.len() implies (#[trigger] t[a]).0.deep_view()
        != (#[trigger] t[b]).0.deep_view() by {
        let a0 = if a < i { a } else { a + 1 };
        let b0 = if b < i { b } else { b + 1 };
        assert(t[a] == s[a0]);
        assert(t[b] == s[b0]);
    }
    if map_has(t, s[i].0.deep_view()) {
        let j = map_idx(t, s[i].0.deep_view());
        let j0 = if j < i { j } else { j + 1 };
        assert(t[j] == s[j0]);
        if j0 < i {
            assert(s[j0].0.deep_view() != s[i].0.deep_view());
        } else {
            assert(s[i].0.deep_view() != s[j0].0.deep_view());
        }
    }
    assert forall|k2: K::V| k2 != s[i].0.deep_view() implies #[trigger] map_has(t, k2) == map_has(
        s,
        k2,
    ) by {
        if map_has(s, k2) {
            let j = map_idx(s, k2);
            let j1 = if j < i { j } else { j - 1 };
            assert(j != i);
            assert(t[j1] == s[j]);
        }
        if map_has(t, k2) {
            let j = map_idx(t, k2);
            let j0 = if j < i { j } else { j + 1 };
            assert(t[j] == s[j0]);
        }
    }
    assert forall|k2: K::V| k2 != s[i].0.deep_view() && map_has(s, k2) implies #[trigger] map_get(
        t,
        k2,
    ) == map_get(s, k2) by {
        let j = map_idx(s, k2);
        assert(s[j].0.deep_view() == k2);
        lemma_idx_of_key(s, j);
        let j1 = if j < i { j } else { j - 1 };
        assert(j != i);
        assert(t[j1] == s[j]);
        lemma_idx_of_key(t, j1);
    }
}

/// Replacing the value at index `i` (same key) changes exactly that key's value.
pub proof fn lemma_map_update<K: DeepView, V>(s: Seq<(K, V)>, i: int, k: K, v: V)
    requires
        keys_unique(s),
        0 <= i < s.len(),
        k.deep_view() == s[i].0.deep_view(),
    ensures
        keys_unique(s.update(i, (k, v))),
        map_has(s.update(i, (k, v)), k.deep_view()),
        map_get(s.update(i, (k, v)), k.deep_view()) == v,
        forall|k2: K::V|
            k2 != k.deep_view() ==> #[trigger] map_has(s.update(i, (k, v)), k2) == map_has(s, k2),
        forall|k2: K::V|
            k2 != k.deep_view() && map_has(s, k2) ==> #[trigger] map_get(s.update(i, (k, v)), k2)
                == map_get(s, k2),
{
    let t = s.update(i, (k, v));
    assert forall|a: int, b: int| 0 <= a < b < t.len() implies (#[trigger] t[a]).0.deep_view()
        != (#[trigger] t[b]).0.deep_view() by {
        assert(s[a].0.deep_view() != s[b].0.deep_view());
    }
    lemma_idx_of_key(t, i);
    assert forall|k2: K::V| k2 != k.deep_view() implies #[trigger] map_has(t, k2) == map_has(
        s,
        k2,
    ) by {
        if map_has(s, k2) {
            let j = map_idx(s, k2);
            assert(j != i);
            assert(t[j] == s[j]);
        }
        if map_has(t, k2) {
            let j = map_idx(t, k2);
            assert(j != i);
            assert(t[j] == s[j]);
        }
    }
    assert forall|k2: K::V| k2 != k.deep_view() && map_has(s, k2) implies #[trigger] map_get(
        t,
        k2,
    ) == map_get(s, k2) by {
        let j = map_idx(s, k2);
        lemma_idx_of_key(s, j);
        assert(j != i);
        assert(t[j] == s[j]);
        lemma_idx_of_key(t, j);
    }
}

/// No two elements of the list are equal (by their mathematical value).
pub open spec fn elems_unique<T: DeepView>(s: Seq<T>) -> bool {
    forall|i: int, j: int|
        0 <= i < j < s.len() ==> (#[trigger] s[i]).deep_view() != (#[trigger] s[j]).deep_view()
}

/// Some element equals `x`.
pub open spec fn set_has<T: DeepView>(s: Seq<T>, x: T::V) -> bool {
    exists|i: int| 0 <= i < s.len() && (#[trigger] s[i]).deep_view() == x
}

/// Appending a fresh element keeps elements unique and membership otherwise unchanged.
pub proof fn lemma_set_push<T: DeepView>(s: Seq<T>, x: T)
    requires
        elems_unique(s),
        !set_has(s, x.deep_view()),
    ensures
        elems_unique(s.push(x)),
        set_has(s.push(x), x.deep_view()),
        forall|y: T::V| y != x.deep_view() ==> #[trigger] set_has(s.push(x), y) == set_has(s, y),
{
    let t = s.push(x);
    assert forall|i: int, j: int| 0 <= i < j < t.len() implies (#[trigger] t[i]).deep_view()
        != (#[trigger] t[j]).deep_view() by {
        if j == s.len() as int {
            if t[i].deep_view() == x.deep_view() {
                assert(set_has(s, x.deep_view()));
            }
        }
    }
    assert(t[s.len() as int].deep_view() == x.deep_view());
    assert forall|y: T::V| y != x.deep_view() implies #[trigger] set_has(t, y) == set_has(
        s,
        y,
    ) by {
        if set_has(s, y) {
            let i = choose|i: int| 0 <= i < s.len() && (#[trigger] s[i]).deep_view() == y;
            assert(t[i].deep_view() == y);
        }
        if set_has(t, y) {
            let i = choose|i: int| 0 <= i < t.len() && (#[trigger] t[i]).deep_view() == y;
            assert(s[i].deep_view() == y);
        }
    }
}

/// Removing the element at index `i` deletes exactly that element.
pub proof fn lemma_set_remove<T: DeepView>(s: Seq<T>, i: int)
    requires
        elems_unique(s),
        0 <= i < s.len(),
    ensures
        elems_unique(s.remove(i)),
        !set_has(s.remove(i), s[i].deep_view()),
        forall|y: T::V| y != s[i].deep_view() ==> #[trigger] set_has(s.remove(i), y) == set_has(
            s,
            y,
        ),
{
    let t = s.remove(i);
    assert forall|a: int, b: int| 0 <= a < b < t.len() implies (#[trigger] t[a]).deep_view()
        != (#[trigger] t[b]).deep_view() by {
        let a0 = if a < i { a } else { a + 1 };
        let b0 = if b < i { b } else { b + 1 };
        assert(t[a] == s[a0]);
        assert(t[b] == s[b0]);
    }
    if set_has(t, s[i].deep_view()) {
        let j = choose|j: int| 0 <= j < t.len() && (#[trigger] t[j]).deep_view()
            == s[i].deep_view();
        let j0 = if j < i { j } else { j + 1 };
        assert(t[j] == s[j0]);
    }
    assert forall|y: T::V| y != s[i].deep_view() implies #[trigger] set_has(t, y) == set_has(
        s,
        y,
    ) by {
        if set_has(s, y) {
            let j = choose|j: int| 0 <= j < s.len() && (#[trigger] s[j]).deep_view() == y;
            let j1 = if j < i { j } else { j - 1 };
            assert(j != i);
            assert(t[j1] == s[j]);
        }
        if set_has(t, y) {
            let j = choose|j: int| 0 <= j < t.len() && (#[trigger] t[j]).deep_view() == y;
            let j0 = if j < i { j } else { j + 1 };
            assert(t[j] == s[j0]);
        }
    }
}

/// Index of the entry whose `String` key equals `k`, if any.
pub fn find_str<V>(v: &Vec<(String, V)>, k: &String) -> (r: Option<usize>)
    ensures
        match r {
            Some(i) => i < v@.len() && v@[i as int].0.deep_view() == k.deep_view(),
            None => !map_has(v@, k.deep_view()),
        },
{
    let mut i: usize = 0;
    while i < v.len()
        invariant
            i <= v@.len(),
            forall|j: int| 0 <= j < i ==> (#[trigger] v@[j]).0.deep_view() != k.deep_view(),
        decreases v@.len() - i,
    {
        if v[i].0 == *k {
            return Some(i);
        }
        i += 1;
    }
    None
}

/// Index of the entry whose `u64` key equals `k`, if any.
pub fn find_u64<V>(v: &Vec<(u64, V)>, k: u64) -> (r: Option<usize>)
    ensures
        match r {
            Some(i) => i < v@.len() && v@[i as int].0 == k,
            None => !map_has(v@, k as <u64 as DeepView>::V),
        },
{
    let mut i: usize = 0;
    while i < v.len()
        invariant
            i <= v@.len(),
            forall|j: int| 0 <= j < i ==> (#[trigger] v@[j]).0 != k,
        decreases v@.len() - i,
    {
        if v[i].0 == k {
            return Some(i);
        }
        i += 1;
    }
    None
}

/// Index of the entry whose `u128` key equals `k`, if any.
pub fn find_u128<V>(v: &Vec<(u128, V)>, k: u128) -> (r: Option<usize>)
    ensures
        match r {
            Some(i) => i < v@.len() && v@[i as int].0 == k,
            None => !map_has(v@, k as <u128 as DeepView>::V),
        },
{
    let mut i: usize = 0;
    while i < v.len()
        invariant
            i <= v@.len(),
            forall|j: int| 0 <= j < i ==> (#[trigger] v@[j]).0 != k,
        decreases v@.len() - i,
    {
        if v[i].0 == k {
            return Some(i);
        }
        i += 1;
    }
    None
}

/// Index of the entry whose `(String, String)` key equals `(k0, k1)`, if any.
pub fn find_pair_key<V>(v: &Vec<((String, String), V)>, k0: &String, k1: &String) -> (r: Option<
    usize,
>)
    ensures
        match r {
            Some(i) => i < v@.len() && v@[i as int].0.deep_view() == (k0.deep_view(),
            k1.deep_view()),
            None => !map_has(v@, (k0.deep_view(), k1.deep_view())),
        },
{
    let mut i: usize = 0;
    while i < v.len()
        invariant
            i <= v@.len(),
            forall|j: int| 0 <= j < i ==> (#[trigger] v@[j]).0.deep_view() != (k0.deep_view(),
            k1.deep_view()),
        decreases v@.len() - i,
    {
        if v[i].0.0 == *k0 && v[i].0.1 == *k1 {
            return Some(i);
        }
        i += 1;
    }
    None
}

/// Index of the element equal to `x` in a list of strings, if any.
pub fn find_str_elem(v: &Vec<String>, x: &String) -> (r: Option<usize>)
    ensures
        match r {
            Some(i) => i < v@.len() && v@[i as int].deep_view() == x.deep_view(),
            None => !set_has(v@, x.deep_view()),
        },
{
    let mut i: usize = 0;
    while i < v.len()
        invariant
            i <= v@.len(),
            forall|j: int| 0 <= j < i ==> (#[trigger] v@[j]).deep_view() != x.deep_view(),
        decreases v@.len() - i,
    {
        if v[i] == *x {
            return Some(i);
        }
        i += 1;
    }
    None
}

/// Index of the element equal to `(x0, x1)` in a list of string pairs, if any.
pub fn find_pair_elem(v: &Vec<(String, String)>, x0: &String, x1: &String) -> (r: Option<usize>)
    ensures
        match r {
            Some(i) => i < v@.len() && v@[i as int].deep_view() == (x0.deep_view(),
            x1.deep_view()),
            None => !set_has(v@, (x0.deep_view(), x1.deep_view())),
        },
{
    let mut i: usize = 0;
    while i < v.len()
        invariant
            i <= v@.len(),
            forall|j: int| 0 <= j < i ==> (#[trigger] v@[j]).deep_view() != (x0.deep_view(),
            x1.deep_view()),
        decreases v@.len() - i,
    {
        if v[i].0 == *x0 && v[i].1 == *x1 {
            return Some(i);
        }
        i += 1;
    }
    None
}

/// Index of the element equal to `(x0, x1)` in a list of dataflow/node pairs, if any.
pub fn find_df_node_elem(v: &Vec<(u128, String)>, x0: u128, x1: &String) -> (r: Option<usize>)
    ensures
        match r {
            Some(i) => i < v@.len() && v@[i as int].deep_view() == (x0 as u128, x1.deep_view()),
            None => !set_has(v@, (x0 as u128, x1.deep_view())),
        },
{
    let mut i: usize = 0;
    while i < v.len()
        invariant
            i <= v@.len(),
            forall|j: int| 0 <= j < i ==> (#[trigger] v@[j]).deep_view() != (x0 as u128,
            x1.deep_view()),
        decreases v@.len() - i,
    {
        if v[i].0 == x0 && v[i].1 == *x1 {
            return Some(i);
        }
        i += 1;
    }
    None
}

} // verus!
