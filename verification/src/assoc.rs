//! Association lists: sequences of key/value pairs read as finite maps.
//!
//! A list holds at most one live entry per key: a lookup finds the first entry
//! for the key, and storing a value for a key that is present replaces the
//! value in place, so the position of a key is that of its first insertion.
use vstd::prelude::*;

verus! {

/// A key of an association list: a value with a test for equal content.
pub trait Key: DeepView + Sized {
    fn same(&self, other: &Self) -> (r: bool)
        ensures
            r == (self.deep_view() == other.deep_view()),
    ;
}

impl Key for &'static str {
    fn same(&self, other: &Self) -> (r: bool) {
        crate::text::str_eq(*self, *other)
    }
}

/// Position of the first entry for `key`.
pub fn find<K: Key, V: DeepView>(entries: &Vec<(K, V)>, key: &K) -> (r: Option<usize>)
    ensures
        match r {
            Some(i) => assoc_index(entries.deep_view(), key.deep_view()) == Some(i as int) && i
                < entries@.len(),
            None => assoc_index(entries.deep_view(), key.deep_view()) is None,
        },
{
    let mut i: usize = 0;
    while i < entries.len()
        invariant
            i <= entries@.len(),
            forall|j: int| 0 <= j < i ==> entries.deep_view()[j].0 != key.deep_view(),
        decreases entries@.len() - i,
    {
        if entries[i].0.same(key) {
            proof {
                lemma_first_match(entries.deep_view(), key.deep_view(), i as int);
            }
            return Some(i);
        }
        i += 1;
    }
    proof {
        lemma_no_match(entries.deep_view(), key.deep_view());
    }
    None
}

/// Stores `value` for `key`: in place of the value that the key had, or at the
/// end where the key is new.
pub fn put<K: Key, V: DeepView>(entries: &mut Vec<(K, V)>, key: K, value: V)
    ensures
        final(entries).deep_view() == assoc_put(
            old(entries).deep_view(),
            key.deep_view(),
            value.deep_view(),
        ),
{
    let found = find(entries, &key);
    let ghost before = entries.deep_view();
    let ghost k = key.deep_view();
    let ghost v = value.deep_view();
    match found {
        Some(i) => {
            entries[i] = (key, value);
            assert(entries.deep_view() =~= before.update(i as int, (k, v)));
        },
        None => {
            entries.push((key, value));
            assert(entries.deep_view() =~= before.push((k, v)));
        },
    }
}

/// Whether `i` is the position of the first entry of `s` whose key is `k`.
pub open spec fn is_first_match<K, V>(s: Seq<(K, V)>, k: K, i: int) -> bool {
    &&& 0 <= i < s.len()
    &&& s[i].0 == k
    &&& forall|j: int| 0 <= j < i ==> s[j].0 != k
}

/// Whether some entry of `s` has the key `k`.
pub open spec fn has_key<K, V>(s: Seq<(K, V)>, k: K) -> bool {
    exists|i: int| 0 <= i < s.len() && s[i].0 == k
}

/// Position of the first entry of `s` whose key is `k`.
pub open spec fn assoc_index<K, V>(s: Seq<(K, V)>, k: K) -> Option<int> {
    if has_key(s, k) {
        Some(choose|i: int| is_first_match(s, k, i))
    } else {
        None
    }
}

/// Value stored for `k`, if any.
pub open spec fn assoc_get<K, V>(s: Seq<(K, V)>, k: K) -> Option<V> {
    match assoc_index(s, k) {
        Some(i) => Some(s[i].1),
        None => None,
    }
}

/// The list after storing `v` for `k`.
pub open spec fn assoc_put<K, V>(s: Seq<(K, V)>, k: K, v: V) -> Seq<(K, V)> {
    match assoc_index(s, k) {
        Some(i) => s.update(i, (k, v)),
        None => s.push((k, v)),
    }
}

/// The list after storing the first `n` entries of `items` in turn.
pub open spec fn assoc_extend<K, V>(s: Seq<(K, V)>, items: Seq<(K, V)>, n: int) -> Seq<(K, V)>
    decreases n,
{
    if n <= 0 {
        s
    } else {
        assoc_put(assoc_extend(s, items, n - 1), items[n - 1].0, items[n - 1].1)
    }
}

/// A first match is the position that `assoc_index` names.
pub proof fn lemma_first_match<K, V>(s: Seq<(K, V)>, k: K, i: int)
    requires
        is_first_match(s, k, i),
    ensures
        assoc_index(s, k) == Some(i),
        assoc_get(s, k) == Some(s[i].1),
{
    assert(has_key(s, k));
    let c = choose|c: int| is_first_match(s, k, c);
    assert(is_first_match(s, k, c));
    if c < i {
        assert(s[c].0 != k);
    }
    if i < c {
        assert(s[i].0 != k);
    }
}

/// A key that no entry has is not found.
pub proof fn lemma_no_match<K, V>(s: Seq<(K, V)>, k: K)
    requires
        forall|j: int| 0 <= j < s.len() ==> s[j].0 != k,
    ensures
        assoc_index(s, k) is None,
        assoc_get(s, k) is None,
{
}

/// What `assoc_index` returns is a first match.
pub proof fn lemma_index_is_first<K, V>(s: Seq<(K, V)>, k: K)
    ensures
        match assoc_index(s, k) {
            Some(i) => is_first_match(s, k, i),
            None => forall|j: int| 0 <= j < s.len() ==> s[j].0 != k,
        },
{
    if has_key(s, k) {
        let w = choose|i: int| 0 <= i < s.len() && s[i].0 == k;
        lemma_least_match(s, k, w);
    }
}

/// Where some entry has the key, one of them is the first.
proof fn lemma_least_match<K, V>(s: Seq<(K, V)>, k: K, w: int)
    requires
        0 <= w < s.len(),
        s[w].0 == k,
    ensures
        exists|i: int| is_first_match(s, k, i),
    decreases w,
{
    if forall|j: int| 0 <= j < w ==> s[j].0 != k {
        assert(is_first_match(s, k, w));
    } else {
        let j = choose|j: int| 0 <= j < w && s[j].0 == k;
        lemma_least_match(s, k, j);
    }
}

/// A stored value is found again, and other keys are not disturbed.
pub proof fn lemma_put_get<K, V>(s: Seq<(K, V)>, k: K, v: V, q: K)
    ensures
        assoc_get(assoc_put(s, k, v), q) == if q == k {
            Some(v)
        } else {
            assoc_get(s, q)
        },
        has_key(assoc_put(s, k, v), q) == (q == k || has_key(s, q)),
{
    let t = assoc_put(s, k, v);
    lemma_index_is_first(s, k);
    lemma_index_is_first(s, q);
    match assoc_index(s, k) {
        Some(i) => {
            assert(t.len() == s.len());
            assert forall|j: int| 0 <= j < s.len() implies (#[trigger] t[j].0 == q) == (s[j].0
                == q) by {}
            if q == k {
                assert(is_first_match(t, q, i));
                lemma_first_match(t, q, i);
            } else {
                match assoc_index(s, q) {
                    Some(m) => {
                        assert(is_first_match(t, q, m));
                        lemma_first_match(t, q, m);
                    },
                    None => {
                        lemma_no_match(t, q);
                    },
                }
            }
        },
        None => {
            let n = s.len() as int;
            assert(t.len() == n + 1);
            assert forall|j: int| 0 <= j < n implies #[trigger] t[j] == s[j] by {}
            if q == k {
                assert(is_first_match(t, q, n));
                lemma_first_match(t, q, n);
            } else {
                match assoc_index(s, q) {
                    Some(m) => {
                        assert(is_first_match(t, q, m));
                        lemma_first_match(t, q, m);
                    },
                    None => {
                        assert forall|j: int| 0 <= j < t.len() implies t[j].0 != q by {
                            if j < n {
                                assert(t[j] == s[j]);
                            }
                        }
                        lemma_no_match(t, q);
                    },
                }
            }
        },
    }
    if has_key(s, q) {
        let w = choose|i: int| 0 <= i < s.len() && s[i].0 == q;
        assert(t[w].0 == q);
    }
    if has_key(t, q) && q != k {
        let w = choose|i: int| 0 <= i < t.len() && t[i].0 == q;
        assert(w < s.len());
        assert(s[w].0 == q);
    }
    if q == k {
        assert(has_key(t, q));
    }
}


/// The keys of the entries of `s`, in order.
pub open spec fn keys<K, V>(s: Seq<(K, V)>) -> Seq<K> {
    s.map_values(|e: (K, V)| e.0)
}

/// Whether `items` holds `key`.
pub fn holds<K: Key>(items: &[K], key: &K) -> (r: bool)
    ensures
        r == items.deep_view().contains(key.deep_view()),
{
    let mut i: usize = 0;
    while i < items.len()
        invariant
            i <= items@.len(),
            forall|j: int| 0 <= j < i ==> items.deep_view()[j] != key.deep_view(),
        decreases items@.len() - i,
    {
        if items[i].same(key) {
            assert(items.deep_view()[i as int] == key.deep_view());
            return true;
        }
        i += 1;
    }
    false
}

/// Whether no two of `items` are the same.
pub fn distinct<K: Key>(items: &[K]) -> (r: bool)
    ensures
        r == items.deep_view().no_duplicates(),
{
    let ghost view = items.deep_view();
    let mut i: usize = 0;
    while i < items.len()
        invariant
            i <= items@.len(),
            view == items.deep_view(),
            forall|a: int, b: int| 0 <= a < b < i ==> view[a] != view[b],
        decreases items@.len() - i,
    {
        let mut j: usize = 0;
        while j < i
            invariant
                j <= i < items@.len(),
                view == items.deep_view(),
                forall|a: int| 0 <= a < j ==> view[a] != view[i as int],
            decreases i - j,
        {
            if items[j].same(&items[i]) {
                assert(view[j as int] == view[i as int]);
                return false;
            }
            j += 1;
        }
        i += 1;
    }
    true
}

/// Whether no two entries of `items` have the same key.
pub fn distinct_keys<K: Key, V: DeepView>(items: &[(K, V)]) -> (r: bool)
    ensures
        r == keys(items.deep_view()).no_duplicates(),
{
    let ghost view = keys(items.deep_view());
    let mut i: usize = 0;
    while i < items.len()
        invariant
            i <= items@.len(),
            view == keys(items.deep_view()),
            forall|a: int, b: int| 0 <= a < b < i ==> view[a] != view[b],
        decreases items@.len() - i,
    {
        let mut j: usize = 0;
        while j < i
            invariant
                j <= i < items@.len(),
                view == keys(items.deep_view()),
                forall|a: int| 0 <= a < j ==> view[a] != view[i as int],
            decreases i - j,
        {
            if items[j].0.same(&items[i].0) {
                assert(view[j as int] == view[i as int]);
                return false;
            }
            j += 1;
        }
        i += 1;
    }
    true
}

/// Storing a value keeps the keys apart: where no two entries have the same
/// key, none have afterwards.
pub proof fn lemma_put_keeps_keys_distinct<K, V>(s: Seq<(K, V)>, k: K, v: V)
    requires
        keys(s).no_duplicates(),
    ensures
        keys(assoc_put(s, k, v)).no_duplicates(),
{
    let t = assoc_put(s, k, v);
    lemma_index_is_first(s, k);
    assert forall|i: int, j: int|
        0 <= i < keys(t).len() && 0 <= j < keys(t).len() && i != j implies keys(t)[i] != keys(
        t,
    )[j] by {
        match assoc_index(s, k) {
            Some(at) => {
                assert(keys(s)[i] == s[i].0 && keys(s)[j] == s[j].0);
                assert(t[i].0 == s[i].0 && t[j].0 == s[j].0);
            },
            None => {
                if i < s.len() && j < s.len() {
                    assert(keys(s)[i] == s[i].0 && keys(s)[j] == s[j].0);
                    assert(t[i] == s[i] && t[j] == s[j]);
                } else if i < s.len() {
                    assert(t[i] == s[i]);
                    assert(s[i].0 != k);
                } else if j < s.len() {
                    assert(t[j] == s[j]);
                    assert(s[j].0 != k);
                }
            },
        }
    }
}

} // verus!
