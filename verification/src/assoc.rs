//! Association lists keyed by strings: the maps of this crate.
//!
//! A lookup finds the first entry with the key; an insertion replaces that
//! entry in place, or appends one.
use vstd::prelude::*;
use crate::text::{chars_of, eq_chars};

verus! {

/// Position of the first entry of `e` with key `k` at or after `i`, or
/// `e.len()`.
pub open spec fn key_index_from<V>(e: Seq<(Seq<char>, V)>, k: Seq<char>, i: int) -> int
    decreases e.len() - i,
{
    if i < 0 || i >= e.len() {
        e.len() as int
    } else if e[i].0 == k {
        i
    } else {
        key_index_from(e, k, i + 1)
    }
}

/// Position of the first entry of `e` with key `k`, or `e.len()`.
pub open spec fn key_index<V>(e: Seq<(Seq<char>, V)>, k: Seq<char>) -> int {
    key_index_from(e, k, 0)
}

pub proof fn lemma_key_index_from<V>(e: Seq<(Seq<char>, V)>, k: Seq<char>, j: int, m: int)
    requires
        0 <= j <= m <= e.len(),
        forall|q: int| j <= q < m ==> (#[trigger] e[q]).0 != k,
        m == e.len() || e[m].0 == k,
    ensures
        key_index_from(e, k, j) == m,
    decreases m - j,
{
    if j < m {
        lemma_key_index_from(e, k, j + 1, m);
    }
}

pub proof fn lemma_key_index<V>(e: Seq<(Seq<char>, V)>, k: Seq<char>, m: int)
    requires
        0 <= m <= e.len(),
        forall|q: int| 0 <= q < m ==> (#[trigger] e[q]).0 != k,
        m == e.len() || e[m].0 == k,
    ensures
        key_index(e, k) == m,
{
    lemma_key_index_from(e, k, 0, m);
}

pub proof fn lemma_key_index_bounds_from<V>(e: Seq<(Seq<char>, V)>, k: Seq<char>, j: int)
    requires
        0 <= j <= e.len(),
    ensures
        j <= key_index_from(e, k, j) <= e.len(),
        key_index_from(e, k, j) < e.len() ==> e[key_index_from(e, k, j)].0 == k,
        forall|q: int| j <= q < key_index_from(e, k, j) ==> (#[trigger] e[q]).0 != k,
    decreases e.len() - j,
{
    if j < e.len() && e[j].0 != k {
        lemma_key_index_bounds_from(e, k, j + 1);
    }
}

pub proof fn lemma_key_index_bounds<V>(e: Seq<(Seq<char>, V)>, k: Seq<char>)
    ensures
        0 <= key_index(e, k) <= e.len(),
        key_index(e, k) < e.len() ==> e[key_index(e, k)].0 == k,
        forall|q: int| 0 <= q < key_index(e, k) ==> (#[trigger] e[q]).0 != k,
{
    lemma_key_index_bounds_from(e, k, 0);
}

/// The value of key `k` in `e`.
pub open spec fn entry_get<V>(e: Seq<(Seq<char>, V)>, k: Seq<char>) -> Option<V> {
    let i = key_index(e, k);
    if 0 <= i < e.len() {
        Some(e[i].1)
    } else {
        None
    }
}

/// `e` with key `k` set to `v`: replaced in place when present, appended
/// otherwise.
pub open spec fn entry_insert<V>(e: Seq<(Seq<char>, V)>, k: Seq<char>, v: V) -> Seq<
    (Seq<char>, V),
> {
    let i = key_index(e, k);
    if 0 <= i < e.len() {
        e.update(i, (k, v))
    } else {
        e.push((k, v))
    }
}

/// `e` without key `k`.
pub open spec fn entry_remove<V>(e: Seq<(Seq<char>, V)>, k: Seq<char>) -> Seq<(Seq<char>, V)> {
    let i = key_index(e, k);
    if 0 <= i < e.len() {
        e.remove(i)
    } else {
        e
    }
}

/// No key occurs twice.
pub open spec fn distinct_keys<V>(e: Seq<(Seq<char>, V)>) -> bool {
    forall|i: int, j: int| 0 <= i < j < e.len() ==> (#[trigger] e[i]).0 != (#[trigger] e[j]).0
}

pub proof fn lemma_get_insert_same<V>(e: Seq<(Seq<char>, V)>, k: Seq<char>, v: V)
    ensures
        entry_get(entry_insert(e, k, v), k) == Some(v),
        entry_insert(entry_insert(e, k, v), k, v) == entry_insert(e, k, v),
{
    let n = entry_insert(e, k, v);
    lemma_key_index_bounds(e, k);
    let i = key_index(e, k);
    assert forall|j: int| 0 <= j < i implies (#[trigger] n[j]).0 != k by {
        assert(n[j] == e[j]);
    }
    if i < e.len() {
        lemma_key_index(n, k, i);
        assert(n.update(i, (k, v)) =~= n);
    } else {
        lemma_key_index(n, k, e.len() as int);
        assert(n.update(e.len() as int, (k, v)) =~= n);
    }
}

pub proof fn lemma_get_insert_other<V>(e: Seq<(Seq<char>, V)>, k: Seq<char>, v: V, q: Seq<char>)
    requires
        q != k,
    ensures
        entry_get(entry_insert(e, k, v), q) == entry_get(e, q),
{
    let n = entry_insert(e, k, v);
    lemma_key_index_bounds(e, k);
    lemma_key_index_bounds(e, q);
    let iq = key_index(e, q);
    assert forall|j: int| 0 <= j < iq implies (#[trigger] n[j]).0 != q by {
        if j < e.len() {
            assert(n[j].0 == e[j].0 || n[j].0 == k);
        }
    }
    if iq < e.len() {
        assert(n[iq].0 == q);
        lemma_key_index(n, q, iq);
    } else {
        if n.len() > e.len() {
            assert(n[e.len() as int].0 == k);
        }
        lemma_key_index(n, q, n.len() as int);
    }
}

pub proof fn lemma_get_remove_other<V>(e: Seq<(Seq<char>, V)>, k: Seq<char>, q: Seq<char>)
    requires
        q != k,
    ensures
        entry_get(entry_remove(e, k), q) == entry_get(e, q),
{
    let n = entry_remove(e, k);
    lemma_key_index_bounds(e, k);
    lemma_key_index_bounds(e, q);
    let ik = key_index(e, k);
    let iq = key_index(e, q);
    if ik < e.len() {
        if iq < e.len() {
            let m = if iq < ik {
                iq
            } else {
                iq - 1
            };
            assert forall|j: int| 0 <= j < m implies (#[trigger] n[j]).0 != q by {
                if j < ik {
                    assert(n[j] == e[j]);
                } else {
                    assert(n[j] == e[j + 1]);
                }
            }
            lemma_key_index(n, q, m);
        } else {
            assert forall|j: int| 0 <= j < n.len() implies (#[trigger] n[j]).0 != q by {
                if j < ik {
                    assert(n[j] == e[j]);
                } else {
                    assert(n[j] == e[j + 1]);
                }
            }
            lemma_key_index(n, q, n.len() as int);
        }
    }
}

pub proof fn lemma_get_remove_same<V>(e: Seq<(Seq<char>, V)>, k: Seq<char>)
    requires
        distinct_keys(e),
    ensures
        entry_get(entry_remove(e, k), k) is None,
{
    let n = entry_remove(e, k);
    lemma_key_index_bounds(e, k);
    let r = key_index(e, k);
    if r < e.len() {
        assert forall|j: int| 0 <= j < n.len() implies (#[trigger] n[j]).0 != k by {
            if j < r {
                assert(n[j] == e[j]);
            } else {
                assert(n[j] == e[j + 1]);
                assert(e[r].0 != e[j + 1].0);
            }
        }
        lemma_key_index(n, k, n.len() as int);
    } else {
        lemma_key_index(n, k, n.len() as int);
    }
}

/// Removing keeps keys distinct.
pub proof fn lemma_remove_distinct<V>(e: Seq<(Seq<char>, V)>, k: Seq<char>)
    requires
        distinct_keys(e),
    ensures
        distinct_keys(entry_remove(e, k)),
{
    lemma_key_index_bounds(e, k);
    let n = entry_remove(e, k);
    let r = key_index(e, k);
    if r < e.len() {
        assert forall|a: int, b: int| 0 <= a < b < n.len() implies (#[trigger] n[a]).0 != (
        #[trigger] n[b]).0 by {
            let a2 = if a < r {
                a
            } else {
                a + 1
            };
            let b2 = if b < r {
                b
            } else {
                b + 1
            };
            assert(n[a] == e[a2] && n[b] == e[b2]);
        }
    }
}

/// Inserting keeps keys distinct.
pub proof fn lemma_insert_distinct<V>(e: Seq<(Seq<char>, V)>, k: Seq<char>, v: V)
    requires
        distinct_keys(e),
    ensures
        distinct_keys(entry_insert(e, k, v)),
{
    lemma_key_index_bounds(e, k);
    let n = entry_insert(e, k, v);
    let i = key_index(e, k);
    if i < e.len() {
        assert forall|a: int, b: int| 0 <= a < b < n.len() implies (#[trigger] n[a]).0 != (
        #[trigger] n[b]).0 by {
            if a == i {
                assert(e[b].0 != e[i].0);
            } else if b == i {
                assert(e[a].0 != e[i].0);
            } else {
                assert(n[a] == e[a] && n[b] == e[b]);
            }
        }
    } else {
        assert forall|a: int, b: int| 0 <= a < b < n.len() implies (#[trigger] n[a]).0 != (
        #[trigger] n[b]).0 by {
            if b == e.len() {
                assert(n[a] == e[a]);
            } else {
                assert(n[a] == e[a] && n[b] == e[b]);
            }
        }
    }
}

/// The strings of a list of string pairs.
pub open spec fn pairs_view(v: Seq<(String, String)>) -> Seq<(Seq<char>, Seq<char>)> {
    v.map_values(|e: (String, String)| (e.0@, e.1@))
}

/// Position of the first pair with key `key`, or `v.len()`.
pub fn pair_position(v: &Vec<(String, String)>, key: &str) -> (p: usize)
    ensures
        p == key_index(pairs_view(v@), key@),
        p <= v.len(),
{
    let k = chars_of(key);
    let ghost e = pairs_view(v@);
    let mut i: usize = 0;
    while i < v.len()
        invariant
            i <= v.len(),
            e == pairs_view(v@),
            k@ == key@,
            forall|q: int| 0 <= q < i ==> (#[trigger] e[q]).0 != key@,
        decreases v.len() - i,
    {
        assert(e[i as int].0 == v@[i as int].0@);
        if eq_chars(&chars_of(v[i].0.as_str()), &k) {
            proof {
                lemma_key_index(e, key@, i as int);
            }
            return i;
        }
        i += 1;
    }
    proof {
        lemma_key_index(e, key@, v.len() as int);
    }
    v.len()
}

/// Set `key` to `value` in a list of string pairs.
pub fn pair_insert(v: &mut Vec<(String, String)>, key: String, value: String)
    ensures
        pairs_view(final(v)@) == entry_insert(pairs_view(old(v)@), key@, value@),
{
    let p = pair_position(v, key.as_str());
    let ghost e = pairs_view(v@);
    let ghost kv = (key@, value@);
    if p < v.len() {
        v.set(p, (key, value));
        assert(pairs_view(v@) =~= e.update(p as int, kv));
    } else {
        v.push((key, value));
        assert(pairs_view(v@) =~= e.push(kv));
    }
}

/// The value of `key` in a list of string pairs.
pub fn pair_get<'a>(v: &'a Vec<(String, String)>, key: &str) -> (r: Option<&'a String>)
    ensures
        match r {
            Some(s) => entry_get(pairs_view(v@), key@) == Some(s@),
            None => entry_get(pairs_view(v@), key@) is None,
        },
{
    let p = pair_position(v, key);
    if p < v.len() {
        assert(pairs_view(v@)[p as int] == (v@[p as int].0@, v@[p as int].1@));
        Some(&v[p].1)
    } else {
        None
    }
}

// ---------------------------------------------------------------------------
// Keys in order
// ---------------------------------------------------------------------------

/// `a` sorts before `b` as `String`s do: character by character, a proper
/// prefix first. (UTF-8 bytes compare as the characters they encode.)
pub open spec fn str_lt(a: Seq<char>, b: Seq<char>) -> bool
    decreases a.len(),
{
    if b.len() == 0 {
        false
    } else if a.len() == 0 {
        true
    } else if a[0] != b[0] {
        a[0] < b[0]
    } else {
        str_lt(a.drop_first(), b.drop_first())
    }
}

/// Nothing sorts before itself.
pub proof fn lemma_str_lt_irreflexive(a: Seq<char>)
    ensures
        !str_lt(a, a),
    decreases a.len(),
{
    if a.len() > 0 {
        lemma_str_lt_irreflexive(a.drop_first());
    }
}

/// A text never sorts before a text that begins it.
pub proof fn lemma_str_lt_prefix(a: Seq<char>, b: Seq<char>)
    requires
        b.is_prefix_of(a),
    ensures
        !str_lt(a, b),
    decreases a.len(),
{
    if a.len() > 0 && b.len() > 0 {
        assert(b[0] == a.subrange(0, b.len() as int)[0]);
        assert(b.drop_first().is_prefix_of(a.drop_first())) by {
            assert(b.drop_first() =~= a.drop_first().subrange(0, b.len() - 1));
        }
        lemma_str_lt_prefix(a.drop_first(), b.drop_first());
    }
}

/// The keys come in ascending order, as a `BTreeMap` holds them: each key
/// sorts before every later one, so none occurs twice.
pub open spec fn keys_ascending<V>(e: Seq<(Seq<char>, V)>) -> bool {
    forall|i: int, j: int| 0 <= i < j < e.len() ==> str_lt(#[trigger] e[i].0, #[trigger] e[j].0)
}

/// Keys in ascending order are distinct.
pub proof fn lemma_ascending_distinct<V>(e: Seq<(Seq<char>, V)>)
    requires
        keys_ascending(e),
    ensures
        distinct_keys(e),
{
    assert forall|i: int, j: int| 0 <= i < j < e.len() implies (#[trigger] e[i]).0 != (
    #[trigger] e[j]).0 by {
        lemma_str_lt_irreflexive(e[i].0);
        assert(str_lt(e[i].0, e[j].0));
    }
}

/// The keys of a list of pairs held as `String`s come in ascending order.
pub open spec fn string_keys_ascending<V>(v: Seq<(String, V)>) -> bool {
    forall|i: int, j: int|
        0 <= i < j < v.len() ==> str_lt(#[trigger] v[i].0@, #[trigger] v[j].0@)
}

/// Whether `a` sorts before `b` as `String`s do.
pub fn str_less(a: &str, b: &str) -> (r: bool)
    ensures
        r == str_lt(a@, b@),
{
    let x = chars_of(a);
    let y = chars_of(b);
    let mut i: usize = 0;
    assert(x@.skip(0) =~= x@);
    assert(y@.skip(0) =~= y@);
    while i < x.len() && i < y.len() && x[i] == y[i]
        invariant
            i <= x.len(),
            i <= y.len(),
            str_lt(a@, b@) == str_lt(x@.skip(i as int), y@.skip(i as int)),
            x@ == a@,
            y@ == b@,
        decreases x.len() - i,
    {
        assert(x@.skip(i as int).drop_first() =~= x@.skip(i + 1));
        assert(y@.skip(i as int).drop_first() =~= y@.skip(i + 1));
        i += 1;
    }
    if i == y.len() {
        false
    } else if i == x.len() {
        true
    } else {
        x[i] < y[i]
    }
}

/// Whether the keys of `v` come in ascending order.
pub fn keys_in_order<V>(v: &Vec<(String, V)>) -> (b: bool)
    ensures
        b == string_keys_ascending(v@),
{
    let mut i: usize = 0;
    while i < v.len()
        invariant
            i <= v.len(),
            forall|p: int, q: int|
                0 <= p < i && p < q < v.len() ==> str_lt(#[trigger] v@[p].0@, #[trigger] v@[q].0@),
        decreases v.len() - i,
    {
        let mut j: usize = i + 1;
        while j < v.len()
            invariant
                i < v.len(),
                i + 1 <= j <= v.len(),
                forall|p: int, q: int|
                    0 <= p < i && p < q < v.len() ==> str_lt(
                        #[trigger] v@[p].0@,
                        #[trigger] v@[q].0@,
                    ),
                forall|q: int| i < q < j ==> str_lt(v@[i as int].0@, #[trigger] v@[q].0@),
            decreases v.len() - j,
        {
            if !str_less(v[i].0.as_str(), v[j].0.as_str()) {
                return false;
            }
            j += 1;
        }
        i += 1;
    }
    true
}

} // verus!
