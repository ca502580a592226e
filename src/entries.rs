//! The mathematical model of a collection: a sequence of entries, each a key
//! and an element, and what the operations do to such a sequence.
use vstd::prelude::*;

use crate::lookup::Lookup;

verus! {

/// The keys of a sequence of entries, in order.
pub open spec fn keys_of<K, V>(s: Seq<(K, V)>) -> Seq<K> {
    s.map_values(|e: (K, V)| e.0)
}

/// The values of a sequence of entries, in order.
pub open spec fn values_of<K, V>(s: Seq<(K, V)>) -> Seq<V> {
    s.map_values(|e: (K, V)| e.1)
}

/// No two entries share a key.
pub open spec fn unique_keys<K, V>(s: Seq<(K, V)>) -> bool {
    forall|i: int, j: int| 0 <= i < s.len() && 0 <= j < s.len() && i != j ==> s[i].0 != s[j].0
}

/// Some entry of `s` holds key `k`.
pub open spec fn has_key<K, V>(s: Seq<(K, V)>, k: K) -> bool {
    exists|i: int| 0 <= i < s.len() && s[i].0 == k
}

/// `r` answers where key `k` stands in `s`.
pub open spec fn finds<K, V>(s: Seq<(K, V)>, k: K, r: Option<usize>) -> bool {
    match r {
        Some(i) => i < s.len() && s[i as int].0 == k,
        None => !has_key(s, k),
    }
}

/// What pushing entry `e` onto `s` gives: `t` the new entries, `i` the
/// position of `e`, `r` the value that `e` displaced. An entry whose key is
/// already present replaces the value there and keeps its position and stored
/// key; any other is appended.
pub open spec fn entry_pushed<K, V>(
    s: Seq<(K, V)>,
    e: (K, V),
    t: Seq<(K, V)>,
    i: usize,
    r: Option<V>,
) -> bool {
    if has_key(s, e.0) {
        &&& i < s.len()
        &&& s[i as int].0 == e.0
        &&& t == s.update(i as int, (s[i as int].0, e.1))
        &&& r == Some(s[i as int].1)
    } else {
        &&& i == s.len()
        &&& t == s.push(e)
        &&& r == None::<V>
    }
}

/// What pushing element `v` onto `s` gives: pushing the entry of `v` under the
/// key that it derives.
pub open spec fn pushed<T: Lookup>(
    s: Seq<(T::Key, T)>,
    v: T,
    t: Seq<(T::Key, T)>,
    i: usize,
    r: Option<T>,
) -> bool {
    entry_pushed(s, (v.spec_key(), v), t, i, r)
}

/// The entries of `s` after pushing entry `e`.
pub open spec fn push_entry<K, V>(s: Seq<(K, V)>, e: (K, V)) -> Seq<(K, V)> {
    if has_key(s, e.0) {
        let i = choose|i: int| key_at(s, i, e.0);
        s.update(i, (s[i].0, e.1))
    } else {
        s.push(e)
    }
}

/// The entries of `s` after pushing the entries of `u` in order.
pub open spec fn push_all<K, V>(s: Seq<(K, V)>, u: Seq<(K, V)>) -> Seq<(K, V)>
    decreases u.len(),
{
    if u.len() == 0 {
        s
    } else {
        push_entry(push_all(s, u.drop_last()), u.last())
    }
}

/// Each element of `items` under the key that it derives.
pub open spec fn entries_of<T: Lookup>(items: Seq<T>) -> Seq<(T::Key, T)> {
    items.map_values(|v: T| (v.spec_key(), v))
}

/// Every entry of `s` holds the key that its element derives.
pub open spec fn keyed_entries<T: Lookup>(s: Seq<(T::Key, T)>) -> bool {
    forall|i: int| 0 <= i < s.len() ==> #[trigger] s[i].0 == s[i].1.spec_key()
}

/// Where `insert` puts an element with key `k` when asked for position
/// `index`: before the entry that stands at `index` (or at the end), counted
/// after an entry that already holds `k` has left its place.
pub open spec fn insert_position<K, V>(s: Seq<(K, V)>, k: K, index: usize, j: int) -> int {
    let at = if index < s.len() { index as int } else { s.len() as int };
    if has_key(s, k) && j < at {
        at - 1
    } else {
        at
    }
}

/// The entry of `s` at position `i` has key `k`.
pub open spec fn key_at<K, V>(s: Seq<(K, V)>, i: int, k: K) -> bool {
    0 <= i < s.len() && s[i].0 == k
}

/// At most one position holds a given key.
pub proof fn lemma_unique_position<K, V>(s: Seq<(K, V)>, i: int, j: int, k: K)
    requires
        unique_keys(s),
        key_at(s, i, k),
        key_at(s, j, k),
    ensures
        i == j,
{
}

/// An entry pushed as `entry_pushed` describes gives `push_entry`.
pub proof fn lemma_entry_pushed<K, V>(
    s: Seq<(K, V)>,
    e: (K, V),
    t: Seq<(K, V)>,
    i: usize,
    r: Option<V>,
)
    requires
        unique_keys(s),
        entry_pushed(s, e, t, i, r),
    ensures
        t == push_entry(s, e),
        unique_keys(t),
{
    if has_key(s, e.0) {
        let c = choose|c: int| key_at(s, c, e.0);
        assert(key_at(s, i as int, e.0));
        lemma_unique_position(s, c, i as int, e.0);
        assert forall|x: int, y: int|
            0 <= x < t.len() && 0 <= y < t.len() && x != y implies t[x].0 != t[y].0 by {
            assert(t[x].0 == s[x].0 && t[y].0 == s[y].0);
        }
    } else {
        assert forall|x: int, y: int|
            0 <= x < t.len() && 0 <= y < t.len() && x != y implies t[x].0 != t[y].0 by {
            if x == s.len() {
                assert(!key_at(s, y, e.0));
            } else if y == s.len() {
                assert(!key_at(s, x, e.0));
            }
        }
    }
}

/// Taking out the entry at `j` and putting an entry with the same key back at
/// `p` keeps the keys unique, and keeps every entry keyed by its element.
pub proof fn lemma_reinsert<T: Lookup>(s: Seq<(T::Key, T)>, j: int, p: int, e: (T::Key, T))
    requires
        unique_keys(s),
        0 <= j < s.len(),
        0 <= p < s.len(),
        e.0 == s[j].0,
    ensures
        unique_keys(s.remove(j).insert(p, e)),
        keyed_entries(s) && e.0 == e.1.spec_key() ==> keyed_entries(s.remove(j).insert(p, e)),
{
    let t = s.remove(j).insert(p, e);
    let rsrc = |y: int|
        if y < j {
            y
        } else {
            y + 1
        };
    let src = |x: int|
        if x == p {
            j
        } else if x < p {
            rsrc(x)
        } else {
            rsrc(x - 1)
        };
    assert forall|x: int| 0 <= x < t.len() implies #[trigger] t[x].0 == s[src(x)].0 && (x != p
        ==> t[x] == s[src(x)]) by {}
    assert forall|x: int, y: int|
        0 <= x < t.len() && 0 <= y < t.len() && x != y implies t[x].0 != t[y].0 by {
        assert(t[x].0 == s[src(x)].0 && t[y].0 == s[src(y)].0);
    }
    if keyed_entries(s) && e.0 == e.1.spec_key() {
        assert forall|x: int| 0 <= x < t.len() implies #[trigger] t[x].0 == t[x].1.spec_key() by {
            if x != p {
                assert(t[x] == s[src(x)]);
            }
        }
    }
}

/// Putting an entry with a new key in at `p` keeps the keys unique, and keeps
/// every entry keyed by its element.
pub proof fn lemma_insert_fresh<T: Lookup>(s: Seq<(T::Key, T)>, p: int, e: (T::Key, T))
    requires
        unique_keys(s),
        0 <= p <= s.len(),
        !has_key(s, e.0),
    ensures
        unique_keys(s.insert(p, e)),
        keyed_entries(s) && e.0 == e.1.spec_key() ==> keyed_entries(s.insert(p, e)),
{
    let t = s.insert(p, e);
    let src = |x: int|
        if x < p {
            x
        } else {
            x - 1
        };
    assert forall|x: int, y: int|
        0 <= x < t.len() && 0 <= y < t.len() && x != y implies t[x].0 != t[y].0 by {
        if x == p {
            assert(t[y] == s[src(y)]);
            assert(!key_at(s, src(y), e.0));
        } else if y == p {
            assert(t[x] == s[src(x)]);
            assert(!key_at(s, src(x), e.0));
        } else {
            assert(t[x] == s[src(x)] && t[y] == s[src(y)]);
        }
    }
    if keyed_entries(s) && e.0 == e.1.spec_key() {
        assert forall|x: int| 0 <= x < t.len() implies #[trigger] t[x].0 == t[x].1.spec_key() by {
            if x != p {
                assert(t[x] == s[src(x)]);
            }
        }
    }
}

} // verus!
