//! Laws that relate the collection's operations, stated over the views that
//! the operations' own contracts use.
use vstd::prelude::*;

use crate::entries::entries_of;
use crate::entries::has_key;
use crate::entries::key_at;
use crate::entries::keyed_entries;
use crate::entries::push_all;
use crate::entries::pushed;
use crate::entries::unique_keys;
use crate::entries::values_of;
use crate::lookup::Lookup;

verus! {

/// In entries with unique keys, each key present stands at exactly one
/// position; where every entry is keyed by its element, the element there
/// derives that key.
pub proof fn lemma_key_position<T: Lookup>(s: Seq<(T::Key, T)>, k: T::Key)
    requires
        unique_keys(s),
        has_key(s, k),
    ensures
        exists|i: int|
            #![trigger s[i]]
            key_at(s, i, k) && (forall|j: int| key_at(s, j, k) ==> j == i) && (keyed_entries(s)
                ==> s[i].1.spec_key() == k),
{
    let i = choose|i: int| 0 <= i < s.len() && s[i].0 == k;
    assert(key_at(s, i, k));
    assert forall|j: int| key_at(s, j, k) implies j == i by {
        crate::entries::lemma_unique_position(s, i, j, k);
    }
    assert(key_at(s, i, k) && (forall|j: int| key_at(s, j, k) ==> j == i));
}

/// Removing the entry at `i` by shifting keeps the relative order of any two
/// other entries.
pub proof fn lemma_shift_remove_keeps_order<K, V>(s: Seq<(K, V)>, i: int, a: int, b: int)
    requires
        0 <= i < s.len(),
        0 <= a < b < s.len(),
        a != i,
        b != i,
    ensures
        ({
            let t = s.remove(i);
            let pa = if a < i { a } else { a - 1 };
            let pb = if b < i { b } else { b - 1 };
            pa < pb && t[pa] == s[a] && t[pb] == s[b]
        }),
{
}

/// Removing the entry at `i` by swapping in the last entry keeps every other
/// entry in its place; the last entry moves to `i`.
pub proof fn lemma_swap_remove_keeps_order<K, V>(s: Seq<(K, V)>, i: int, a: int)
    requires
        0 <= i < s.len(),
        0 <= a < s.len() - 1,
    ensures
        a != i ==> s.update(i, s.last()).drop_last()[a] == s[a],
        i < s.len() - 1 ==> s.update(i, s.last()).drop_last()[i] == s.last(),
{
}

/// Pushing an element whose key is already present keeps the length and
/// hands back the element that held the key.
pub proof fn lemma_push_present_key<T: Lookup>(
    s: Seq<(T::Key, T)>,
    v: T,
    t: Seq<(T::Key, T)>,
    i: usize,
    r: Option<T>,
)
    requires
        has_key(s, v.spec_key()),
        pushed(s, v, t, i, r),
    ensures
        t.len() == s.len(),
        key_at(s, i as int, v.spec_key()),
        r == Some(s[i as int].1),
{
}

/// Reading back the elements of a uniquely keyed collection whose entries are
/// keyed by their elements gives the same entries, with no key twice.
pub proof fn lemma_round_trip<T: Lookup>(s: Seq<(T::Key, T)>)
    requires
        unique_keys(s),
        keyed_entries(s),
    ensures
        entries_of(values_of(s)) == s,
        unique_keys(entries_of(values_of(s))),
{
    let t = entries_of(values_of(s));
    assert forall|x: int| 0 <= x < s.len() implies #[trigger] t[x] == s[x] by {
        assert(s[x].0 == s[x].1.spec_key());
    }
    assert(t =~= s);
}

/// Pushing entries whose keys are all new appends them in order.
pub proof fn lemma_push_all_fresh<K, V>(a: Seq<(K, V)>, b: Seq<(K, V)>)
    requires
        unique_keys(a + b),
    ensures
        push_all(a, b) == a + b,
    decreases b.len(),
{
    if b.len() == 0 {
        assert(a + b =~= a);
    } else {
        let c = b.drop_last();
        assert(a + b =~= (a + c).push(b.last()));
        assert forall|x: int, y: int|
            0 <= x < (a + c).len() && 0 <= y < (a + c).len() && x != y implies (a + c)[x].0 != (a
            + c)[y].0 by {
            assert((a + c)[x] == (a + b)[x] && (a + c)[y] == (a + b)[y]);
        }
        lemma_push_all_fresh(a, c);
        let n = (a + c).len();
        assert(!has_key(a + c, b.last().0)) by {
            if has_key(a + c, b.last().0) {
                let x = choose|x: int| 0 <= x < (a + c).len() && (a + c)[x].0 == b.last().0;
                assert((a + b)[x] == (a + c)[x]);
                assert((a + b)[n as int] == b.last());
            }
        }
    }
}

/// Splitting a uniquely keyed collection at `k` and appending the second
/// part to the first gives back the collection as it was.
pub proof fn lemma_split_append<K, V>(s: Seq<(K, V)>, k: int)
    requires
        unique_keys(s),
        0 <= k <= s.len(),
    ensures
        push_all(s.subrange(0, k), s.subrange(k, s.len() as int)) == s,
{
    assert(s.subrange(0, k) + s.subrange(k, s.len() as int) =~= s);
    lemma_push_all_fresh(s.subrange(0, k), s.subrange(k, s.len() as int));
}

} // verus!
