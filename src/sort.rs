//! Reordering a collection by its keys or by a comparison of its elements.
use core::cmp::Ordering;
use vstd::laws_cmp::obeys_cmp;
use vstd::laws_cmp::obeys_cmp_ord;
use vstd::laws_cmp::obeys_partial_cmp_spec_properties;
use vstd::laws_eq::obeys_concrete_eq;
use vstd::laws_eq::obeys_eq_spec_properties;
use vstd::prelude::*;
use vstd::std_specs::cmp::OrdSpec;
use vstd::std_specs::cmp::PartialEqSpec;
use vstd::std_specs::cmp::PartialOrdSpec;

use crate::entries::keyed_entries;
use crate::entries::lemma_reinsert;
use crate::entries::unique_keys;
use crate::entries::values_of;
use crate::iter::IntoIter;
use crate::lookup::Lookup;
use crate::vec::LookupVec;

verus! {

broadcast use vstd::seq_lib::group_to_multiset_ensures;

/// `a` comes strictly before `b` in the order of the key type.
pub open spec fn key_less<K: Ord>(a: K, b: K) -> bool {
    a.cmp_spec(&b) == Ordering::Less
}

/// Each key is less than the key of the next entry.
pub open spec fn ascending<K: Ord, V>(s: Seq<(K, V)>) -> bool {
    forall|i: int| 0 <= i < s.len() - 1 ==> #[trigger] key_less(s[i].0, s[i + 1].0)
}

/// In a lawful order, `key_less` is transitive.
proof fn lemma_less_trans<K: Ord>(a: K, b: K, c: K)
    requires
        obeys_cmp::<K>(),
        key_less(a, b),
        key_less(b, c),
    ensures
        key_less(a, c),
{
    reveal(obeys_cmp_ord);
    reveal(obeys_partial_cmp_spec_properties);
    assert(a.partial_cmp_spec(&b) == Some(a.cmp_spec(&b)));
    assert(b.partial_cmp_spec(&c) == Some(b.cmp_spec(&c)));
    assert(a.partial_cmp_spec(&c) == Some(a.cmp_spec(&c)));
}

/// Where the key type's order is lawful, keys that ascend from each entry to
/// the next ascend between any two entries.
pub proof fn lemma_ascending_sorted<K: Ord, V>(s: Seq<(K, V)>, i: int, j: int)
    requires
        obeys_cmp::<K>(),
        ascending(s),
        0 <= i < j < s.len(),
    ensures
        key_less(s[i].0, s[j].0),
    decreases j - i,
{
    if j > i + 1 {
        lemma_ascending_sorted(s, i, j - 1);
        let k = j - 1;
        assert(key_less(s[k].0, s[k + 1].0));
        lemma_less_trans(s[i].0, s[j - 1].0, s[j].0);
    }
}

/// In a lawful total order, two distinct values that are not in one order
/// are in the other.
proof fn lemma_flip<K: Ord>(a: K, b: K)
    requires
        obeys_cmp::<K>(),
        obeys_concrete_eq::<K>(),
        a != b,
        !key_less(a, b),
    ensures
        key_less(b, a),
{
    reveal(obeys_cmp_ord);
    reveal(obeys_partial_cmp_spec_properties);
    reveal(obeys_eq_spec_properties);
    reveal(obeys_concrete_eq);
    assert(a.partial_cmp_spec(&b) == Some(a.cmp_spec(&b)));
    assert(b.partial_cmp_spec(&a) == Some(b.cmp_spec(&a)));
    if a.cmp_spec(&b) == Ordering::Equal {
        assert(a.eq_spec(&b));
    }
}

/// Orders `v` by key, ascending, by insertion.
pub(crate) fn sort_entries<T: Lookup>(v: &mut Vec<(T::Key, T)>)
    where T::Key: Ord
    requires
        unique_keys(old(v)@),
        obeys_concrete_eq::<T::Key>(),
    ensures
        unique_keys(final(v)@),
        final(v)@.to_multiset() == old(v)@.to_multiset(),
        final(v)@.len() == old(v)@.len(),
        obeys_cmp::<T::Key>() ==> ascending(final(v)@),
        keyed_entries(old(v)@) ==> keyed_entries(final(v)@),
{
    let n = v.len();
    if n <= 1 {
        proof {
            if n == 1 {
                assert(ascending(v@));
            }
        }
        return;
    }
    let mut i: usize = 1;
    proof {
        assert(ascending(v@.subrange(0, 1)));
    }
    while i < n
        invariant
            unique_keys(v@),
            obeys_concrete_eq::<T::Key>(),
            v@.len() == n,
            v@.to_multiset() == old(v)@.to_multiset(),
            keyed_entries(old(v)@) ==> keyed_entries(v@),
            obeys_cmp::<T::Key>() ==> ascending(v@.subrange(0, i as int)),
            1 <= i <= n,
        decreases n - i,
    {
        let ghost s = v@;
        let e = v.remove(i);
        let mut j: usize = i;
        while j > 0
            invariant
                0 <= j <= i < n,
                s.len() == n,
                v@ == s.remove(i as int),
                e == s[i as int],
                T::Key::obeys_cmp_spec() ==> forall|m: int|
                    j <= m < i ==> #[trigger] key_less(e.0, v@[m].0),
            ensures
                0 <= j <= i,
                v@ == s.remove(i as int),
                T::Key::obeys_cmp_spec() ==> forall|m: int|
                    j <= m < i ==> #[trigger] key_less(e.0, v@[m].0),
                j > 0 ==> (T::Key::obeys_cmp_spec() ==> !key_less(e.0, v@[j - 1].0)),
            decreases j,
        {
            let c = e.0.cmp(&v[j - 1].0);
            match c {
                Ordering::Less => {
                    j = j - 1;
                },
                _ => {
                    break ;
                },
            }
        }
        proof {
            reveal(obeys_cmp_ord);
        }
        v.insert(j, e);
        proof {
            let t = v@;
            lemma_reinsert(s, i as int, j as int, e);
            assert(t =~= s.remove(i as int).insert(j as int, e));
            if obeys_cmp::<T::Key>() {
                assert forall|m: int| 0 <= m < i as int implies #[trigger] key_less(
                    t[m].0,
                    t[m + 1].0,
                ) by {
                    if m + 1 < j {
                        assert(t[m] == s[m] && t[m + 1] == s[m + 1]);
                        assert(key_less(
                            s.subrange(0, i as int)[m].0,
                            s.subrange(0, i as int)[m + 1].0,
                        ));
                    } else if m + 1 == j {
                        assert(t[m] == s[m] && t[m + 1] == e);
                        assert(s[m].0 != e.0);
                        assert(v@.len() == n);
                        lemma_flip(e.0, s[m].0);
                    } else if m == j {
                        assert(t[m + 1] == s.remove(i as int)[m]);
                    } else {
                        assert(t[m] == s[m - 1] && t[m + 1] == s[m]);
                        let k = m - 1;
                        assert(key_less(
                            s.subrange(0, i as int)[k].0,
                            s.subrange(0, i as int)[k + 1].0,
                        ));
                        assert(k + 1 == m);
                    }
                }
                assert(ascending(t.subrange(0, i + 1)));
            }
        }
        i = i + 1;
    }
    proof {
        if n > 0 {
            assert(v@.subrange(0, n as int) =~= v@);
        }
    }
}

/// `cmp` gives one answer for each pair of arguments, and never puts each of
/// two elements before the other.
pub open spec fn orders<T, F: Fn(&T, &T) -> Ordering>(cmp: F) -> bool {
    &&& forall|a: &T, b: &T, o: Ordering, p: Ordering|
        #![trigger cmp.ensures((a, b), o), cmp.ensures((a, b), p)]
        cmp.ensures((a, b), o) && cmp.ensures((a, b), p) ==> o == p
    &&& forall|a: &T, b: &T, p: Ordering|
        cmp.ensures((a, b), Ordering::Less) && #[trigger] cmp.ensures((b, a), p) ==> p
            != Ordering::Less
}

/// `cmp` puts no element before the element just ahead of it.
pub open spec fn in_order_by<K, T, F: Fn(&T, &T) -> Ordering>(cmp: F, s: Seq<(K, T)>) -> bool {
    forall|i: int, o: Ordering|
        0 <= i < s.len() - 1 && #[trigger] cmp.ensures((&s[i + 1].1, &s[i].1), o) ==> o
            != Ordering::Less
}

/// Orders `v` by `cmp` on the elements, by insertion; elements that `cmp`
/// does not tell apart keep their order.
pub(crate) fn sort_entries_by<T: Lookup, F: Fn(&T, &T) -> Ordering>(
    v: &mut Vec<(T::Key, T)>,
    cmp: &F,
)
    requires
        unique_keys(old(v)@),
        forall|a: &T, b: &T| cmp.requires((a, b)),
    ensures
        unique_keys(final(v)@),
        final(v)@.to_multiset() == old(v)@.to_multiset(),
        final(v)@.len() == old(v)@.len(),
        orders(*cmp) ==> in_order_by(*cmp, final(v)@),
        keyed_entries(old(v)@) ==> keyed_entries(final(v)@),
{
    let n = v.len();
    if n <= 1 {
        return;
    }
    let mut i: usize = 1;
    while i < n
        invariant
            unique_keys(v@),
            forall|a: &T, b: &T| cmp.requires((a, b)),
            v@.len() == n,
            v@.to_multiset() == old(v)@.to_multiset(),
            keyed_entries(old(v)@) ==> keyed_entries(v@),
            orders(*cmp) ==> in_order_by(*cmp, v@.subrange(0, i as int)),
            1 <= i <= n,
        decreases n - i,
    {
        let ghost s = v@;
        let e = v.remove(i);
        let mut j: usize = i;
        while j > 0
            invariant
                0 <= j <= i < n,
                s.len() == n,
                v@ == s.remove(i as int),
                e == s[i as int],
                forall|a: &T, b: &T| cmp.requires((a, b)),
                forall|m: int| j <= m < i ==> #[trigger] cmp.ensures((&e.1, &v@[m].1), Ordering::Less),
            ensures
                0 <= j <= i,
                v@ == s.remove(i as int),
                forall|m: int| j <= m < i ==> #[trigger] cmp.ensures((&e.1, &v@[m].1), Ordering::Less),
                j > 0 ==> exists|o: Ordering|
                    o != Ordering::Less && #[trigger] cmp.ensures((&e.1, &v@[j - 1].1), o),
            decreases j,
        {
            let c = cmp(&e.1, &v[j - 1].1);
            match c {
                Ordering::Less => {
                    j = j - 1;
                },
                _ => {
                    break ;
                },
            }
        }
        v.insert(j, e);
        proof {
            let t = v@;
            lemma_reinsert(s, i as int, j as int, e);
            assert(t =~= s.remove(i as int).insert(j as int, e));
            if orders(*cmp) {
                let w = s.subrange(0, i as int);
                assert forall|m: int, o: Ordering|
                    0 <= m < i as int && #[trigger] cmp.ensures((&t[m + 1].1, &t[m].1), o) implies o
                    != Ordering::Less by {
                    if m + 1 < j {
                        assert(t[m] == w[m] && t[m + 1] == w[m + 1]);
                    } else if m + 1 == j {
                        assert(t[m] == s[m] && t[m + 1] == e);
                        assert(v@.len() == n);
                    } else if m == j {
                        assert(t[m + 1] == s.remove(i as int)[m]);
                    } else {
                        let k = m - 1;
                        assert(t[m] == w[k] && t[m + 1] == w[k + 1]);
                    }
                }
                assert(in_order_by(*cmp, t.subrange(0, i + 1)));
            }
        }
        i = i + 1;
    }
    proof {
        assert(v@.subrange(0, n as int) =~= v@);
    }
}

impl<T: Lookup> LookupVec<T> where T::Key: Ord {
    /// Orders the entries by key, ascending. The result is a reordering of
    /// the entries; where the key type's order is lawful, the keys ascend.
    pub fn sort(&mut self)
        requires
            old(self).wf(),
        ensures
            final(self).wf(),
            final(self)@.to_multiset() == old(self)@.to_multiset(),
            final(self)@.len() == old(self)@.len(),
            obeys_cmp::<T::Key>() ==> ascending(final(self)@),
            old(self).keyed() ==> final(self).keyed(),
    {
        proof {
            self.lemma_view();
        }
        sort_entries(&mut self.entries);
        proof {
            self.lemma_view();
        }
    }

    /// The elements, ordered by key as `sort` orders them, by value.
    pub fn sorted(self) -> (r: IntoIter<T>)
        requires
            self.wf(),
        ensures
            exists|t: Seq<(T::Key, T)>|
                {
                    &&& t.to_multiset() == self@.to_multiset()
                    &&& t.len() == self@.len()
                    &&& obeys_cmp::<T::Key>() ==> ascending(t)
                    &&& #[trigger] values_of(t) == r@
                },
    {
        let mut v = self;
        v.sort();
        let ghost t = v@;
        let r = v.into_iter();
        proof {
            assert(values_of(t) == r@);
        }
        r
    }
}

impl<T: Lookup> LookupVec<T> {
    /// Orders the entries by `cmp` on their elements; elements that `cmp`
    /// does not tell apart keep their order. The result is a reordering of
    /// the entries; where `cmp` is an order, no element comes after one that
    /// `cmp` puts after it.
    pub fn sort_by<F: Fn(&T, &T) -> Ordering>(&mut self, cmp: F)
        requires
            old(self).wf(),
            forall|a: &T, b: &T| cmp.requires((a, b)),
        ensures
            final(self).wf(),
            final(self)@.to_multiset() == old(self)@.to_multiset(),
            final(self)@.len() == old(self)@.len(),
            orders(cmp) ==> in_order_by(cmp, final(self)@),
            old(self).keyed() ==> final(self).keyed(),
    {
        proof {
            self.lemma_view();
        }
        sort_entries_by(&mut self.entries, &cmp);
        proof {
            self.lemma_view();
        }
    }

    /// Orders the entries by `cmp` on their elements, as `sort_by` does; here
    /// the order of elements that `cmp` does not tell apart is not promised.
    pub fn sort_unstable_by<F: Fn(&T, &T) -> Ordering>(&mut self, cmp: F)
        requires
            old(self).wf(),
            forall|a: &T, b: &T| cmp.requires((a, b)),
        ensures
            final(self).wf(),
            final(self)@.to_multiset() == old(self)@.to_multiset(),
            final(self)@.len() == old(self)@.len(),
            orders(cmp) ==> in_order_by(cmp, final(self)@),
            old(self).keyed() ==> final(self).keyed(),
    {
        self.sort_by(cmp)
    }

    /// The elements, ordered by `cmp` as `sort_by` orders them, by value.
    pub fn sorted_by<F: Fn(&T, &T) -> Ordering>(self, cmp: F) -> (r: IntoIter<T>)
        requires
            self.wf(),
            forall|a: &T, b: &T| cmp.requires((a, b)),
        ensures
            exists|t: Seq<(T::Key, T)>|
                {
                    &&& t.to_multiset() == self@.to_multiset()
                    &&& t.len() == self@.len()
                    &&& orders(cmp) ==> in_order_by(cmp, t)
                    &&& #[trigger] values_of(t) == r@
                },
    {
        let mut v = self;
        v.sort_by(cmp);
        let ghost t = v@;
        let r = v.into_iter();
        proof {
            assert(values_of(t) == r@);
        }
        r
    }

    /// The elements, ordered by `cmp` as `sort_unstable_by` orders them, by
    /// value.
    pub fn sorted_unstable_by<F: Fn(&T, &T) -> Ordering>(self, cmp: F) -> (r: IntoIter<T>)
        requires
            self.wf(),
            forall|a: &T, b: &T| cmp.requires((a, b)),
        ensures
            exists|t: Seq<(T::Key, T)>|
                {
                    &&& t.to_multiset() == self@.to_multiset()
                    &&& t.len() == self@.len()
                    &&& orders(cmp) ==> in_order_by(cmp, t)
                    &&& #[trigger] values_of(t) == r@
                },
    {
        self.sorted_by(cmp)
    }
}

} // verus!
