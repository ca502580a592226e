use vstd::laws_eq::obeys_concrete_eq;
use vstd::prelude::*;

use crate::entries::entries_of;
use crate::entries::entry_pushed;
use crate::entries::finds;
use crate::entries::has_key;
use crate::entries::insert_position;
use crate::entries::key_at;
use crate::entries::keyed_entries;
use crate::entries::keys_of;
use crate::entries::lemma_entry_pushed;
use crate::entries::lemma_insert_fresh;
use crate::entries::lemma_reinsert;
use crate::entries::push_all;
use crate::entries::push_entry;
use crate::entries::pushed;
use crate::entries::unique_keys;
use crate::entries::values_of;
use crate::iter::Drain;
use crate::iter::IntoIter;
use crate::iter::IntoKeys;
use crate::iter::Iter;
use crate::iter::Keys;
use crate::lookup::Lookup;

verus! {

/// A uniquely keyed, ordered collection of elements.
///
/// Its view is the sequence of its entries in order, each the key stored for
/// an element and the element itself. No two entries hold the same key. The
/// key is the one the element derived when it came in; changing an element in
/// place through a mutable reference leaves the stored key as it was.
#[derive(Clone, Debug)]
pub struct LookupVec<T: Lookup> {
    pub(crate) entries: Vec<(T::Key, T)>,
}

impl<T: Lookup> View for LookupVec<T> {
    type V = Seq<(T::Key, T)>;

    closed spec fn view(&self) -> Seq<(T::Key, T)> {
        self.entries@
    }
}

impl<T: Lookup> LookupVec<T> {
    /// The view is the entry vector's.
    pub(crate) proof fn lemma_view(&self)
        ensures
            self@ == self.entries@,
    {
    }

    /// Keys compare by value and no key occurs twice.
    pub open spec fn wf(&self) -> bool {
        &&& obeys_concrete_eq::<T::Key>()
        &&& unique_keys(self@)
    }

    /// Every entry holds the key that its element derives.
    pub open spec fn keyed(&self) -> bool {
        keyed_entries(self@)
    }

    /// An empty collection.
    pub fn new() -> (r: Self)
        requires
            obeys_concrete_eq::<T::Key>(),
        ensures
            r.wf(),
            r.keyed(),
            r@ == Seq::<(T::Key, T)>::empty(),
    {
        LookupVec { entries: Vec::new() }
    }

    /// Builds a collection from `items` in order, as pushing each would: an
    /// element replaces an earlier one with the same key, in that one's place.
    pub fn from_iter(items: Vec<T>) -> (r: Self)
        requires
            obeys_concrete_eq::<T::Key>(),
        ensures
            r.wf(),
            r.keyed(),
            r@ == push_all(Seq::<(T::Key, T)>::empty(), entries_of(items@)),
    {
        let mut r = Self::with_capacity(items.len());
        r.extend(items);
        r
    }

    /// The number of elements.
    pub fn len(&self) -> (r: usize)
        ensures
            r == self@.len(),
    {
        self.entries.len()
    }

    /// Pushes the entry `(k, v)`: replaces the value stored under `k` in place,
    /// or appends the entry.
    fn push_entry(&mut self, k: T::Key, v: T) -> (r: (usize, Option<T>))
        requires
            old(self).wf(),
        ensures
            final(self).wf(),
            entry_pushed(old(self)@, (k, v), final(self)@, r.0, r.1),
            final(self)@ == push_entry(old(self)@, (k, v)),
            old(self).keyed() && k == v.spec_key() ==> final(self).keyed(),
    {
        match self.find(&k) {
            Some(i) => {
                let mut slot = v;
                core::mem::swap(&mut self.entries[i].1, &mut slot);
                proof {
                    assert(self@ =~= old(self)@.update(i as int, (old(self)@[i as int].0, v)));
                    lemma_entry_pushed(old(self)@, (k, v), self@, i, Some(slot));
                }
                (i, Some(slot))
            },
            None => {
                let n = self.entries.len();
                self.entries.push((k, v));
                proof {
                    lemma_entry_pushed(old(self)@, (k, v), self@, n, None);
                    lemma_insert_fresh(old(self)@, n as int, (k, v));
                    assert(old(self)@.insert(n as int, (k, v)) =~= self@);
                }
                (n, None)
            },
        }
    }

    /// Appends `value`, or replaces the element with the same key in place;
    /// returns the element's position and the element it displaced.
    pub fn push_full(&mut self, value: T) -> (r: (usize, Option<T>))
        requires
            old(self).wf(),
        ensures
            final(self).wf(),
            pushed(old(self)@, value, final(self)@, r.0, r.1),
            old(self).keyed() ==> final(self).keyed(),
    {
        let k = value.key();
        self.push_entry(k, value)
    }

    /// Appends `value`, or replaces the element with the same key in place;
    /// returns the element it displaced.
    pub fn push(&mut self, value: T) -> (r: Option<T>)
        requires
            old(self).wf(),
        ensures
            final(self).wf(),
            exists|i: usize| pushed(old(self)@, value, final(self)@, i, r),
            old(self).keyed() ==> final(self).keyed(),
    {
        let (_, r) = self.push_full(value);
        r
    }

    /// The element with key `k`.
    pub fn get(&self, k: &T::Key) -> (r: Option<&T>)
        requires
            self.wf(),
        ensures
            match r {
                Some(v) => exists|i: int| 0 <= i < self@.len() && self@[i].0 == *k && self@[i].1 == *v,
                None => !has_key(self@, *k),
            },
    {
        match self.find(k) {
            Some(i) => Some(&self.entries[i].1),
            None => None,
        }
    }

    /// The element at position `index`.
    pub fn get_index(&self, index: usize) -> (r: Option<&T>)
        ensures
            index < self@.len() ==> r == Some(&self@[index as int].1),
            index >= self@.len() ==> r == None::<&T>,
    {
        if index < self.entries.len() {
            Some(&self.entries[index].1)
        } else {
            None
        }
    }

    /// An empty collection with room for `n` elements.
    pub fn with_capacity(n: usize) -> (r: Self)
        requires
            obeys_concrete_eq::<T::Key>(),
        ensures
            r.wf(),
            r.keyed(),
            r@ == Seq::<(T::Key, T)>::empty(),
    {
        LookupVec { entries: Vec::with_capacity(n) }
    }

    /// Whether there are no elements.
    pub fn is_empty(&self) -> (r: bool)
        ensures
            r == (self@.len() == 0),
    {
        self.entries.len() == 0
    }

    /// The first element.
    pub fn first(&self) -> (r: Option<&T>)
        ensures
            self@.len() > 0 ==> r == Some(&self@[0].1),
            self@.len() == 0 ==> r == None::<&T>,
    {
        self.get_index(0)
    }

    /// The last element.
    pub fn last(&self) -> (r: Option<&T>)
        ensures
            self@.len() > 0 ==> r == Some(&self@.last().1),
            self@.len() == 0 ==> r == None::<&T>,
    {
        if self.entries.len() == 0 {
            None
        } else {
            self.get_index(self.entries.len() - 1)
        }
    }

    /// The element at position `index`, for change in place; its stored key
    /// stays as it was.
    pub fn get_index_mut(&mut self, index: usize) -> (r: Option<&mut T>)
        ensures
            index < old(self)@.len() ==> {
                &&& r.is_some()
                &&& *r.unwrap() == old(self)@[index as int].1
                &&& final(self)@ == old(self)@.update(
                    index as int,
                    (old(self)@[index as int].0, *final(r.unwrap())),
                )
            },
            index >= old(self)@.len() ==> r.is_none() && final(self)@ == old(self)@,
            old(self).wf() ==> final(self).wf(),
    {
        if index < self.entries.len() {
            Some(&mut self.entries[index].1)
        } else {
            None
        }
    }

    /// The first element, for change in place.
    pub fn first_mut(&mut self) -> (r: Option<&mut T>)
        ensures
            old(self)@.len() > 0 ==> {
                &&& r.is_some()
                &&& *r.unwrap() == old(self)@[0].1
                &&& final(self)@ == old(self)@.update(0, (old(self)@[0].0, *final(r.unwrap())))
            },
            old(self)@.len() == 0 ==> r.is_none() && final(self)@ == old(self)@,
            old(self).wf() ==> final(self).wf(),
    {
        self.get_index_mut(0)
    }

    /// The last element, for change in place.
    pub fn last_mut(&mut self) -> (r: Option<&mut T>)
        ensures
            old(self)@.len() > 0 ==> {
                let n = old(self)@.len() - 1;
                &&& r.is_some()
                &&& *r.unwrap() == old(self)@[n].1
                &&& final(self)@ == old(self)@.update(n, (old(self)@[n].0, *final(r.unwrap())))
            },
            old(self)@.len() == 0 ==> r.is_none() && final(self)@ == old(self)@,
            old(self).wf() ==> final(self).wf(),
    {
        let n = self.entries.len();
        if n == 0 {
            None
        } else {
            self.get_index_mut(n - 1)
        }
    }

    /// The position of the element with key `k`.
    pub fn get_index_of(&self, k: &T::Key) -> (r: Option<usize>)
        requires
            self.wf(),
        ensures
            finds(self@, *k, r),
    {
        self.find(k)
    }

    /// Whether some element has key `k`.
    pub fn contains_key(&self, k: &T::Key) -> (r: bool)
        requires
            self.wf(),
        ensures
            r == has_key(self@, *k),
    {
        self.find(k).is_some()
    }

    /// Whether some element has the key that `value` derives.
    pub fn contains(&self, value: &T) -> (r: bool)
        requires
            self.wf(),
        ensures
            r == has_key(self@, value.spec_key()),
    {
        let k = value.key();
        self.contains_key(&k)
    }

    /// The element with key `k`, for change in place; its stored key stays
    /// as it was.
    pub fn get_mut(&mut self, k: &T::Key) -> (r: Option<&mut T>)
        requires
            old(self).wf(),
        ensures
            has_key(old(self)@, *k) ==> exists|i: int|
                {
                    &&& key_at(old(self)@, i, *k)
                    &&& r.is_some()
                    &&& *r.unwrap() == old(self)@[i].1
                    &&& final(self)@ == old(self)@.update(i, (*k, *final(r.unwrap())))
                },
            !has_key(old(self)@, *k) ==> r.is_none() && final(self)@ == old(self)@,
            final(self).wf(),
    {
        match self.find(k) {
            Some(i) => {
                proof {
                    assert(key_at(old(self)@, i as int, *k));
                }
                self.get_index_mut(i)
            },
            None => None,
        }
    }

    /// Removes the entry at `index`, shifting the later entries down by one.
    pub fn shift_remove_index(&mut self, index: usize) -> (r: Option<T>)
        requires
            old(self).wf(),
        ensures
            final(self).wf(),
            index < old(self)@.len() ==> r == Some(old(self)@[index as int].1) && final(self)@
                == old(self)@.remove(index as int),
            index >= old(self)@.len() ==> r == None::<T> && final(self)@ == old(self)@,
            old(self).keyed() ==> final(self).keyed(),
    {
        if index < self.entries.len() {
            let e = self.entries.remove(index);
            proof {
                let s = old(self)@;
                assert forall|x: int, y: int|
                    0 <= x < self@.len() && 0 <= y < self@.len() && x != y implies self@[x].0
                    != self@[y].0 by {
                    let sx = if x < index { x } else { x + 1 };
                    let sy = if y < index { y } else { y + 1 };
                    assert(self@[x] == s[sx] && self@[y] == s[sy]);
                }
            }
            Some(e.1)
        } else {
            None
        }
    }

    /// Removes the entry at `index`; the last entry takes its place.
    pub fn swap_remove_index(&mut self, index: usize) -> (r: Option<T>)
        requires
            old(self).wf(),
        ensures
            final(self).wf(),
            index < old(self)@.len() ==> r == Some(old(self)@[index as int].1) && final(self)@
                == old(self)@.update(index as int, old(self)@.last()).drop_last(),
            index >= old(self)@.len() ==> r == None::<T> && final(self)@ == old(self)@,
            old(self).keyed() ==> final(self).keyed(),
    {
        if index < self.entries.len() {
            let e = self.entries.swap_remove(index);
            proof {
                let s = old(self)@;
                let n = s.len() - 1;
                assert forall|x: int, y: int|
                    0 <= x < self@.len() && 0 <= y < self@.len() && x != y implies self@[x].0
                    != self@[y].0 by {
                    let sx = if x == index { n } else { x };
                    let sy = if y == index { n } else { y };
                    assert(self@[x] == s[sx] && self@[y] == s[sy]);
                }
            }
            Some(e.1)
        } else {
            None
        }
    }

    /// Removes the element with key `k`, shifting the later entries down by
    /// one.
    pub fn shift_remove(&mut self, k: &T::Key) -> (r: Option<T>)
        requires
            old(self).wf(),
        ensures
            final(self).wf(),
            has_key(old(self)@, *k) ==> exists|i: int|
                {
                    &&& key_at(old(self)@, i, *k)
                    &&& r == Some(old(self)@[i].1)
                    &&& final(self)@ == old(self)@.remove(i)
                },
            !has_key(old(self)@, *k) ==> r == None::<T> && final(self)@ == old(self)@,
            old(self).keyed() ==> final(self).keyed(),
    {
        match self.find(k) {
            Some(i) => {
                proof {
                    assert(key_at(old(self)@, i as int, *k));
                }
                self.shift_remove_index(i)
            },
            None => None,
        }
    }

    /// Removes the element with key `k`; the last entry takes its place.
    pub fn swap_remove(&mut self, k: &T::Key) -> (r: Option<T>)
        requires
            old(self).wf(),
        ensures
            final(self).wf(),
            has_key(old(self)@, *k) ==> exists|i: int|
                {
                    &&& key_at(old(self)@, i, *k)
                    &&& r == Some(old(self)@[i].1)
                    &&& final(self)@ == old(self)@.update(i, old(self)@.last()).drop_last()
                },
            !has_key(old(self)@, *k) ==> r == None::<T> && final(self)@ == old(self)@,
            old(self).keyed() ==> final(self).keyed(),
    {
        match self.find(k) {
            Some(i) => {
                proof {
                    assert(key_at(old(self)@, i as int, *k));
                }
                self.swap_remove_index(i)
            },
            None => None,
        }
    }

    /// Removes the last element.
    pub fn pop(&mut self) -> (r: Option<T>)
        requires
            old(self).wf(),
        ensures
            final(self).wf(),
            old(self)@.len() > 0 ==> r == Some(old(self)@.last().1) && final(self)@ == old(
                self,
            )@.drop_last(),
            old(self)@.len() == 0 ==> r == None::<T> && final(self)@ == old(self)@,
            old(self).keyed() ==> final(self).keyed(),
    {
        match self.entries.pop() {
            Some(e) => Some(e.1),
            None => None,
        }
    }

    /// Inserts `value` before the entry at `index`, or at the end where
    /// `index` is past it. An element with the same key leaves its place
    /// first and hands over its stored key. Returns the position that `value`
    /// took and the element it displaced.
    pub fn insert(&mut self, index: usize, value: T) -> (r: (usize, Option<T>))
        requires
            old(self).wf(),
        ensures
            final(self).wf(),
            has_key(old(self)@, value.spec_key()) ==> exists|j: int|
                {
                    &&& key_at(old(self)@, j, value.spec_key())
                    &&& r.0 == insert_position(old(self)@, value.spec_key(), index, j)
                    &&& r.1 == Some(old(self)@[j].1)
                    &&& final(self)@ == old(self)@.remove(j).insert(
                        r.0 as int,
                        (old(self)@[j].0, value),
                    )
                },
            !has_key(old(self)@, value.spec_key()) ==> {
                &&& r.0 == insert_position(old(self)@, value.spec_key(), index, 0)
                &&& r.1 == None::<T>
                &&& final(self)@ == old(self)@.insert(r.0 as int, (value.spec_key(), value))
            },
            old(self).keyed() ==> final(self).keyed(),
    {
        let k = value.key();
        let n = self.entries.len();
        let at = if index < n {
            index
        } else {
            n
        };
        match self.find(&k) {
            Some(j) => {
                let e = self.entries.remove(j);
                let p = if j < at {
                    at - 1
                } else {
                    at
                };
                self.entries.insert(p, (e.0, value));
                proof {
                    assert(key_at(old(self)@, j as int, k));
                    lemma_reinsert(old(self)@, j as int, p as int, (e.0, value));
                }
                (p, Some(e.1))
            },
            None => {
                self.entries.insert(at, (k, value));
                proof {
                    lemma_insert_fresh(old(self)@, at as int, (k, value));
                }
                (at, None)
            },
        }
    }

    /// Puts `value` at position `index`, keeping the order of all other
    /// elements. An element with the same key leaves its place first and hands
    /// over its stored key; that element is returned.
    pub fn shift_insert(&mut self, index: usize, value: T) -> (r: Option<T>)
        requires
            old(self).wf(),
            index <= old(self)@.len(),
            has_key(old(self)@, value.spec_key()) ==> index < old(self)@.len(),
        ensures
            final(self).wf(),
            has_key(old(self)@, value.spec_key()) ==> exists|j: int|
                {
                    &&& key_at(old(self)@, j, value.spec_key())
                    &&& r == Some(old(self)@[j].1)
                    &&& final(self)@ == old(self)@.remove(j).insert(
                        index as int,
                        (old(self)@[j].0, value),
                    )
                },
            !has_key(old(self)@, value.spec_key()) ==> r == None::<T> && final(self)@ == old(
                self,
            )@.insert(index as int, (value.spec_key(), value)),
            old(self).keyed() ==> final(self).keyed(),
    {
        let k = value.key();
        match self.find(&k) {
            Some(j) => {
                let e = self.entries.remove(j);
                self.entries.insert(index, (e.0, value));
                proof {
                    assert(key_at(old(self)@, j as int, k));
                    lemma_reinsert(old(self)@, j as int, index as int, (e.0, value));
                }
                Some(e.1)
            },
            None => {
                self.entries.insert(index, (k, value));
                proof {
                    lemma_insert_fresh(old(self)@, index as int, (k, value));
                }
                None
            },
        }
    }

    /// Splits the collection at `at`: this one keeps the entries before it,
    /// the returned one takes the rest, both in order.
    pub fn split_off(&mut self, at: usize) -> (r: Self)
        requires
            old(self).wf(),
            at <= old(self)@.len(),
        ensures
            final(self).wf(),
            r.wf(),
            final(self)@ == old(self)@.subrange(0, at as int),
            r@ == old(self)@.subrange(at as int, old(self)@.len() as int),
            old(self).keyed() ==> final(self).keyed() && r.keyed(),
    {
        let rest = self.entries.split_off(at);
        let r = LookupVec { entries: rest };
        proof {
            let s = old(self)@;
            assert forall|x: int, y: int|
                0 <= x < r@.len() && 0 <= y < r@.len() && x != y implies r@[x].0 != r@[y].0 by {
                assert(r@[x] == s[x + at] && r@[y] == s[y + at]);
            }
            if old(self).keyed() {
                assert forall|x: int| 0 <= x < r@.len() implies #[trigger] r@[x].0
                    == r@[x].1.spec_key() by {
                    assert(r@[x] == s[x + at]);
                }
            }
        }
        r
    }

    /// Moves the entries of `other` onto the end of this one, in order, each
    /// as `push` would; `other` is left empty.
    pub fn append(&mut self, other: &mut Self)
        requires
            old(self).wf(),
            old(other).wf(),
        ensures
            final(self).wf(),
            final(other).wf(),
            final(self)@ == push_all(old(self)@, old(other)@),
            final(other)@ == Seq::<(T::Key, T)>::empty(),
            old(self).keyed() && old(other).keyed() ==> final(self).keyed(),
    {
        let mut rest: Vec<(T::Key, T)> = Vec::new();
        core::mem::swap(&mut rest, &mut other.entries);
        let ghost u = rest@;
        let mut backwards = reversed(rest);
        proof {
            assert(u.subrange(0, u.len() as int) =~= u);
        }
        let ghost n = u.len();
        while backwards.len() > 0
            invariant
                self.wf(),
                backwards@.len() <= n,
                backwards@ == u.subrange(n - backwards@.len(), n as int).reverse(),
                self@ == push_all(old(self)@, u.subrange(0, n - backwards@.len())),
                old(self).keyed() && keyed_entries(u) ==> self.keyed(),
                n == u.len(),
            decreases backwards@.len(),
        {
            let ghost m = backwards@.len();
            match backwards.pop() {
                Some(e) => {
                    proof {
                        assert(e == u[n - m]);
                    }
                    self.push_entry(e.0, e.1);
                    proof {
                        let w = u.subrange(0, n - m + 1);
                        assert(w.drop_last() =~= u.subrange(0, n - m));
                        assert(backwards@ =~= u.subrange(n - m + 1, n as int).reverse());
                    }
                },
                None => {},
            }
        }
        proof {
            assert(u.subrange(0, n as int) =~= u);
        }
    }

    /// Pushes each element of `items` in order, as `push` would.
    pub fn extend(&mut self, items: Vec<T>)
        requires
            old(self).wf(),
        ensures
            final(self).wf(),
            final(self)@ == push_all(old(self)@, entries_of(items@)),
            old(self).keyed() ==> final(self).keyed(),
    {
        let ghost u = items@;
        let mut backwards = reversed(items);
        proof {
            assert(u.subrange(0, u.len() as int) =~= u);
        }
        let ghost n = u.len();
        while backwards.len() > 0
            invariant
                self.wf(),
                backwards@.len() <= n,
                backwards@ == u.subrange(n - backwards@.len(), n as int).reverse(),
                self@ == push_all(old(self)@, entries_of(u.subrange(0, n - backwards@.len()))),
                old(self).keyed() ==> self.keyed(),
                n == u.len(),
            decreases backwards@.len(),
        {
            let ghost m = backwards@.len();
            match backwards.pop() {
                Some(v) => {
                    proof {
                        assert(v == u[n - m]);
                    }
                    let k = v.key();
                    self.push_entry(k, v);
                    proof {
                        let w = entries_of(u.subrange(0, n - m + 1));
                        assert(w.drop_last() =~= entries_of(u.subrange(0, n - m)));
                        assert(backwards@ =~= u.subrange(n - m + 1, n as int).reverse());
                    }
                },
                None => {},
            }
        }
        proof {
            assert(u.subrange(0, n as int) =~= u);
        }
    }

    /// Makes room for at least `additional` more elements.
    pub fn reserve(&mut self, additional: usize)
        ensures
            final(self)@ == old(self)@,
    {
        self.entries.reserve(additional);
    }

    /// Keeps the first `len` entries and drops the rest.
    pub fn truncate(&mut self, len: usize)
        requires
            old(self).wf(),
        ensures
            final(self).wf(),
            len <= old(self)@.len() ==> final(self)@ == old(self)@.subrange(0, len as int),
            len > old(self)@.len() ==> final(self)@ == old(self)@,
            old(self).keyed() ==> final(self).keyed(),
    {
        self.entries.truncate(len);
    }

    /// Removes every entry.
    pub fn clear(&mut self)
        requires
            old(self).wf(),
        ensures
            final(self).wf(),
            final(self).keyed(),
            final(self)@ == Seq::<(T::Key, T)>::empty(),
    {
        self.entries.clear();
    }

    /// Reverses the order of the entries.
    pub fn reverse(&mut self)
        requires
            old(self).wf(),
        ensures
            final(self).wf(),
            final(self)@ == old(self)@.reverse(),
            old(self).keyed() ==> final(self).keyed(),
    {
        let ghost u = self@;
        let mut entries: Vec<(T::Key, T)> = Vec::new();
        core::mem::swap(&mut entries, &mut self.entries);
        let backwards = reversed(entries);
        self.entries = backwards;
        proof {
            assert(self@ =~= u.reverse());
            let n = u.len();
            assert forall|x: int, y: int|
                0 <= x < n && 0 <= y < n && x != y implies self@[x].0 != self@[y].0 by {
                assert(self@[x] == u[n - 1 - x] && self@[y] == u[n - 1 - y]);
            }
            if old(self).keyed() {
                assert forall|x: int| 0 <= x < n implies #[trigger] self@[x].0
                    == self@[x].1.spec_key() by {
                    assert(self@[x] == u[n - 1 - x]);
                }
            }
        }
    }

    /// The elements, in order.
    pub fn iter(&self) -> (r: Iter<'_, T>)
        ensures
            r@ == values_of(self@),
    {
        Iter::over(&self.entries)
    }

    /// The keys, in order.
    pub fn keys(&self) -> (r: Keys<'_, T>)
        ensures
            r@ == keys_of(self@),
    {
        Keys::over(&self.entries)
    }

    /// The elements, in order, by value.
    pub fn into_iter(self) -> (r: IntoIter<T>)
        ensures
            r@ == values_of(self@),
    {
        IntoIter::over(self.entries)
    }

    /// The keys, in order, by value.
    pub fn into_keys(self) -> (r: IntoKeys<T>)
        ensures
            r@ == keys_of(self@),
    {
        IntoKeys::over(self.entries)
    }

    /// Removes the entries at positions `range.start` up to `range.end`
    /// (exclusive) and hands out their elements in order. The later entries
    /// move down to close the gap.
    pub fn drain(&mut self, range: core::ops::Range<usize>) -> (r: Drain<T>)
        requires
            old(self).wf(),
            range.start <= range.end <= old(self)@.len(),
        ensures
            final(self).wf(),
            final(self)@ == old(self)@.subrange(0, range.start as int) + old(self)@.subrange(
                range.end as int,
                old(self)@.len() as int,
            ),
            r@ == values_of(old(self)@.subrange(range.start as int, range.end as int)),
            old(self).keyed() ==> final(self).keyed(),
    {
        let mut tail = self.entries.split_off(range.end);
        let taken = self.entries.split_off(range.start);
        self.entries.append(&mut tail);
        proof {
            let s = old(self)@;
            let a = range.start as int;
            let b = range.end as int;
            assert forall|x: int, y: int|
                0 <= x < self@.len() && 0 <= y < self@.len() && x != y implies self@[x].0
                != self@[y].0 by {
                let sx = if x < a { x } else { x + b - a };
                let sy = if y < a { y } else { y + b - a };
                assert(self@[x] == s[sx] && self@[y] == s[sy]);
            }
            if old(self).keyed() {
                assert forall|x: int| 0 <= x < self@.len() implies #[trigger] self@[x].0
                    == self@[x].1.spec_key() by {
                    let sx = if x < a { x } else { x + b - a };
                    assert(self@[x] == s[sx]);
                }
            }
        }
        Drain::over(taken)
    }

    /// Moves the entry at `from` to position `to`, shifting the entries in
    /// between by one.
    pub fn move_index(&mut self, from: usize, to: usize)
        requires
            old(self).wf(),
            from < old(self)@.len(),
            to < old(self)@.len(),
        ensures
            final(self).wf(),
            final(self)@ == old(self)@.remove(from as int).insert(to as int, old(self)@[from as int]),
            old(self).keyed() ==> final(self).keyed(),
    {
        let e = self.entries.remove(from);
        self.entries.insert(to, e);
        proof {
            let s = old(self)@;
            let t = self@;
            let src = |a: int|
                if a == to {
                    from as int
                } else if a < to {
                    if a < from { a } else { a + 1 }
                } else {
                    if a - 1 < from { a - 1 } else { a }
                };
            assert forall|x: int, y: int|
                0 <= x < t.len() && 0 <= y < t.len() && x != y implies t[x].0 != t[y].0 by {
                assert(t[x] == s[src(x)] && t[y] == s[src(y)]);
            }
        }
    }

    /// Exchanges the entries at positions `a` and `b`.
    pub fn swap_indices(&mut self, a: usize, b: usize)
        requires
            old(self).wf(),
            a < old(self)@.len(),
            b < old(self)@.len(),
        ensures
            final(self).wf(),
            final(self)@ == old(self)@.update(a as int, old(self)@[b as int]).update(
                b as int,
                old(self)@[a as int],
            ),
            old(self).keyed() ==> final(self).keyed(),
    {
        if a != b {
            let (lo, hi) = if a < b { (a, b) } else { (b, a) };
            let e_hi = self.entries.remove(hi);
            let e_lo = self.entries.remove(lo);
            self.entries.insert(lo, e_hi);
            self.entries.insert(hi, e_lo);
            proof {
                let s = old(self)@;
                let t = s.update(a as int, s[b as int]).update(b as int, s[a as int]);
                assert(self@ =~= t);
                assert forall|x: int, y: int|
                    0 <= x < t.len() && 0 <= y < t.len() && x != y implies t[x].0 != t[y].0 by {
                    let sx = if x == a { b as int } else if x == b { a as int } else { x };
                    let sy = if y == a { b as int } else if y == b { a as int } else { y };
                    assert(t[x] == s[sx] && t[y] == s[sy]);
                }
            }
        } else {
            proof {
                assert(self@ =~= old(self)@.update(a as int, old(self)@[b as int]).update(
                    b as int,
                    old(self)@[a as int],
                ));
            }
        }
    }

    /// The position of the entry whose key equals `k`.
    fn find(&self, k: &T::Key) -> (r: Option<usize>)
        requires
            self.wf(),
        ensures
            finds(self@, *k, r),
    {
        let mut i: usize = 0;
        while i < self.entries.len()
            invariant
                self.wf(),
                i <= self@.len(),
                forall|j: int| 0 <= j < i ==> self@[j].0 != *k,
            decreases self@.len() - i,
        {
            let found = self.entries[i].0 == *k;
            proof {
                reveal(obeys_concrete_eq);
            }
            if found {
                proof {
                    assert(self@[i as int].0 == *k);
                }
                return Some(i);
            }
            i = i + 1;
        }
        None
    }
}

/// The items of `v` in reverse order.
pub(crate) fn reversed<X>(v: Vec<X>) -> (r: Vec<X>)
    ensures
        r@ == v@.reverse(),
{
    let mut v = v;
    let ghost u = v@;
    let mut backwards: Vec<X> = Vec::new();
    while v.len() > 0
        invariant
            backwards@ + v@.reverse() == u.reverse(),
        decreases v@.len(),
    {
        let ghost before = v@;
        match v.pop() {
            Some(e) => {
                backwards.push(e);
                proof {
                    assert(before.reverse() =~= seq![e] + v@.reverse());
                    assert(backwards@ + v@.reverse() =~= u.reverse());
                }
            },
            None => {},
        }
    }
    proof {
        assert(v@.reverse() =~= Seq::<X>::empty());
        assert(backwards@ =~= u.reverse());
    }
    backwards
}

impl<T: Lookup> Default for LookupVec<T> {
    /// An empty collection.
    fn default() -> (r: Self)
        ensures
            r@ == Seq::<(T::Key, T)>::empty(),
            r.keyed(),
            obeys_concrete_eq::<T::Key>() ==> r.wf(),
    {
        LookupVec { entries: Vec::new() }
    }
}

impl<T: Lookup> core::ops::Index<usize> for LookupVec<T> {
    type Output = T;

    /// The element at position `index`, which must be in bounds.
    fn index(&self, index: usize) -> (r: &T)
        ensures
            *r == self@[index as int].1,
    {
        &self.entries[index].1
    }
}

impl<T: Lookup> vstd::std_specs::core::IndexSpecImpl<usize> for LookupVec<T> {
    open spec fn index_req(&self, index: &usize) -> bool {
        *index < self@.len()
    }
}

impl<T: Lookup> core::ops::IndexMut<usize> for LookupVec<T> {
    /// The element at position `index`, which must be in bounds, for change in
    /// place; its stored key stays as it was.
    fn index_mut(&mut self, index: usize) -> (r: &mut T)
        requires
            index < old(self)@.len(),
        ensures
            *r == old(self)@[index as int].1,
            final(self)@ == old(self)@.update(index as int, (old(self)@[index as int].0, *final(r))),
            old(self).wf() ==> final(self).wf(),
    {
        &mut self.entries[index].1
    }
}

} // verus!
