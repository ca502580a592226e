use std::collections::VecDeque;
use vstd::prelude::*;

use crate::entries::keys_of;
use crate::entries::values_of;
use crate::lookup::Lookup;

verus! {

/// The elements of a collection, in order, by reference; taken from either
/// end.
pub struct Iter<'a, T: Lookup> {
    entries: &'a Vec<(T::Key, T)>,
    front: usize,
    back: usize,
}

impl<'a, T: Lookup> View for Iter<'a, T> {
    type V = Seq<T>;

    /// The elements not yet taken.
    closed spec fn view(&self) -> Seq<T> {
        values_of(self.entries@).subrange(self.front as int, self.back as int)
    }
}

impl<'a, T: Lookup> Iter<'a, T> {
    #[verifier::type_invariant]
    closed spec fn inv(self) -> bool {
        self.front <= self.back <= self.entries@.len()
    }

    pub(crate) fn over(entries: &'a Vec<(T::Key, T)>) -> (r: Self)
        ensures
            r@ == values_of(entries@),
    {
        let r = Iter { entries, front: 0, back: entries.len() };
        proof {
            assert(r@ =~= values_of(entries@));
        }
        r
    }

    /// Takes the first element not yet taken.
    pub fn next(&mut self) -> (r: Option<&'a T>)
        ensures
            old(self)@.len() > 0 ==> r == Some(&old(self)@[0]) && final(self)@ == old(
                self,
            )@.drop_first(),
            old(self)@.len() == 0 ==> r == None::<&T> && final(self)@ == old(self)@,
    {
        proof {
            use_type_invariant(&*self);
        }
        if self.front < self.back {
            let i = self.front;
            self.front = self.front + 1;
            proof {
                assert(self@ =~= old(self)@.drop_first());
            }
            Some(&self.entries[i].1)
        } else {
            None
        }
    }

    /// Takes the last element not yet taken.
    pub fn next_back(&mut self) -> (r: Option<&'a T>)
        ensures
            old(self)@.len() > 0 ==> r == Some(&old(self)@.last()) && final(self)@ == old(
                self,
            )@.drop_last(),
            old(self)@.len() == 0 ==> r == None::<&T> && final(self)@ == old(self)@,
    {
        proof {
            use_type_invariant(&*self);
        }
        if self.front < self.back {
            self.back = self.back - 1;
            proof {
                assert(self@ =~= old(self)@.drop_last());
            }
            Some(&self.entries[self.back].1)
        } else {
            None
        }
    }

    /// How many elements are not yet taken.
    pub fn len(&self) -> (r: usize)
        ensures
            r == self@.len(),
    {
        proof {
            use_type_invariant(self);
        }
        self.back - self.front
    }
}

/// The keys of a collection, in order, by reference; taken from either end.
pub struct Keys<'a, T: Lookup> {
    entries: &'a Vec<(T::Key, T)>,
    front: usize,
    back: usize,
}

impl<'a, T: Lookup> View for Keys<'a, T> {
    type V = Seq<T::Key>;

    /// The keys not yet taken.
    closed spec fn view(&self) -> Seq<T::Key> {
        keys_of(self.entries@).subrange(self.front as int, self.back as int)
    }
}

impl<'a, T: Lookup> Keys<'a, T> {
    #[verifier::type_invariant]
    closed spec fn inv(self) -> bool {
        self.front <= self.back <= self.entries@.len()
    }

    pub(crate) fn over(entries: &'a Vec<(T::Key, T)>) -> (r: Self)
        ensures
            r@ == keys_of(entries@),
    {
        let r = Keys { entries, front: 0, back: entries.len() };
        proof {
            assert(r@ =~= keys_of(entries@));
        }
        r
    }

    /// Takes the first key not yet taken.
    pub fn next(&mut self) -> (r: Option<&'a T::Key>)
        ensures
            old(self)@.len() > 0 ==> r == Some(&old(self)@[0]) && final(self)@ == old(
                self,
            )@.drop_first(),
            old(self)@.len() == 0 ==> r == None::<&T::Key> && final(self)@ == old(self)@,
    {
        proof {
            use_type_invariant(&*self);
        }
        if self.front < self.back {
            let i = self.front;
            self.front = self.front + 1;
            proof {
                assert(self@ =~= old(self)@.drop_first());
            }
            Some(&self.entries[i].0)
        } else {
            None
        }
    }

    /// Takes the last key not yet taken.
    pub fn next_back(&mut self) -> (r: Option<&'a T::Key>)
        ensures
            old(self)@.len() > 0 ==> r == Some(&old(self)@.last()) && final(self)@ == old(
                self,
            )@.drop_last(),
            old(self)@.len() == 0 ==> r == None::<&T::Key> && final(self)@ == old(self)@,
    {
        proof {
            use_type_invariant(&*self);
        }
        if self.front < self.back {
            self.back = self.back - 1;
            proof {
                assert(self@ =~= old(self)@.drop_last());
            }
            Some(&self.entries[self.back].0)
        } else {
            None
        }
    }

    /// How many keys are not yet taken.
    pub fn len(&self) -> (r: usize)
        ensures
            r == self@.len(),
    {
        proof {
            use_type_invariant(self);
        }
        self.back - self.front
    }
}

/// The elements of a collection, in order, by value; taken from either end.
pub struct IntoIter<T: Lookup> {
    items: VecDeque<T>,
}

impl<T: Lookup> View for IntoIter<T> {
    type V = Seq<T>;

    /// The elements not yet taken.
    closed spec fn view(&self) -> Seq<T> {
        self.items@
    }
}

impl<T: Lookup> IntoIter<T> {
    /// Takes the values of `entries`, in order.
    pub(crate) fn over(entries: Vec<(T::Key, T)>) -> (r: Self)
        ensures
            r@ == values_of(entries@),
    {
        IntoIter { items: take_values(entries) }
    }

    /// Takes the first element not yet taken.
    pub fn next(&mut self) -> (r: Option<T>)
        ensures
            old(self)@.len() > 0 ==> r == Some(old(self)@[0]) && final(self)@ == old(
                self,
            )@.drop_first(),
            old(self)@.len() == 0 ==> r == None::<T> && final(self)@ == old(self)@,
    {
        self.items.pop_front()
    }

    /// Takes the last element not yet taken.
    pub fn next_back(&mut self) -> (r: Option<T>)
        ensures
            old(self)@.len() > 0 ==> r == Some(old(self)@.last()) && final(self)@ == old(
                self,
            )@.drop_last(),
            old(self)@.len() == 0 ==> r == None::<T> && final(self)@ == old(self)@,
    {
        self.items.pop_back()
    }

    /// How many elements are not yet taken.
    pub fn len(&self) -> (r: usize)
        ensures
            r == self@.len(),
    {
        self.items.len()
    }
}

/// The keys of a collection, in order, by value; taken from either end.
pub struct IntoKeys<T: Lookup> {
    keys: VecDeque<T::Key>,
}

impl<T: Lookup> View for IntoKeys<T> {
    type V = Seq<T::Key>;

    /// The keys not yet taken.
    closed spec fn view(&self) -> Seq<T::Key> {
        self.keys@
    }
}

impl<T: Lookup> IntoKeys<T> {
    /// Takes the keys of `entries`, in order.
    pub(crate) fn over(entries: Vec<(T::Key, T)>) -> (r: Self)
        ensures
            r@ == keys_of(entries@),
    {
        let mut entries = entries;
        let mut keys: VecDeque<T::Key> = VecDeque::new();
        let ghost u = entries@;
        while entries.len() > 0
            invariant
                entries@ + u.subrange(entries@.len() as int, u.len() as int) == u,
                keys@ == keys_of(u.subrange(entries@.len() as int, u.len() as int)),
                entries@.len() <= u.len(),
            decreases entries@.len(),
        {
            let ghost m = entries@.len();
            match entries.pop() {
                Some(e) => {
                    keys.push_front(e.0);
                    proof {
                        assert(u.subrange(m - 1, u.len() as int) =~= seq![e] + u.subrange(
                            m as int,
                            u.len() as int,
                        ));
                        assert(keys@ =~= keys_of(u.subrange(m - 1, u.len() as int)));
                        assert(entries@ + u.subrange(m - 1, u.len() as int) =~= u);
                    }
                },
                None => {},
            }
        }
        proof {
            assert(u.subrange(0, u.len() as int) =~= u);
        }
        IntoKeys { keys }
    }

    /// Takes the first key not yet taken.
    pub fn next(&mut self) -> (r: Option<T::Key>)
        ensures
            old(self)@.len() > 0 ==> r == Some(old(self)@[0]) && final(self)@ == old(
                self,
            )@.drop_first(),
            old(self)@.len() == 0 ==> r == None::<T::Key> && final(self)@ == old(self)@,
    {
        self.keys.pop_front()
    }

    /// Takes the last key not yet taken.
    pub fn next_back(&mut self) -> (r: Option<T::Key>)
        ensures
            old(self)@.len() > 0 ==> r == Some(old(self)@.last()) && final(self)@ == old(
                self,
            )@.drop_last(),
            old(self)@.len() == 0 ==> r == None::<T::Key> && final(self)@ == old(self)@,
    {
        self.keys.pop_back()
    }

    /// How many keys are not yet taken.
    pub fn len(&self) -> (r: usize)
        ensures
            r == self@.len(),
    {
        self.keys.len()
    }
}

/// The elements taken out of a collection by `drain`, in order; taken from
/// either end. They have left the collection already, whether or not they are
/// taken from here.
pub struct Drain<T: Lookup> {
    items: VecDeque<T>,
}

impl<T: Lookup> View for Drain<T> {
    type V = Seq<T>;

    /// The elements not yet taken.
    closed spec fn view(&self) -> Seq<T> {
        self.items@
    }
}

impl<T: Lookup> Drain<T> {
    /// Takes the values of `entries`, in order.
    pub(crate) fn over(entries: Vec<(T::Key, T)>) -> (r: Self)
        ensures
            r@ == values_of(entries@),
    {
        Drain { items: take_values(entries) }
    }

    /// Takes the first element not yet taken.
    pub fn next(&mut self) -> (r: Option<T>)
        ensures
            old(self)@.len() > 0 ==> r == Some(old(self)@[0]) && final(self)@ == old(
                self,
            )@.drop_first(),
            old(self)@.len() == 0 ==> r == None::<T> && final(self)@ == old(self)@,
    {
        self.items.pop_front()
    }

    /// Takes the last element not yet taken.
    pub fn next_back(&mut self) -> (r: Option<T>)
        ensures
            old(self)@.len() > 0 ==> r == Some(old(self)@.last()) && final(self)@ == old(
                self,
            )@.drop_last(),
            old(self)@.len() == 0 ==> r == None::<T> && final(self)@ == old(self)@,
    {
        self.items.pop_back()
    }

    /// How many elements are not yet taken.
    pub fn len(&self) -> (r: usize)
        ensures
            r == self@.len(),
    {
        self.items.len()
    }
}

/// The values of `entries`, in order.
fn take_values<K, V>(entries: Vec<(K, V)>) -> (r: VecDeque<V>)
    ensures
        r@ == values_of(entries@),
{
    let mut entries = entries;
    let mut values: VecDeque<V> = VecDeque::new();
    let ghost u = entries@;
    while entries.len() > 0
        invariant
            entries@ + u.subrange(entries@.len() as int, u.len() as int) == u,
            values@ == values_of(u.subrange(entries@.len() as int, u.len() as int)),
            entries@.len() <= u.len(),
        decreases entries@.len(),
    {
        let ghost m = entries@.len();
        match entries.pop() {
            Some(e) => {
                values.push_front(e.1);
                proof {
                    assert(u.subrange(m - 1, u.len() as int) =~= seq![e] + u.subrange(
                        m as int,
                        u.len() as int,
                    ));
                    assert(values@ =~= values_of(u.subrange(m - 1, u.len() as int)));
                    assert(entries@ + u.subrange(m - 1, u.len() as int) =~= u);
                }
            },
            None => {},
        }
    }
    proof {
        assert(u.subrange(0, u.len() as int) =~= u);
    }
    values
}

} // verus!
