//! The collection as a plain sequence of elements, and back.
//!
//! The sequence carries no keys: each is derived again from its element. Unlike
//! `push`, reading a sequence back rejects a key that occurs twice.
use vstd::laws_eq::obeys_concrete_eq;
use vstd::prelude::*;

use crate::entries::entries_of;
use crate::entries::has_key;
use crate::entries::unique_keys;
use crate::entries::values_of;
use crate::lookup::Lookup;
use crate::vec::LookupVec;
use crate::vec::reversed;

verus! {

/// Two elements of a sequence derive the same key; `key` is that key.
#[derive(Clone, Debug)]
pub struct DuplicateKey<K> {
    pub key: K,
}

/// Position `j` of `items` is the first whose key repeats the key of an
/// earlier element.
pub open spec fn first_repeat<T: Lookup>(items: Seq<T>, j: int) -> bool {
    &&& 0 <= j < items.len()
    &&& unique_keys(entries_of(items.subrange(0, j)))
    &&& has_key(entries_of(items.subrange(0, j)), items[j].spec_key())
}

impl<T: Lookup> LookupVec<T> {
    /// The elements, in order; the keys are left behind.
    pub fn into_vec(self) -> (r: Vec<T>)
        ensures
            r@ == values_of(self@),
    {
        let mut rest = self.into_iter();
        let ghost u = rest@;
        let mut out: Vec<T> = Vec::new();
        while rest.len() > 0
            invariant
                out@ + rest@ == u,
            decreases rest@.len(),
        {
            match rest.next() {
                Some(v) => {
                    out.push(v);
                    proof {
                        assert(out@ + rest@ =~= u);
                    }
                },
                None => {},
            }
        }
        proof {
            assert(out@ =~= u);
        }
        out
    }

    /// Builds a collection from `items` in order, each under the key that it
    /// derives. Fails on the first element whose key an earlier one has
    /// already taken, and names that key.
    pub fn decode(items: Vec<T>) -> (r: Result<Self, DuplicateKey<T::Key>>)
        requires
            obeys_concrete_eq::<T::Key>(),
        ensures
            r.is_ok() <==> unique_keys(entries_of(items@)),
            r matches Ok(v) ==> v.wf() && v.keyed() && v@ == entries_of(items@),
            r matches Err(e) ==> exists|j: int|
                first_repeat(items@, j) && e.key == #[trigger] items@[j].spec_key(),
    {
        let ghost u = items@;
        let ghost n = u.len();
        let mut backwards = reversed(items);
        let mut out = LookupVec::<T>::with_capacity(backwards.len());
        proof {
            assert(u.subrange(0, 0) =~= Seq::<T>::empty());
            assert(entries_of(u.subrange(0, 0)) =~= Seq::<(T::Key, T)>::empty());
        }
        while backwards.len() > 0
            invariant
                out.wf(),
                out.keyed(),
                u == items@,
                n == u.len(),
                backwards@.len() <= n,
                backwards@ == u.subrange(n - backwards@.len(), n as int).reverse(),
                out@ == entries_of(u.subrange(0, n - backwards@.len())),
            decreases backwards@.len(),
        {
            let ghost m = backwards@.len();
            let ghost i = n - m;
            match backwards.pop() {
                Some(v) => {
                    proof {
                        assert(v == u[i]);
                    }
                    let k = v.key();
                    if out.contains_key(&k) {
                        proof {
                            assert(first_repeat(u, i));
                            let c = choose|c: int| 0 <= c < out@.len() && out@[c].0 == k;
                            let w = entries_of(u);
                            assert(w[c] == out@[c]);
                            assert(w[i].0 == k);
                            assert(c != i && w[c].0 == w[i].0);
                            assert(!unique_keys(w));
                            assert(k == u[i].spec_key());
                        }
                        return Err(DuplicateKey { key: k });
                    }
                    out.push_full(v);
                    proof {
                        assert(out@ =~= entries_of(u.subrange(0, i + 1)));
                        assert(backwards@ =~= u.subrange(i + 1, n as int).reverse());
                    }
                },
                None => {},
            }
        }
        proof {
            assert(u.subrange(0, n as int) =~= u);
        }
        Ok(out)
    }
}

} // verus!
