//! The indexed collection: a numeric index mapped to a value under a
//! derived key.
//!
//! The collection holds no state of its own. The value for index `N` under
//! root key `K` lives in the backend under the deterministic encoding of
//! the pair `(K, N)`, so a freshly constructed collection with the same
//! root reattaches to previously written values.

use vstd::prelude::*;

use crate::backend::Storage;
use crate::codec::Packed;
use crate::keys::{element_key, element_key_bytes};

verus! {

/// An indexed collection rooted at one backend key.
pub struct Mapping<V: Packed> {
    root: u32,
    _value: core::marker::PhantomData<V>,
}

impl<V: Packed> Mapping<V> {
    /// The root key the collection's slots are derived from.
    pub closed spec fn root(self) -> u32 {
        self.root
    }

    /// Slot `index` is absent or holds the encoding of a value within the
    /// codec's bounds.
    pub open spec fn slot_ok(self, store: Storage, index: u32) -> bool {
        store@.contains_key(element_key_bytes(self.root(), index)) ==> exists|v: V|
            v.encodable() && #[trigger] v.encoded() == store@[element_key_bytes(
                self.root(),
                index,
            )]
    }

    /// A collection whose slots are derived from `root`.
    pub fn new(root: u32) -> (r: Self)
        ensures
            r.root() == root,
    {
        Mapping { root, _value: core::marker::PhantomData }
    }

    /// Reads the value at `index`, if any. A slot holding the encoding of
    /// a value within bounds reads back as that value, at view level.
    pub fn get(&self, store: &Storage, index: u32) -> (r: Option<V>)
        requires
            store.wf(),
            self.slot_ok(*store, index),
        ensures
            r is None <==> !store@.contains_key(element_key_bytes(self.root(), index)),
            r matches Some(w) ==> w.encoded() == store@[element_key_bytes(self.root(), index)],
            forall|v: V|
                store@.contains_key(element_key_bytes(self.root(), index)) && v.encodable()
                    && #[trigger] v.encoded() == store@[element_key_bytes(self.root(), index)]
                    ==> (r matches Some(w) && w@ == v@),
    {
        let k = element_key(self.root, index);
        match store.get(&k) {
            None => None,
            Some(bytes) => {
                let r = V::decode(&bytes);
                proof {
                    let v = choose|v: V|
                        v.encodable() && #[trigger] v.encoded() == store@[element_key_bytes(
                            self.root(),
                            index,
                        )];
                    assert(v.encoded() == bytes@);
                }
                Some(r.unwrap())
            },
        }
    }

    /// Writes `value` at `index`, returning the previous value if any.
    pub fn insert(&self, store: &mut Storage, index: u32, value: &V) -> (prev: Option<V>)
        requires
            old(store).wf(),
            self.slot_ok(*old(store), index),
            value.encodable(),
        ensures
            final(store).wf(),
            final(store)@ == old(store)@.insert(
                element_key_bytes(self.root(), index),
                value.encoded(),
            ),
            prev is None <==> !old(store)@.contains_key(element_key_bytes(self.root(), index)),
            prev matches Some(w) ==> w.encoded() == old(store)@[element_key_bytes(
                self.root(),
                index,
            )],
    {
        let prev = self.get(store, index);
        let k = element_key(self.root, index);
        let bytes = value.encode();
        store.set(&k, bytes);
        prev
    }

    /// Removes the value at `index` and returns it, if any. A slot holding
    /// the encoding of a value within bounds comes back as that value, at
    /// view level.
    pub fn take(&self, store: &mut Storage, index: u32) -> (r: Option<V>)
        requires
            old(store).wf(),
            self.slot_ok(*old(store), index),
        ensures
            final(store).wf(),
            final(store)@ == old(store)@.remove(element_key_bytes(self.root(), index)),
            r is None <==> !old(store)@.contains_key(element_key_bytes(self.root(), index)),
            r matches Some(w) ==> w.encoded() == old(store)@[element_key_bytes(
                self.root(),
                index,
            )],
            forall|v: V|
                old(store)@.contains_key(element_key_bytes(self.root(), index)) && v.encodable()
                    && #[trigger] v.encoded() == old(store)@[element_key_bytes(self.root(), index)]
                    ==> (r matches Some(w) && w@ == v@),
    {
        let k = element_key(self.root, index);
        match store.remove(&k) {
            None => None,
            Some(bytes) => {
                let r = V::decode(&bytes);
                proof {
                    let v = choose|v: V|
                        v.encodable() && #[trigger] v.encoded() == old(store)@[element_key_bytes(
                            self.root(),
                            index,
                        )];
                    assert(v.encoded() == bytes@);
                }
                Some(r.unwrap())
            },
        }
    }
}

} // verus!
