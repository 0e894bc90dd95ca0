//! The scalar cell: at most one value of a fixed type under one fixed key.

use vstd::prelude::*;

use crate::backend::Storage;
use crate::codec::Packed;
use crate::keys::{scalar_key, scalar_key_bytes};

verus! {

/// A scalar cell rooted at one backend key. The cell holds no state of its
/// own: reads and writes go straight through to the backend, so any caching
/// is left to the owner.
pub struct Lazy<V: Packed> {
    key: u32,
    _value: core::marker::PhantomData<V>,
}

impl<V: Packed> Lazy<V> {
    /// The root key the cell lives under.
    pub closed spec fn root(self) -> u32 {
        self.key
    }

    /// The cell's backend slot is absent or holds the encoding of a value
    /// within the codec's bounds.
    pub open spec fn cell_ok(self, store: Storage) -> bool {
        store@.contains_key(scalar_key_bytes(self.root())) ==> exists|v: V|
            v.encodable() && #[trigger] v.encoded() == store@[scalar_key_bytes(self.root())]
    }

    /// A cell over the backend slot at `key`.
    pub fn new(key: u32) -> (r: Self)
        ensures
            r.root() == key,
    {
        Lazy { key, _value: core::marker::PhantomData }
    }

    /// Reads the stored value; absent if never written.
    pub fn get(&self, store: &Storage) -> (r: Option<V>)
        requires
            store.wf(),
            self.cell_ok(*store),
        ensures
            r is None <==> !store@.contains_key(scalar_key_bytes(self.root())),
            r matches Some(w) ==> w.encoded() == store@[scalar_key_bytes(self.root())],
    {
        let k = scalar_key(self.key);
        match store.get(&k) {
            None => None,
            Some(bytes) => {
                let r = V::decode(&bytes);
                proof {
                    let v = choose|v: V|
                        v.encodable() && #[trigger] v.encoded() == store@[scalar_key_bytes(
                            self.root(),
                        )];
                    assert(v.encoded() == bytes@);
                }
                Some(r.unwrap())
            },
        }
    }

    /// Durably overwrites the stored value.
    pub fn set(&self, store: &mut Storage, value: &V)
        requires
            old(store).wf(),
            value.encodable(),
        ensures
            final(store).wf(),
            final(store)@ == old(store)@.insert(scalar_key_bytes(self.root()), value.encoded()),
    {
        let k = scalar_key(self.key);
        let bytes = value.encode();
        store.set(&k, bytes);
    }
}

} // verus!
