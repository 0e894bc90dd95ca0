//! The index-addressed lazy vector.
//!
//! A [`StorageVec`] composes one scalar cell, holding the current length,
//! with one indexed collection, holding the elements, under a single root
//! key. Every operation touches at most one element slot plus the length
//! cell, so single-element cost does not depend on how long the vector is.
//!
//! The handle itself holds only the root key and an optional length cache;
//! all durable state lives in the [`Storage`] passed to each operation.
//! Two handles constructed over the same root key alias the same logical
//! vector.

use vstd::prelude::*;

use crate::backend::Storage;
use crate::codec::Packed;
use crate::keys::{
    element_key_bytes, le_bytes_u32, lemma_element_key_injective, lemma_element_key_ne_scalar_key,
    lemma_le_bytes_u32_roundtrip, lemma_u32_le_roundtrip, scalar_key_bytes, u32_le_bytes,
};
use crate::lazy::Lazy;
use crate::mapping::Mapping;

verus! {

/// Why a vector operation was refused. A refusal leaves the vector and the
/// backend exactly as they were: no partial effect is ever committed.
#[derive(Clone, Copy, Debug, PartialEq, Eq)]
pub enum Error {
    /// `push` on a vector already holding the maximum of `u32::MAX` elements.
    CapacityExceeded,
    /// `set` at an index not below the current length; `set` never grows
    /// the vector.
    IndexOutOfBounds,
}

/// A vector of values stored element by element on the backend, under one
/// root key. The length lives in a scalar cell directly at the root key;
/// element `N` lives in the collection slot derived from `(root, N)`.
pub struct StorageVec<V: Packed> {
    len: Lazy<u32>,
    len_cached: Option<u32>,
    elements: Mapping<V>,
}

impl<V: Packed> StorageVec<V> {
    /// The root key namespacing this vector's backend region.
    pub closed spec fn root(self) -> u32 {
        self.elements.root()
    }

    /// The in-memory length cache.
    pub closed spec fn cached(self) -> Option<u32> {
        self.len_cached
    }

    /// The handle's two collaborators share the one root key.
    pub closed spec fn well_formed(self) -> bool {
        self.len.root() == self.elements.root()
    }

    /// The length durably recorded for `root`, an absent cell reading as
    /// zero.
    pub open spec fn stored_len_of(store: Storage, root: u32) -> u32 {
        if store@.contains_key(scalar_key_bytes(root)) && store@[scalar_key_bytes(root)].len()
            == 4 {
            le_bytes_u32(store@[scalar_key_bytes(root)])
        } else {
            0
        }
    }

    /// The number of elements: the cache when present, else the stored
    /// length.
    pub open spec fn spec_len(self, store: Storage) -> u32 {
        match self.cached() {
            Some(n) => n,
            None => Self::stored_len_of(store, self.root()),
        }
    }

    /// The vector's contents: the payload bytes sitting in the element
    /// slots below the length boundary.
    pub open spec fn elems(self, store: Storage) -> Seq<Seq<u8>> {
        Seq::new(
            self.spec_len(store) as nat,
            |i: int| store@[element_key_bytes(self.root(), i as u32)],
        )
    }

    /// The invariant tying a handle to the backend: the cache, when
    /// present, equals the last length durably committed; every slot below
    /// the length boundary holds the encoding of a value within the
    /// codec's bounds; no slot at or above the boundary is occupied.
    pub open spec fn inv(self, store: Storage) -> bool {
        &&& store.wf()
        &&& self.well_formed()
        &&& (store@.contains_key(scalar_key_bytes(self.root())) ==> store@[scalar_key_bytes(
            self.root(),
        )].len() == 4)
        &&& (match self.cached() {
            Some(n) => store@.contains_key(scalar_key_bytes(self.root()))
                && store@[scalar_key_bytes(self.root())] == u32_le_bytes(n),
            None => true,
        })
        &&& (forall|i: u32|
            #![trigger element_key_bytes(self.root(), i)]
            i < self.spec_len(store) ==> store@.contains_key(element_key_bytes(self.root(), i))
                && (exists|v: V|
                    v.encodable() && #[trigger] v.encoded() == store@[element_key_bytes(
                        self.root(),
                        i,
                    )]))
        &&& (forall|i: u32|
            #![trigger element_key_bytes(self.root(), i)]
            i >= self.spec_len(store) ==> !store@.contains_key(element_key_bytes(self.root(), i)))
    }

    /// A new handle rooted at `root_key`. Construction does not touch the
    /// backend; the handle lazily discovers any previously committed length
    /// on first read.
    pub fn new(root_key: u32) -> (r: Self)
        ensures
            r.root() == root_key,
            r.cached() is None,
            r.well_formed(),
    {
        StorageVec { len: Lazy::new(root_key), len_cached: None, elements: Mapping::new(root_key) }
    }

    /// The number of elements in the vector. Returns the cached length if
    /// set; otherwise reads the scalar cell, an absent cell reading as
    /// zero. Never writes the backend.
    pub fn len(&self, store: &Storage) -> (r: u32)
        requires
            self.inv(*store),
        ensures
            r == self.spec_len(*store),
    {
        match self.len_cached {
            Some(n) => n,
            None => {
                proof {
                    if store@.contains_key(scalar_key_bytes(self.root())) {
                        let b = store@[scalar_key_bytes(self.root())];
                        lemma_le_bytes_u32_roundtrip(b);
                        let w: u32 = le_bytes_u32(b);
                        assert(w.encodable() && w.encoded() == b);
                    }
                }
                match self.len.get(store) {
                    Some(n) => {
                        proof {
                            lemma_u32_le_roundtrip(n);
                        }
                        n
                    },
                    None => 0,
                }
            },
        }
    }

    /// Whether the vector contains no elements.
    pub fn is_empty(&self, store: &Storage) -> (r: bool)
        requires
            self.inv(*store),
        ensures
            r == (self.spec_len(*store) == 0),
    {
        self.len(store) == 0
    }

    /// The single choke point through which every length mutation passes:
    /// writes the new length through the scalar cell and unconditionally
    /// updates the cache, so cache and backend agree after every mutating
    /// call.
    fn set_len(&mut self, store: &mut Storage, new_len: u32)
        requires
            old(self).inv(*old(store)),
        ensures
            final(self).well_formed(),
            final(self).root() == old(self).root(),
            final(self).cached() == Some(new_len),
            final(self).len == old(self).len,
            final(self).elements == old(self).elements,
            final(store).wf(),
            final(store)@ == old(store)@.insert(
                scalar_key_bytes(old(self).root()),
                u32_le_bytes(new_len),
            ),
    {
        self.len.set(store, &new_len);
        self.len_cached = Some(new_len);
    }

    /// Appends `value` at the back of the vector, at the index the current
    /// length names. Refused, with nothing changed, exactly when the
    /// vector is at capacity.
    pub fn push(&mut self, store: &mut Storage, value: &V) -> (r: Result<(), Error>)
        requires
            old(self).inv(*old(store)),
            value.encodable(),
        ensures
            final(self).inv(*final(store)),
            final(self).root() == old(self).root(),
            ({
                let l = old(self).spec_len(*old(store));
                match r {
                    Ok(()) => {
                        &&& l < u32::MAX
                        &&& final(self).spec_len(*final(store)) == l + 1
                        &&& final(self).elems(*final(store)) == old(self).elems(
                            *old(store),
                        ).push(value.encoded())
                        &&& final(store)@ == old(store)@.insert(
                            scalar_key_bytes(old(self).root()),
                            u32_le_bytes((l + 1) as u32),
                        ).insert(element_key_bytes(old(self).root(), l), value.encoded())
                    },
                    Err(e) => {
                        &&& e == Error::CapacityExceeded
                        &&& l == u32::MAX
                        &&& *final(self) == *old(self)
                        &&& *final(store) == *old(store)
                    },
                }
            }),
    {
        let slot = self.len(store);
        if slot == u32::MAX {
            return Err(Error::CapacityExceeded);
        }
        let ghost prev_self = *self;
        let ghost prev_store = *store;
        let new_len = slot + 1;
        self.set_len(store, new_len);
        proof {
            let root = prev_self.root();
            lemma_root_keys_distinct(root, slot);
            assert(!prev_store@.contains_key(element_key_bytes(root, slot)));
        }
        let prev = self.elements.insert(store, slot, value);
        proof {
            // The slot the length names was free: the length/slot invariant
            // held, so this insert cannot have displaced a value.
            assert(prev is None);
            let root = prev_self.root();
            assert forall|i: u32|
                #![trigger element_key_bytes(root, i)]
                i < new_len implies store@.contains_key(element_key_bytes(root, i)) && (exists|
                v: V,
            |
                v.encodable() && #[trigger] v.encoded() == store@[element_key_bytes(
                    root,
                    i,
                )]) by {
                if i < slot {
                    let v = choose|v: V|
                        v.encodable() && #[trigger] v.encoded() == prev_store@[element_key_bytes(
                            root,
                            i,
                        )];
                    assert(v.encoded() == store@[element_key_bytes(root, i)]);
                } else {
                    assert(i == slot);
                    assert(value.encodable() && value.encoded() == store@[element_key_bytes(
                        root,
                        i,
                    )]);
                }
            }
            assert forall|i: u32|
                #![trigger element_key_bytes(root, i)]
                i >= new_len implies !store@.contains_key(element_key_bytes(root, i)) by {}
            assert(self.inv(*store));
            assert(self.elems(*store) =~= prev_self.elems(prev_store).push(value.encoded()));
        }
        Ok(())
    }

    /// Removes and returns the last element, or reports emptiness with
    /// nothing changed. Emptiness is not an error.
    pub fn pop(&mut self, store: &mut Storage) -> (r: Option<V>)
        requires
            old(self).inv(*old(store)),
        ensures
            final(self).inv(*final(store)),
            final(self).root() == old(self).root(),
            ({
                let l = old(self).spec_len(*old(store));
                if l == 0 {
                    &&& r is None
                    &&& *final(self) == *old(self)
                    &&& *final(store) == *old(store)
                } else {
                    &&& final(self).spec_len(*final(store)) == l - 1
                    &&& (r matches Some(w) && w.encoded() == old(self).elems(*old(store)).last())
                    &&& final(self).elems(*final(store)) == old(self).elems(*old(store)).drop_last()
                    &&& final(store)@ == old(store)@.insert(
                        scalar_key_bytes(old(self).root()),
                        u32_le_bytes((l - 1) as u32),
                    ).remove(element_key_bytes(old(self).root(), (l - 1) as u32))
                }
            }),
            old(self).spec_len(*old(store)) > 0 ==> (forall|v: V|
                v.encodable() && #[trigger] v.encoded() == old(self).elems(*old(store)).last()
                    ==> (r matches Some(w) && w@ == v@)),
    {
        let l = self.len(store);
        if l == 0 {
            return None;
        }
        let slot = l - 1;
        let ghost prev_self = *self;
        let ghost prev_store = *store;
        self.set_len(store, slot);
        proof {
            let root = prev_self.root();
            lemma_root_keys_distinct(root, slot);
            assert(store@.contains_key(element_key_bytes(root, slot)));
            let v = choose|v: V|
                v.encodable() && #[trigger] v.encoded() == prev_store@[element_key_bytes(
                    root,
                    slot,
                )];
            assert(v.encoded() == store@[element_key_bytes(root, slot)]);
        }
        let ghost mid_store = *store;
        let r = self.elements.take(store, slot);
        proof {
            let root = prev_self.root();
            assert forall|i: u32|
                #![trigger element_key_bytes(root, i)]
                i < slot implies store@.contains_key(element_key_bytes(root, i)) && (exists|v: V|
                v.encodable() && #[trigger] v.encoded() == store@[element_key_bytes(
                    root,
                    i,
                )]) by {
                let v = choose|v: V|
                    v.encodable() && #[trigger] v.encoded() == prev_store@[element_key_bytes(
                        root,
                        i,
                    )];
                assert(v.encoded() == store@[element_key_bytes(root, i)]);
            }
            assert forall|i: u32|
                #![trigger element_key_bytes(root, i)]
                i >= slot implies !store@.contains_key(element_key_bytes(root, i)) by {}
            assert(self.inv(*store));
            assert(r is Some);
            assert(prev_self.elems(prev_store).len() == l);
            assert(self.elems(*store) =~= prev_self.elems(prev_store).drop_last());
            assert(prev_self.elems(prev_store).last() == prev_store@[element_key_bytes(
                root,
                slot,
            )]);
            assert(mid_store@[element_key_bytes(root, slot)] == prev_store@[element_key_bytes(
                root,
                slot,
            )]);
            assert(mid_store@.contains_key(element_key_bytes(root, slot)));
        }
        Some(r.unwrap())
    }

    /// Reads the element at `index`: a direct passthrough to the indexed
    /// collection's lookup. Absent exactly when `index` is not below the
    /// length.
    pub fn get(&self, store: &Storage, index: u32) -> (r: Option<V>)
        requires
            self.inv(*store),
        ensures
            index < self.spec_len(*store) ==> (r matches Some(w) && w.encoded() == self.elems(
                *store,
            )[index as int]),
            index >= self.spec_len(*store) ==> r is None,
            forall|v: V|
                index < self.spec_len(*store) && v.encodable() && #[trigger] v.encoded()
                    == self.elems(*store)[index as int] ==> (r matches Some(w) && w@ == v@),
    {
        proof {
            assert(self.elements.slot_ok(*store, index));
        }
        let r = self.elements.get(store, index);
        proof {
            if index < self.spec_len(*store) {
                assert(self.elems(*store)[index as int] == store@[element_key_bytes(
                    self.root(),
                    index,
                )]);
            }
        }
        r
    }

    /// Overwrites the element at `index` without changing the length.
    /// Refused, with nothing changed, exactly when `index` is not below
    /// the current length: only `push` grows the vector.
    pub fn set(&mut self, store: &mut Storage, index: u32, value: &V) -> (r: Result<(), Error>)
        requires
            old(self).inv(*old(store)),
            value.encodable(),
        ensures
            final(self).inv(*final(store)),
            *final(self) == *old(self),
            ({
                let l = old(self).spec_len(*old(store));
                if index < l {
                    &&& r == Ok::<(), Error>(())
                    &&& final(self).spec_len(*final(store)) == l
                    &&& final(self).elems(*final(store)) == old(self).elems(*old(store)).update(
                        index as int,
                        value.encoded(),
                    )
                    &&& final(store)@ == old(store)@.insert(
                        element_key_bytes(old(self).root(), index),
                        value.encoded(),
                    )
                } else {
                    &&& r == Err::<(), Error>(Error::IndexOutOfBounds)
                    &&& *final(store) == *old(store)
                }
            }),
    {
        let l = self.len(store);
        if index >= l {
            return Err(Error::IndexOutOfBounds);
        }
        let ghost prev_store = *store;
        proof {
            assert(self.elements.slot_ok(*store, index));
        }
        let _ = self.elements.insert(store, index, value);
        proof {
            let root = self.root();
            lemma_root_keys_distinct(root, index);
            assert(self.spec_len(*store) == self.spec_len(prev_store));
            assert forall|i: u32|
                #![trigger element_key_bytes(root, i)]
                i < l implies store@.contains_key(element_key_bytes(root, i)) && (exists|v: V|
                v.encodable() && #[trigger] v.encoded() == store@[element_key_bytes(
                    root,
                    i,
                )]) by {
                if i != index {
                    let v = choose|v: V|
                        v.encodable() && #[trigger] v.encoded() == prev_store@[element_key_bytes(
                            root,
                            i,
                        )];
                    assert(v.encoded() == store@[element_key_bytes(root, i)]);
                } else {
                    assert(value.encodable() && value.encoded() == store@[element_key_bytes(
                        root,
                        i,
                    )]);
                }
            }
            assert forall|i: u32|
                #![trigger element_key_bytes(root, i)]
                i >= l implies !store@.contains_key(element_key_bytes(root, i)) by {}
            assert(self.inv(*store));
            assert(self.elems(*store) =~= old(self).elems(prev_store).update(
                index as int,
                value.encoded(),
            ));
        }
        Ok(())
    }
}

/// The backend keys a mutation at one slot of `root` leaves alone: no
/// element key is the scalar cell's, and distinct indices derive distinct
/// element keys.
proof fn lemma_root_keys_distinct(root: u32, slot: u32)
    ensures
        forall|i: u32| #[trigger] element_key_bytes(root, i) != scalar_key_bytes(root),
        forall|i: u32|
            i != slot ==> #[trigger] element_key_bytes(root, i) != element_key_bytes(root, slot),
{
    assert forall|i: u32| #[trigger] element_key_bytes(root, i) != scalar_key_bytes(root) by {
        lemma_element_key_ne_scalar_key(root, root, i);
    }
    assert forall|i: u32| i != slot implies #[trigger] element_key_bytes(root, i)
        != element_key_bytes(root, slot) by {
        if element_key_bytes(root, i) == element_key_bytes(root, slot) {
            lemma_element_key_injective(root, i, slot);
        }
    }
}

/// One abstract mutation of the vector's contents, for stating laws over
/// interleavings of operations.
pub enum VecOp {
    Push(Seq<u8>),
    Pop,
}

/// What `push` does to the contents.
pub open spec fn model_push(s: Seq<Seq<u8>>, b: Seq<u8>) -> Seq<Seq<u8>> {
    s.push(b)
}

/// What `pop` does to the contents, and what it returns.
pub open spec fn model_pop(s: Seq<Seq<u8>>) -> (Seq<Seq<u8>>, Option<Seq<u8>>) {
    if s.len() == 0 {
        (s, None)
    } else {
        (s.drop_last(), Some(s.last()))
    }
}

/// Popping `n` times over: the contents left, and the outputs in pop
/// order.
pub open spec fn model_pop_n(s: Seq<Seq<u8>>, n: nat) -> (Seq<Seq<u8>>, Seq<Seq<u8>>)
    decreases n,
{
    if n == 0 {
        (s, Seq::empty())
    } else {
        let popped = model_pop(s);
        let first: Seq<Seq<u8>> = match popped.1 {
            Some(b) => seq![b],
            None => Seq::empty(),
        };
        let rest = model_pop_n(popped.0, (n - 1) as nat);
        (rest.0, first + rest.1)
    }
}

/// Push/pop is a stack law: pushing values in order and then popping as
/// many times yields them back newest-first and restores the prior
/// contents. Over empty prior contents, the vector ends empty, so one
/// further pop returns nothing.
pub proof fn lemma_push_then_pop_all(s: Seq<Seq<u8>>, vs: Seq<Seq<u8>>)
    ensures
        model_pop_n(s + vs, vs.len()) == (s, vs.reverse()),
    decreases vs.len(),
{
    if vs.len() == 0 {
        assert(s + vs =~= s);
        assert(vs.reverse() =~= Seq::<Seq<u8>>::empty());
    } else {
        let t = s + vs;
        assert(t.len() > 0);
        assert(t.last() == vs.last());
        assert(t.drop_last() =~= s + vs.drop_last());
        lemma_push_then_pop_all(s, vs.drop_last());
        assert(vs.reverse() =~= seq![vs.last()] + vs.drop_last().reverse());
    }
}

/// Running a sequence of operations over the contents.
pub open spec fn model_run(s: Seq<Seq<u8>>, ops: Seq<VecOp>) -> Seq<Seq<u8>>
    decreases ops.len(),
{
    if ops.len() == 0 {
        s
    } else {
        let s1 = match ops.first() {
            VecOp::Push(b) => model_push(s, b),
            VecOp::Pop => model_pop(s).0,
        };
        model_run(s1, ops.drop_first())
    }
}

/// The number of pushes among `ops`.
pub open spec fn model_push_count(ops: Seq<VecOp>) -> int
    decreases ops.len(),
{
    if ops.len() == 0 {
        0
    } else {
        (match ops.first() {
            VecOp::Push(_) => 1int,
            VecOp::Pop => 0int,
        }) + model_push_count(ops.drop_first())
    }
}

/// The number of successful pops when `ops` runs over contents `s`: a pop
/// of an empty vector removes nothing.
pub open spec fn model_successful_pop_count(s: Seq<Seq<u8>>, ops: Seq<VecOp>) -> int
    decreases ops.len(),
{
    if ops.len() == 0 {
        0
    } else {
        match ops.first() {
            VecOp::Push(b) => model_successful_pop_count(model_push(s, b), ops.drop_first()),
            VecOp::Pop => (if s.len() > 0 {
                1int
            } else {
                0int
            }) + model_successful_pop_count(model_pop(s).0, ops.drop_first()),
        }
    }
}

/// Length tracks net pushes and pops: after any interleaving of pushes
/// and pops, the length equals the starting length plus the number of
/// pushes minus the number of successful pops.
pub proof fn lemma_length_tracks_net_change(s: Seq<Seq<u8>>, ops: Seq<VecOp>)
    ensures
        model_run(s, ops).len() == s.len() + model_push_count(ops) - model_successful_pop_count(
            s,
            ops,
        ),
    decreases ops.len(),
{
    if ops.len() == 0 {
    } else {
        match ops.first() {
            VecOp::Push(b) => {
                lemma_length_tracks_net_change(model_push(s, b), ops.drop_first());
            },
            VecOp::Pop => {
                lemma_length_tracks_net_change(model_pop(s).0, ops.drop_first());
            },
        }
    }
}

/// Get/set round-trip at the model: a push leaves its payload at the old
/// length's index, one longer; an overwrite at an in-bounds index leaves
/// its payload there and the length unchanged.
pub proof fn lemma_get_set_round_trip(s: Seq<Seq<u8>>, b: Seq<u8>, i: int)
    ensures
        model_push(s, b)[s.len() as int] == b,
        model_push(s, b).len() == s.len() + 1,
        0 <= i < s.len() ==> s.update(i, b)[i] == b && s.update(i, b).len() == s.len(),
{
}

/// Cross-handle aliasing: two handles sharing a root key and holding no
/// cache read the same length and the same contents from the backend.
/// With `pop`'s contract this makes the handles one logical vector: a pop
/// through either returns, at view level, the value whose encoding the
/// other last pushed.
pub proof fn lemma_shared_root_aliases<V: Packed>(
    a: StorageVec<V>,
    b: StorageVec<V>,
    store: Storage,
)
    requires
        a.root() == b.root(),
        a.cached() is None,
        b.cached() is None,
    ensures
        a.spec_len(store) == b.spec_len(store),
        a.elems(store) == b.elems(store),
{
    assert(a.elems(store) =~= b.elems(store));
}

/// Empty by default: with nothing durably recorded under its root key, a
/// handle holding no cache reads as empty.
pub proof fn lemma_fresh_vector_empty<V: Packed>(v: StorageVec<V>, store: Storage)
    requires
        v.cached() is None,
        !store@.contains_key(scalar_key_bytes(v.root())),
    ensures
        v.spec_len(store) == 0,
        v.elems(store) == Seq::<Seq<u8>>::empty(),
{
    assert(v.elems(store) =~= Seq::<Seq<u8>>::empty());
}

} // verus!
