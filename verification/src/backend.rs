//! The key-value backend: a durable mapping from an opaque byte key to a
//! byte payload.
//!
//! One [`Storage`] value stands for the whole backend key space of one
//! logical transaction; every vector handle in scope reads and writes
//! through the same `Storage`, so handles sharing a root key alias the same
//! state. The view of a `Storage` is the mathematical map from key bytes to
//! payload bytes.

use vstd::prelude::*;

verus! {

/// The backend store. Internally an association list whose keys are kept
/// pairwise distinct; its view is the map the entries spell out.
pub struct Storage {
    entries: Vec<(Vec<u8>, Vec<u8>)>,
}

/// Compares two byte strings.
fn bytes_eq(a: &Vec<u8>, b: &Vec<u8>) -> (r: bool)
    ensures
        r == (a@ == b@),
{
    if a.len() != b.len() {
        return false;
    }
    let mut i: usize = 0;
    while i < a.len()
        invariant
            i <= a@.len(),
            a@.len() == b@.len(),
            forall|j: int| 0 <= j < i ==> a@[j] == b@[j],
        decreases a@.len() - i,
    {
        if a[i] != b[i] {
            return false;
        }
        i = i + 1;
    }
    proof {
        assert(a@ =~= b@);
    }
    true
}

/// Copies a byte string.
fn copy_bytes(src: &Vec<u8>) -> (r: Vec<u8>)
    ensures
        r@ == src@,
{
    let mut r: Vec<u8> = Vec::new();
    let mut i: usize = 0;
    while i < src.len()
        invariant
            i <= src@.len(),
            r@ == src@.subrange(0, i as int),
        decreases src@.len() - i,
    {
        r.push(src[i]);
        i = i + 1;
        proof {
            assert(r@ =~= src@.subrange(0, i as int));
        }
    }
    proof {
        assert(r@ =~= src@);
    }
    r
}

impl View for Storage {
    type V = Map<Seq<u8>, Seq<u8>>;

    closed spec fn view(&self) -> Map<Seq<u8>, Seq<u8>> {
        Map::new(
            |k: Seq<u8>|
                exists|i: int|
                    #![trigger self.entries@[i]]
                    0 <= i < self.entries@.len() && self.entries@[i].0@ == k,
            |k: Seq<u8>|
                {
                    let i = choose|i: int|
                        #![trigger self.entries@[i]]
                        0 <= i < self.entries@.len() && self.entries@[i].0@ == k;
                    self.entries@[i].1@
                },
        )
    }
}

impl Storage {
    /// The entries hold pairwise-distinct keys, so each key identifies at
    /// most one entry.
    pub closed spec fn wf(self) -> bool {
        forall|i: int, j: int|
            #![trigger self.entries@[i], self.entries@[j]]
            0 <= i < j < self.entries@.len() ==> self.entries@[i].0@ != self.entries@[j].0@
    }

    proof fn lemma_entry_in_view(self, i: int)
        requires
            self.wf(),
            0 <= i < self.entries@.len(),
        ensures
            self@.contains_key(self.entries@[i].0@),
            self@[self.entries@[i].0@] == self.entries@[i].1@,
    {
        let k = self.entries@[i].0@;
        assert(0 <= i < self.entries@.len() && self.entries@[i].0@ == k);
        let j = choose|j: int|
            #![trigger self.entries@[j]]
            0 <= j < self.entries@.len() && self.entries@[j].0@ == k;
        assert(j == i);
    }

    proof fn lemma_absent_in_view(self, k: Seq<u8>)
        requires
            forall|i: int|
                #![trigger self.entries@[i]]
                0 <= i < self.entries@.len() ==> self.entries@[i].0@ != k,
        ensures
            !self@.contains_key(k),
    {
    }

    /// A backend with nothing written yet.
    pub fn new() -> (r: Storage)
        ensures
            r.wf(),
            r@ == Map::<Seq<u8>, Seq<u8>>::empty(),
    {
        let r = Storage { entries: Vec::new() };
        proof {
            assert(r@ =~= Map::<Seq<u8>, Seq<u8>>::empty());
        }
        r
    }

    fn find(&self, key: &Vec<u8>) -> (r: Option<usize>)
        ensures
            match r {
                Some(i) => i < self.entries@.len() && self.entries@[i as int].0@ == key@,
                None => forall|j: int|
                    #![trigger self.entries@[j]]
                    0 <= j < self.entries@.len() ==> self.entries@[j].0@ != key@,
            },
    {
        let mut i: usize = 0;
        while i < self.entries.len()
            invariant
                i <= self.entries@.len(),
                forall|j: int|
                    #![trigger self.entries@[j]]
                    0 <= j < i ==> self.entries@[j].0@ != key@,
            decreases self.entries@.len() - i,
        {
            if bytes_eq(&self.entries[i].0, key) {
                return Some(i);
            }
            i = i + 1;
        }
        None
    }

    /// Reads the payload stored under `key`, if any.
    pub fn get(&self, key: &Vec<u8>) -> (r: Option<Vec<u8>>)
        requires
            self.wf(),
        ensures
            match r {
                Some(v) => self@.contains_key(key@) && v@ == self@[key@],
                None => !self@.contains_key(key@),
            },
    {
        match self.find(key) {
            Some(i) => {
                proof {
                    self.lemma_entry_in_view(i as int);
                }
                Some(copy_bytes(&self.entries[i].1))
            },
            None => {
                proof {
                    self.lemma_absent_in_view(key@);
                }
                None
            },
        }
    }

    /// Durably overwrites the payload under `key`.
    pub fn set(&mut self, key: &Vec<u8>, value: Vec<u8>)
        requires
            old(self).wf(),
        ensures
            final(self).wf(),
            final(self)@ == old(self)@.insert(key@, value@),
    {
        let _ = self.remove(key);
        let ghost mid = *self;
        proof {
            assert forall|i: int|
                #![trigger self.entries@[i]]
                0 <= i < self.entries@.len() implies self.entries@[i].0@ != key@ by {
                if self.entries@[i].0@ == key@ {
                    self.lemma_entry_in_view(i);
                }
            }
        }
        let k = copy_bytes(key);
        self.entries.push((k, value));
        proof {
            let n = mid.entries@.len() as int;
            assert(self.entries@ =~= mid.entries@.push((k, value)));
            assert(self.wf());
            assert forall|kk: Seq<u8>| #[trigger]
                self@.contains_key(kk) == mid@.insert(key@, value@).contains_key(kk)
                && (self@.contains_key(kk) ==> self@[kk] == mid@.insert(key@, value@)[kk]) by {
                if kk == key@ {
                    self.lemma_entry_in_view(n);
                } else {
                    if mid@.contains_key(kk) {
                        let i = choose|i: int|
                            #![trigger mid.entries@[i]]
                            0 <= i < n && mid.entries@[i].0@ == kk;
                        mid.lemma_entry_in_view(i);
                        self.lemma_entry_in_view(i);
                    } else {
                        assert forall|i: int|
                            #![trigger self.entries@[i]]
                            0 <= i < self.entries@.len() implies self.entries@[i].0@ != kk by {
                            if i < n && self.entries@[i].0@ == kk {
                                mid.lemma_entry_in_view(i);
                            }
                        }
                        self.lemma_absent_in_view(kk);
                    }
                }
            }
            assert(self@ =~= mid@.insert(key@, value@));
            assert(mid@ =~= old(self)@.remove(key@));
            assert(self@ =~= old(self)@.insert(key@, value@));
        }
    }

    /// Removes the payload under `key` and returns it, if any.
    pub fn remove(&mut self, key: &Vec<u8>) -> (r: Option<Vec<u8>>)
        requires
            old(self).wf(),
        ensures
            final(self).wf(),
            final(self)@ == old(self)@.remove(key@),
            match r {
                Some(v) => old(self)@.contains_key(key@) && v@ == old(self)@[key@],
                None => !old(self)@.contains_key(key@),
            },
    {
        match self.find(key) {
            None => {
                proof {
                    self.lemma_absent_in_view(key@);
                    assert(self@ =~= old(self)@.remove(key@));
                }
                None
            },
            Some(i) => {
                proof {
                    self.lemma_entry_in_view(i as int);
                }
                let pair = self.entries.remove(i);
                proof {
                    let ghost prev = *old(self);
                    let i0 = i as int;
                    let n = self.entries@.len() as int;
                    assert forall|a: int, b: int|
                        #![trigger self.entries@[a], self.entries@[b]]
                        0 <= a < b < n implies self.entries@[a].0@ != self.entries@[b].0@ by {
                        let oa = if a < i0 { a } else { a + 1 };
                        let ob = if b < i0 { b } else { b + 1 };
                        assert(self.entries@[a] == prev.entries@[oa]);
                        assert(self.entries@[b] == prev.entries@[ob]);
                    }
                    assert forall|kk: Seq<u8>| #[trigger]
                        self@.contains_key(kk) == prev@.remove(key@).contains_key(kk)
                        && (self@.contains_key(kk) ==> self@[kk] == prev@.remove(key@)[kk]) by {
                        if kk == key@ {
                            assert forall|a: int|
                                #![trigger self.entries@[a]]
                                0 <= a < n implies self.entries@[a].0@ != key@ by {
                                let oa = if a < i0 { a } else { a + 1 };
                                assert(self.entries@[a] == prev.entries@[oa]);
                                if prev.entries@[oa].0@ == key@ {
                                    assert(prev.entries@[i0].0@ == key@);
                                }
                            }
                            self.lemma_absent_in_view(kk);
                        } else {
                            if prev@.contains_key(kk) {
                                let oi = choose|oi: int|
                                    #![trigger prev.entries@[oi]]
                                    0 <= oi < prev.entries@.len() && prev.entries@[oi].0@ == kk;
                                prev.lemma_entry_in_view(oi);
                                let a = if oi < i0 { oi } else { oi - 1 };
                                assert(oi != i0);
                                assert(self.entries@[a] == prev.entries@[oi]);
                                self.lemma_entry_in_view(a);
                            } else {
                                assert forall|a: int|
                                    #![trigger self.entries@[a]]
                                    0 <= a < n implies self.entries@[a].0@ != kk by {
                                    let oa = if a < i0 { a } else { a + 1 };
                                    assert(self.entries@[a] == prev.entries@[oa]);
                                    if prev.entries@[oa].0@ == kk {
                                        prev.lemma_entry_in_view(oa);
                                    }
                                }
                                self.lemma_absent_in_view(kk);
                            }
                        }
                    }
                    assert(self@ =~= prev@.remove(key@));
                }
                Some(pair.1)
            },
        }
    }
}

} // verus!
