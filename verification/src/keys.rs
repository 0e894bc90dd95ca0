//! Deterministic derivation of backend keys.
//!
//! A vector rooted at key `K` stores its length directly under the encoding
//! of `K` and element `N` under the encoding of the pair `(K, N)`. Both
//! encodings are fixed-width little-endian, so for a fixed root the mapping
//! from index to backend key is pure and collision-free, element keys never
//! collide with the length cell, and vectors with distinct roots never touch
//! a common key.

use vstd::prelude::*;

verus! {

/// The four little-endian bytes of a 32-bit value.
pub open spec fn u32_le_bytes(n: u32) -> Seq<u8> {
    seq![
        (n & 0xff) as u8,
        ((n >> 8) & 0xff) as u8,
        ((n >> 16) & 0xff) as u8,
        ((n >> 24) & 0xff) as u8,
    ]
}

/// The 32-bit value read back from four little-endian bytes.
pub open spec fn le_bytes_u32(b: Seq<u8>) -> u32
    recommends
        b.len() == 4,
{
    (b[0] as u32) | ((b[1] as u32) << 8) | ((b[2] as u32) << 16) | ((b[3] as u32) << 24)
}

/// The backend key under which a scalar cell rooted at `root` lives.
pub open spec fn scalar_key_bytes(root: u32) -> Seq<u8> {
    u32_le_bytes(root)
}

/// The backend key of element `index` of the collection rooted at `root`.
pub open spec fn element_key_bytes(root: u32, index: u32) -> Seq<u8> {
    u32_le_bytes(root) + u32_le_bytes(index)
}

/// Reading the little-endian bytes of `n` back yields `n`.
pub proof fn lemma_u32_le_roundtrip(n: u32)
    ensures
        le_bytes_u32(u32_le_bytes(n)) == n,
{
    assert((((n & 0xff) as u8) as u32) | ((((n >> 8) & 0xff) as u8) as u32) << 8
        | ((((n >> 16) & 0xff) as u8) as u32) << 16 | ((((n >> 24) & 0xff) as u8) as u32) << 24
        == n) by (bit_vector);
}

/// Encoding the value read from four little-endian bytes restores the bytes.
pub proof fn lemma_le_bytes_u32_roundtrip(b: Seq<u8>)
    requires
        b.len() == 4,
    ensures
        u32_le_bytes(le_bytes_u32(b)) == b,
{
    let b0 = b[0];
    let b1 = b[1];
    let b2 = b[2];
    let b3 = b[3];
    let n = le_bytes_u32(b);
    assert((((b0 as u32) | ((b1 as u32) << 8) | ((b2 as u32) << 16) | ((b3 as u32) << 24)) & 0xff)
        as u8 == b0) by (bit_vector);
    assert(((((b0 as u32) | ((b1 as u32) << 8) | ((b2 as u32) << 16) | ((b3 as u32) << 24)) >> 8)
        & 0xff) as u8 == b1) by (bit_vector);
    assert(((((b0 as u32) | ((b1 as u32) << 8) | ((b2 as u32) << 16) | ((b3 as u32) << 24)) >> 16)
        & 0xff) as u8 == b2) by (bit_vector);
    assert(((((b0 as u32) | ((b1 as u32) << 8) | ((b2 as u32) << 16) | ((b3 as u32) << 24)) >> 24)
        & 0xff) as u8 == b3) by (bit_vector);
    assert(u32_le_bytes(n) =~= b);
}

/// The little-endian encoding is injective.
pub proof fn lemma_u32_le_bytes_injective(a: u32, b: u32)
    requires
        u32_le_bytes(a) == u32_le_bytes(b),
    ensures
        a == b,
{
    lemma_u32_le_roundtrip(a);
    lemma_u32_le_roundtrip(b);
}

/// For a fixed root, distinct indices derive distinct element keys.
pub proof fn lemma_element_key_injective(root: u32, i: u32, j: u32)
    requires
        element_key_bytes(root, i) == element_key_bytes(root, j),
    ensures
        i == j,
{
    assert(u32_le_bytes(i) =~= u32_le_bytes(j)) by {
        assert(forall|k: int| 0 <= k < 4 ==> element_key_bytes(root, i)[4 + k] == #[trigger] u32_le_bytes(i)[k]);
        assert(forall|k: int| 0 <= k < 4 ==> element_key_bytes(root, j)[4 + k] == #[trigger] u32_le_bytes(j)[k]);
    }
    lemma_u32_le_bytes_injective(i, j);
}

/// No element key ever equals a scalar-cell key: the former is eight bytes,
/// the latter four.
pub proof fn lemma_element_key_ne_scalar_key(r1: u32, r2: u32, i: u32)
    ensures
        element_key_bytes(r1, i) != scalar_key_bytes(r2),
{
    assert(element_key_bytes(r1, i).len() == 8);
    assert(scalar_key_bytes(r2).len() == 4);
}

/// Vectors rooted at distinct keys never share a backend key.
pub proof fn lemma_distinct_roots_disjoint(r1: u32, r2: u32, i: u32, j: u32)
    requires
        r1 != r2,
    ensures
        scalar_key_bytes(r1) != scalar_key_bytes(r2),
        element_key_bytes(r1, i) != element_key_bytes(r2, j),
        element_key_bytes(r1, i) != scalar_key_bytes(r2),
{
    if scalar_key_bytes(r1) == scalar_key_bytes(r2) {
        lemma_u32_le_bytes_injective(r1, r2);
    }
    if element_key_bytes(r1, i) == element_key_bytes(r2, j) {
        assert(u32_le_bytes(r1) =~= u32_le_bytes(r2)) by {
            assert(forall|k: int| 0 <= k < 4 ==> element_key_bytes(r1, i)[k] == #[trigger] u32_le_bytes(r1)[k]);
            assert(forall|k: int| 0 <= k < 4 ==> element_key_bytes(r2, j)[k] == #[trigger] u32_le_bytes(r2)[k]);
        }
        lemma_u32_le_bytes_injective(r1, r2);
    }
    lemma_element_key_ne_scalar_key(r1, r2, i);
}

/// The backend key, as bytes, of the scalar cell rooted at `root`.
pub fn scalar_key(root: u32) -> (r: Vec<u8>)
    ensures
        r@ == scalar_key_bytes(root),
{
    crate::codec::scale_encode_u32(root)
}

/// The backend key, as bytes, of element `index` of the collection rooted
/// at `root`.
pub fn element_key(root: u32, index: u32) -> (r: Vec<u8>)
    ensures
        r@ == element_key_bytes(root, index),
{
    crate::codec::scale_encode_u32_pair(root, index)
}

} // verus!
