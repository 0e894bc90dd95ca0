//! The byte codec between typed values and backend payloads.
//!
//! Values cross into the backend as SCALE bytes: fixed-width little-endian
//! for integers, a canonical compact length prefix followed by the UTF-8
//! bytes for strings. The encoding and decoding calls are made by
//! `parity_scale_codec`; each call sits behind a trusted wrapper whose
//! contract states what the codec's source shows.

use vstd::prelude::*;

use crate::keys::{le_bytes_u32, u32_le_bytes};

verus! {

/// What the codec's string encoding returns: a canonical compact length
/// prefix followed by the UTF-8 bytes. A function of the characters alone.
pub uninterp spec fn scale_string_bytes(s: Seq<char>) -> Seq<u8>;

/// Whether a string is within the codec's encoding bounds. Each character
/// takes at most four UTF-8 bytes, so this keeps the byte length of the
/// payload below the codec's `u32::MAX` ceiling.
pub open spec fn string_encodable(s: Seq<char>) -> bool {
    s.len() <= 0x3fff_ffff
}

/// A value the vector can store: one that encodes to and decodes from bytes
/// without ambient context.
pub trait Packed: View + Sized {
    /// The bytes the codec produces for this value.
    spec fn encoded(self) -> Seq<u8>;

    /// Whether the value is within the codec's encoding bounds.
    spec fn encodable(self) -> bool;

    /// Encodes the value.
    fn encode(&self) -> (r: Vec<u8>)
        requires
            self.encodable(),
        ensures
            r@ == self.encoded(),
    ;

    /// Decodes a value back from bytes. Whatever comes back re-encodes to
    /// exactly the input, and decoding the encoding of a value within
    /// bounds gives that value back, at view level.
    fn decode(bytes: &Vec<u8>) -> (r: Option<Self>)
        ensures
            r matches Some(w) ==> w.encoded() == bytes@,
            forall|v: Self|
                v.encodable() && #[trigger] v.encoded() == bytes@ ==> (r matches Some(w) && w@
                    == v@),
    ;
}

/// Relies on `parity_scale_codec::Encode` for `u32`: the encoding is the
/// four little-endian bytes of the value.
#[verifier::external_body]
pub(crate) fn scale_encode_u32(n: u32) -> (r: Vec<u8>)
    ensures
        r@ == u32_le_bytes(n),
{
    parity_scale_codec::Encode::encode(&n)
}

/// Relies on `parity_scale_codec::DecodeAll` for `u32`: decoding reads
/// exactly four little-endian bytes and fails on any other length.
#[verifier::external_body]
pub(crate) fn scale_decode_u32(bytes: &Vec<u8>) -> (r: Option<u32>)
    ensures
        r == (if bytes@.len() == 4 {
            Some(le_bytes_u32(bytes@))
        } else {
            None::<u32>
        }),
{
    let mut input = bytes.as_slice();
    <u32 as parity_scale_codec::DecodeAll>::decode_all(&mut input).ok()
}

/// Relies on `parity_scale_codec::Encode` for `u8`: the encoding is the
/// single byte itself.
#[verifier::external_body]
pub(crate) fn scale_encode_u8(v: u8) -> (r: Vec<u8>)
    ensures
        r@ == seq![v],
{
    parity_scale_codec::Encode::encode(&v)
}

/// Relies on `parity_scale_codec::DecodeAll` for `u8`: decoding reads
/// exactly one byte and fails on any other length.
#[verifier::external_body]
pub(crate) fn scale_decode_u8(bytes: &Vec<u8>) -> (r: Option<u8>)
    ensures
        bytes@.len() == 1 ==> r == Some(bytes@[0]),
        bytes@.len() != 1 ==> r is None,
{
    let mut input = bytes.as_slice();
    <u8 as parity_scale_codec::DecodeAll>::decode_all(&mut input).ok()
}

/// Relies on `parity_scale_codec::Encode` for pairs: a tuple encodes as the
/// concatenation of its fields' encodings, here two little-endian words.
#[verifier::external_body]
pub(crate) fn scale_encode_u32_pair(a: u32, b: u32) -> (r: Vec<u8>)
    ensures
        r@ == u32_le_bytes(a) + u32_le_bytes(b),
{
    parity_scale_codec::Encode::encode(&(a, b))
}

/// Relies on `parity_scale_codec::Encode` for `str`: the result depends on
/// the characters alone, and the byte bound keeps the length prefix within
/// the codec's range.
#[verifier::external_body]
pub(crate) fn scale_encode_str(s: &String) -> (r: Vec<u8>)
    requires
        string_encodable(s@),
    ensures
        r@ == scale_string_bytes(s@),
{
    parity_scale_codec::Encode::encode(s.as_str())
}

/// Relies on `parity_scale_codec::DecodeAll` for `String`: the compact
/// length prefix is rejected unless canonical, so a decoded string
/// re-encodes to exactly the input, and decoding the encoding of a string
/// gives that string back.
#[verifier::external_body]
pub(crate) fn scale_decode_string(bytes: &Vec<u8>) -> (r: Option<String>)
    ensures
        r is Some ==> scale_string_bytes(r.unwrap()@) == bytes@,
        forall|s: Seq<char>| string_encodable(s) && #[trigger] scale_string_bytes(s) == bytes@
            ==> (r is Some && r.unwrap()@ == s),
{
    let mut input = bytes.as_slice();
    <String as parity_scale_codec::DecodeAll>::decode_all(&mut input).ok()
}

impl Packed for u8 {
    open spec fn encoded(self) -> Seq<u8> {
        seq![self]
    }

    open spec fn encodable(self) -> bool {
        true
    }

    fn encode(&self) -> (r: Vec<u8>) {
        scale_encode_u8(*self)
    }

    fn decode(bytes: &Vec<u8>) -> (r: Option<u8>) {
        let r = scale_decode_u8(bytes);
        proof {
            assert forall|v: u8| v.encodable() && #[trigger] v.encoded() == bytes@ implies (
            r matches Some(w) && w@ == v@) by {
                assert(bytes@.len() == 1);
                assert(v.encoded()[0] == v);
            }
        }
        r
    }
}

impl Packed for u32 {
    open spec fn encoded(self) -> Seq<u8> {
        u32_le_bytes(self)
    }

    open spec fn encodable(self) -> bool {
        true
    }

    fn encode(&self) -> (r: Vec<u8>) {
        scale_encode_u32(*self)
    }

    fn decode(bytes: &Vec<u8>) -> (r: Option<u32>) {
        let r = scale_decode_u32(bytes);
        proof {
            if bytes@.len() == 4 {
                crate::keys::lemma_le_bytes_u32_roundtrip(bytes@);
            }
            assert forall|v: u32| v.encodable() && #[trigger] v.encoded() == bytes@ implies (
            r matches Some(w) && w@ == v@) by {
                assert(bytes@.len() == 4);
                crate::keys::lemma_u32_le_roundtrip(v);
            }
        }
        r
    }
}

impl Packed for String {
    open spec fn encoded(self) -> Seq<u8> {
        scale_string_bytes(self@)
    }

    open spec fn encodable(self) -> bool {
        string_encodable(self@)
    }

    fn encode(&self) -> (r: Vec<u8>) {
        scale_encode_str(self)
    }

    fn decode(bytes: &Vec<u8>) -> (r: Option<String>) {
        let r = scale_decode_string(bytes);
        proof {
            assert forall|v: String| v.encodable() && #[trigger] v.encoded() == bytes@ implies (
            r matches Some(w) && w@ == v@) by {
                assert(string_encodable(v@) && scale_string_bytes(v@) == bytes@);
            }
        }
        r
    }
}

} // verus!
