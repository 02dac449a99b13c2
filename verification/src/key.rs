//! The key codec: order-preserving encodings of typed keys.
//!
//! `encode` turns a value into bytes; `try_decode` consumes a prefix of a
//! buffer and returns the value together with the unconsumed remainder.
//! For every type here decoding inverts encoding exactly; for the
//! fixed-width numeric types the encoding is additionally
//! order-preserving: byte-lexicographic comparison of two encodings
//! agrees with the natural order of the values.

use vstd::prelude::*;

use crate::DataTooShort;
use crate::bytes::{lex_lt, lex_lt_from};
use vstd::string::StringSliceAdditionalSpecFns;

verus! {

/// A type whose values encode deterministically to byte keys.
pub trait EncodeKey {
    /// The bytes that `encode` produces, as a mathematical sequence.
    spec fn encoding(&self) -> Seq<u8>;

    /// Whether the value is small enough for its encoding to be
    /// represented at all; every value an executable program can hold is.
    /// The round-trip law is stated for such values.
    spec fn encodable(&self) -> bool;

    fn encode(&self) -> (r: Vec<u8>)
        ensures
            r@ == self.encoding(),
            self.encodable(),
    ;
}

/// A key type that can be read back from bytes.
///
/// Decoding consumes a prefix of the buffer and hands back the remainder,
/// so that the fields of a composite key can be decoded in sequence.
pub trait DecodeKey: EncodeKey + Sized {
    type Error;

    /// Whether `bytes` starts with a valid encoding of `Self`.
    spec fn decodable(bytes: Seq<u8>) -> bool;

    /// How many leading bytes a successful decode consumes.
    spec fn spec_consumed(bytes: Seq<u8>) -> int;

    /// Whether `v` is what a successful decode of `bytes` yields.
    spec fn decodes_to(bytes: Seq<u8>, v: &Self) -> bool;

    /// Whether decoding stops at the end of the encoding whatever bytes
    /// follow it. A greedy key, which consumes the whole remainder, is
    /// not self-delimiting, and is therefore only sound as the last
    /// field of a composite key.
    spec fn self_delimiting() -> bool;

    /// Which error a failed decode of `bytes` carries: the variant is
    /// determined by the buffer, and its payload is pinned down as far
    /// as the library defines it.
    spec fn spec_error_matches(bytes: Seq<u8>, e: &Self::Error) -> bool;

    /// A successful decode consumes between none and all of the buffer.
    proof fn lemma_consumed_bounds(bytes: Seq<u8>)
        ensures
            Self::decodable(bytes) ==> 0 <= Self::spec_consumed(bytes) <= bytes.len(),
    ;

    /// Round trip: a buffer that starts with the encoding of `v` decodes,
    /// yields `v` back, and consumes exactly that encoding. For a key
    /// that is not self-delimiting this holds of the whole buffer.
    proof fn lemma_decode_encode(v: Self, rest: Seq<u8>)
        requires
            v.encodable(),
            Self::self_delimiting() || rest == Seq::<u8>::empty(),
        ensures
            Self::decodable(v.encoding() + rest),
            Self::spec_consumed(v.encoding() + rest) == v.encoding().len(),
            Self::decodes_to(v.encoding() + rest, &v),
    ;

    fn try_decode(bytes: &[u8]) -> (r: Result<(Self, &[u8]), Self::Error>)
        ensures
            match r {
                Ok((v, rem)) => Self::decodable(bytes@) && Self::decodes_to(bytes@, &v) && 0
                    <= Self::spec_consumed(bytes@) <= bytes@.len() && rem@ == bytes@.skip(
                    Self::spec_consumed(bytes@),
                ),
                Err(e) => !Self::decodable(bytes@) && Self::spec_error_matches(bytes@, &e),
            },
    ;
}

/// A key type whose decoder always stops at the end of its own
/// encoding, whatever bytes follow: the property that lets it stand
/// anywhere but last in a composite key.
pub trait SelfDelimitingKey: DecodeKey {
    proof fn lemma_self_delimiting()
        ensures
            Self::self_delimiting(),
    ;
}

/// Declares that every encoding of a `Self` value is a byte-prefix of the
/// encoding of any full key of type `K` that completes it.
///
/// The relation authorizes prefix and partial-key scans; it is declared
/// per type pair, never inferred.
pub trait PrefixKey<K: EncodeKey>: EncodeKey {
    /// When a full key `k` counts as a completion of this prefix value.
    spec fn completes(&self, k: &K) -> bool;

    /// The prefix guarantee: the encoding of the prefix value is a
    /// byte-prefix of the encoding of every completion.
    proof fn lemma_prefix_encoding(&self, k: &K)
        requires
            self.completes(k),
        ensures
            self.encoding().is_prefix_of(k.encoding()),
    ;
}

impl<K: EncodeKey> PrefixKey<K> for K {
    open spec fn completes(&self, k: &K) -> bool {
        self.encoding() == k.encoding()
    }

    proof fn lemma_prefix_encoding(&self, k: &K) {
    }
}

impl EncodeKey for () {
    open spec fn encoding(&self) -> Seq<u8> {
        Seq::empty()
    }

    open spec fn encodable(&self) -> bool {
        true
    }

    fn encode(&self) -> (r: Vec<u8>)
        ensures
            r@ == self.encoding(),
            self.encodable(),
    {
        let r: Vec<u8> = Vec::new();
        proof {
            assert(r@ =~= self.encoding());
        }
        r
    }
}

impl DecodeKey for () {
    type Error = core::convert::Infallible;

    open spec fn decodable(bytes: Seq<u8>) -> bool {
        true
    }

    open spec fn spec_consumed(bytes: Seq<u8>) -> int {
        0
    }

    open spec fn decodes_to(bytes: Seq<u8>, v: &()) -> bool {
        true
    }

    open spec fn self_delimiting() -> bool {
        true
    }

    open spec fn spec_error_matches(bytes: Seq<u8>, e: &Self::Error) -> bool {
        false
    }

    proof fn lemma_consumed_bounds(bytes: Seq<u8>) {
    }

    proof fn lemma_decode_encode(v: (), rest: Seq<u8>) {
    }

    fn try_decode(bytes: &[u8]) -> (r: Result<((), &[u8]), Self::Error>) {
        proof {
            assert(bytes@.skip(0) =~= bytes@);
        }
        Ok(((), bytes))
    }
}

} // verus!


verus! {

/// The big-endian bytes of a `u8`.
pub open spec fn spec_u8_be(x: u8) -> Seq<u8> {
    seq![x]
}

/// The `u8` read back from 1 big-endian byte.
pub open spec fn spec_u8_from_be(s: Seq<u8>) -> u8 {
    s[0]
}

proof fn lemma_u8_be_roundtrip(x: u8)
    ensures
        spec_u8_from_be(spec_u8_be(x)) == x,
{
}

/// Order preservation of the big-endian `u8` encoding.
pub proof fn lemma_key_order_u8(a: u8, b: u8)
    ensures
        (a < b) <==> lex_lt(spec_u8_be(a), spec_u8_be(b)),
{
    let x = spec_u8_be(a);
    let y = spec_u8_be(b);
    assert(lex_lt_from(x, y, 1) == false);
    assert(lex_lt_from(x, y, 0) == (x[0] < y[0]));
}

impl EncodeKey for u8 {
    open spec fn encoding(&self) -> Seq<u8> {
        spec_u8_be(*self)
    }

    open spec fn encodable(&self) -> bool {
        true
    }

    fn encode(&self) -> (r: Vec<u8>)
        ensures
            r@ == self.encoding(),
            self.encodable(),
    {
        let x = *self;
        let r: Vec<u8> = vec![x];
        proof {
            assert(r@ =~= self.encoding());
        }
        r
    }
}

impl DecodeKey for u8 {
    type Error = DataTooShort;

    open spec fn decodable(bytes: Seq<u8>) -> bool {
        bytes.len() >= 1
    }

    open spec fn spec_consumed(bytes: Seq<u8>) -> int {
        1
    }

    open spec fn decodes_to(bytes: Seq<u8>, v: &u8) -> bool {
        *v == spec_u8_from_be(bytes)
    }

    open spec fn self_delimiting() -> bool {
        true
    }

    open spec fn spec_error_matches(bytes: Seq<u8>, e: &DataTooShort) -> bool {
        *e == (DataTooShort { expected: 1, actual: bytes.len() as usize })
    }

    proof fn lemma_consumed_bounds(bytes: Seq<u8>) {
    }

    proof fn lemma_decode_encode(v: u8, rest: Seq<u8>) {
        let whole = v.encoding() + rest;
        lemma_u8_be_roundtrip(v);
        assert(spec_u8_from_be(whole) == spec_u8_from_be(spec_u8_be(v)));
    }

    fn try_decode(bytes: &[u8]) -> (r: Result<(u8, &[u8]), DataTooShort>) {
        if bytes.len() < 1 {
            return Err(DataTooShort { expected: 1, actual: bytes.len() });
        }
        let v: u8 = (bytes[0]);
        let rem = vstd::slice::slice_subrange(bytes, 1, bytes.len());
        proof {
            assert(rem@ =~= bytes@.skip(1));
        }
        Ok((v, rem))
    }
}

} // verus!


verus! {

/// The big-endian bytes of a `u16`.
pub open spec fn spec_u16_be(x: u16) -> Seq<u8> {
    seq![
        (x >> 8) as u8,
        x as u8,
    ]
}

/// The `u16` read back from 2 big-endian bytes.
pub open spec fn spec_u16_from_be(s: Seq<u8>) -> u16 {
    ((s[0] as u16) << 8) | (s[1] as u16)
}

pub proof fn lemma_u16_be_roundtrip(x: u16)
    ensures
        spec_u16_from_be(spec_u16_be(x)) == x,
{
    assert((((((x >> 8) as u8) as u16) << 8) | ((x as u8) as u16)) == x) by (bit_vector);
}

/// Order preservation of the big-endian `u16` encoding.
pub proof fn lemma_key_order_u16(a: u16, b: u16)
    ensures
        (a < b) <==> lex_lt(spec_u16_be(a), spec_u16_be(b)),
{
    let x = spec_u16_be(a);
    let y = spec_u16_be(b);
    assert(lex_lt_from(x, y, 2) == false);
    assert(lex_lt_from(x, y, 1) == (x[1] < y[1]));
    assert(lex_lt_from(x, y, 0) == (x[0] < y[0] || (x[0] == y[0] && lex_lt_from(x, y, 1))));
    assert(((a >> 8) == (b >> 8)) <==> (((a >> 8) as u8) == ((b >> 8) as u8))) by (bit_vector);
    assert((a < b) <==> (((a >> 8) as u8) < ((b >> 8) as u8)
        || ((a >> 8) == (b >> 8) && (a as u8) < (b as u8)))) by (bit_vector);
}

impl EncodeKey for u16 {
    open spec fn encoding(&self) -> Seq<u8> {
        spec_u16_be(*self)
    }

    open spec fn encodable(&self) -> bool {
        true
    }

    fn encode(&self) -> (r: Vec<u8>)
        ensures
            r@ == self.encoding(),
            self.encodable(),
    {
        let x = *self;
        let r: Vec<u8> = vec![
            (x >> 8) as u8,
            x as u8,
        ];
        proof {
            assert(r@ =~= self.encoding());
        }
        r
    }
}

impl DecodeKey for u16 {
    type Error = DataTooShort;

    open spec fn decodable(bytes: Seq<u8>) -> bool {
        bytes.len() >= 2
    }

    open spec fn spec_consumed(bytes: Seq<u8>) -> int {
        2
    }

    open spec fn decodes_to(bytes: Seq<u8>, v: &u16) -> bool {
        *v == spec_u16_from_be(bytes)
    }

    open spec fn self_delimiting() -> bool {
        true
    }

    open spec fn spec_error_matches(bytes: Seq<u8>, e: &DataTooShort) -> bool {
        *e == (DataTooShort { expected: 2, actual: bytes.len() as usize })
    }

    proof fn lemma_consumed_bounds(bytes: Seq<u8>) {
    }

    proof fn lemma_decode_encode(v: u16, rest: Seq<u8>) {
        let whole = v.encoding() + rest;
        lemma_u16_be_roundtrip(v);
        assert(spec_u16_from_be(whole) == spec_u16_from_be(spec_u16_be(v)));
    }

    fn try_decode(bytes: &[u8]) -> (r: Result<(u16, &[u8]), DataTooShort>) {
        if bytes.len() < 2 {
            return Err(DataTooShort { expected: 2, actual: bytes.len() });
        }
        let v: u16 = (((bytes[0] as u16) << 8) | (bytes[1] as u16));
        let rem = vstd::slice::slice_subrange(bytes, 2, bytes.len());
        proof {
            assert(rem@ =~= bytes@.skip(2));
        }
        Ok((v, rem))
    }
}

} // verus!


verus! {

/// The big-endian bytes of a `u32`.
pub open spec fn spec_u32_be(x: u32) -> Seq<u8> {
    seq![
        (x >> 24) as u8,
        (x >> 16) as u8,
        (x >> 8) as u8,
        x as u8,
    ]
}

/// The `u32` read back from 4 big-endian bytes.
pub open spec fn spec_u32_from_be(s: Seq<u8>) -> u32 {
    ((s[0] as u32) << 24) | ((s[1] as u32) << 16) | ((s[2] as u32) << 8) | (s[3] as u32)
}

pub proof fn lemma_u32_be_roundtrip(x: u32)
    ensures
        spec_u32_from_be(spec_u32_be(x)) == x,
{
    assert((((((x >> 24) as u8) as u32) << 24) | ((((x >> 16) as u8) as u32) << 16) | ((((x >> 8) as u8) as u32) << 8) | ((x as u8) as u32)) == x) by (bit_vector);
}

/// Order preservation of the big-endian `u32` encoding.
pub proof fn lemma_key_order_u32(a: u32, b: u32)
    ensures
        (a < b) <==> lex_lt(spec_u32_be(a), spec_u32_be(b)),
{
    let x = spec_u32_be(a);
    let y = spec_u32_be(b);
    assert(lex_lt_from(x, y, 4) == false);
    assert(lex_lt_from(x, y, 3) == (x[3] < y[3]));
    assert(lex_lt_from(x, y, 2) == (x[2] < y[2] || (x[2] == y[2] && lex_lt_from(x, y, 3))));
    assert(lex_lt_from(x, y, 1) == (x[1] < y[1] || (x[1] == y[1] && lex_lt_from(x, y, 2))));
    assert(lex_lt_from(x, y, 0) == (x[0] < y[0] || (x[0] == y[0] && lex_lt_from(x, y, 1))));
    assert(((a >> 24) == (b >> 24)) <==> (((a >> 24) as u8) == ((b >> 24) as u8))) by (bit_vector);
    assert(((a >> 16) == (b >> 16)) <==> ((a >> 24) == (b >> 24) && ((a >> 16) as u8) == ((b >> 16) as u8))) by (bit_vector);
    assert(((a >> 8) == (b >> 8)) <==> ((a >> 16) == (b >> 16) && ((a >> 8) as u8) == ((b >> 8) as u8))) by (bit_vector);
    assert((a < b) <==> (((a >> 24) as u8) < ((b >> 24) as u8)
        || ((a >> 24) == (b >> 24) && ((a >> 16) as u8) < ((b >> 16) as u8))
        || ((a >> 16) == (b >> 16) && ((a >> 8) as u8) < ((b >> 8) as u8))
        || ((a >> 8) == (b >> 8) && (a as u8) < (b as u8)))) by (bit_vector);
}

impl EncodeKey for u32 {
    open spec fn encoding(&self) -> Seq<u8> {
        spec_u32_be(*self)
    }

    open spec fn encodable(&self) -> bool {
        true
    }

    fn encode(&self) -> (r: Vec<u8>)
        ensures
            r@ == self.encoding(),
            self.encodable(),
    {
        let x = *self;
        let r: Vec<u8> = vec![
            (x >> 24) as u8,
            (x >> 16) as u8,
            (x >> 8) as u8,
            x as u8,
        ];
        proof {
            assert(r@ =~= self.encoding());
        }
        r
    }
}

impl DecodeKey for u32 {
    type Error = DataTooShort;

    open spec fn decodable(bytes: Seq<u8>) -> bool {
        bytes.len() >= 4
    }

    open spec fn spec_consumed(bytes: Seq<u8>) -> int {
        4
    }

    open spec fn decodes_to(bytes: Seq<u8>, v: &u32) -> bool {
        *v == spec_u32_from_be(bytes)
    }

    open spec fn self_delimiting() -> bool {
        true
    }

    open spec fn spec_error_matches(bytes: Seq<u8>, e: &DataTooShort) -> bool {
        *e == (DataTooShort { expected: 4, actual: bytes.len() as usize })
    }

    proof fn lemma_consumed_bounds(bytes: Seq<u8>) {
    }

    proof fn lemma_decode_encode(v: u32, rest: Seq<u8>) {
        let whole = v.encoding() + rest;
        lemma_u32_be_roundtrip(v);
        assert(spec_u32_from_be(whole) == spec_u32_from_be(spec_u32_be(v)));
    }

    fn try_decode(bytes: &[u8]) -> (r: Result<(u32, &[u8]), DataTooShort>) {
        if bytes.len() < 4 {
            return Err(DataTooShort { expected: 4, actual: bytes.len() });
        }
        let v: u32 = (((bytes[0] as u32) << 24) | ((bytes[1] as u32) << 16) | ((bytes[2] as u32) << 8) | (bytes[3] as u32));
        let rem = vstd::slice::slice_subrange(bytes, 4, bytes.len());
        proof {
            assert(rem@ =~= bytes@.skip(4));
        }
        Ok((v, rem))
    }
}

} // verus!


verus! {

/// The big-endian bytes of a `u64`.
pub open spec fn spec_u64_be(x: u64) -> Seq<u8> {
    seq![
        (x >> 56) as u8,
        (x >> 48) as u8,
        (x >> 40) as u8,
        (x >> 32) as u8,
        (x >> 24) as u8,
        (x >> 16) as u8,
        (x >> 8) as u8,
        x as u8,
    ]
}

/// The `u64` read back from 8 big-endian bytes.
pub open spec fn spec_u64_from_be(s: Seq<u8>) -> u64 {
    ((s[0] as u64) << 56) | ((s[1] as u64) << 48) | ((s[2] as u64) << 40) | ((s[3] as u64) << 32) | ((s[4] as u64) << 24) | ((s[5] as u64) << 16) | ((s[6] as u64) << 8) | (s[7] as u64)
}

pub proof fn lemma_u64_be_roundtrip(x: u64)
    ensures
        spec_u64_from_be(spec_u64_be(x)) == x,
{
    assert((((((x >> 56) as u8) as u64) << 56) | ((((x >> 48) as u8) as u64) << 48) | ((((x >> 40) as u8) as u64) << 40) | ((((x >> 32) as u8) as u64) << 32) | ((((x >> 24) as u8) as u64) << 24) | ((((x >> 16) as u8) as u64) << 16) | ((((x >> 8) as u8) as u64) << 8) | ((x as u8) as u64)) == x) by (bit_vector);
}

/// Order preservation of the big-endian `u64` encoding.
pub proof fn lemma_key_order_u64(a: u64, b: u64)
    ensures
        (a < b) <==> lex_lt(spec_u64_be(a), spec_u64_be(b)),
{
    let x = spec_u64_be(a);
    let y = spec_u64_be(b);
    assert(lex_lt_from(x, y, 8) == false);
    assert(lex_lt_from(x, y, 7) == (x[7] < y[7]));
    assert(lex_lt_from(x, y, 6) == (x[6] < y[6] || (x[6] == y[6] && lex_lt_from(x, y, 7))));
    assert(lex_lt_from(x, y, 5) == (x[5] < y[5] || (x[5] == y[5] && lex_lt_from(x, y, 6))));
    assert(lex_lt_from(x, y, 4) == (x[4] < y[4] || (x[4] == y[4] && lex_lt_from(x, y, 5))));
    assert(lex_lt_from(x, y, 3) == (x[3] < y[3] || (x[3] == y[3] && lex_lt_from(x, y, 4))));
    assert(lex_lt_from(x, y, 2) == (x[2] < y[2] || (x[2] == y[2] && lex_lt_from(x, y, 3))));
    assert(lex_lt_from(x, y, 1) == (x[1] < y[1] || (x[1] == y[1] && lex_lt_from(x, y, 2))));
    assert(lex_lt_from(x, y, 0) == (x[0] < y[0] || (x[0] == y[0] && lex_lt_from(x, y, 1))));
    assert(((a >> 56) == (b >> 56)) <==> (((a >> 56) as u8) == ((b >> 56) as u8))) by (bit_vector);
    assert(((a >> 48) == (b >> 48)) <==> ((a >> 56) == (b >> 56) && ((a >> 48) as u8) == ((b >> 48) as u8))) by (bit_vector);
    assert(((a >> 40) == (b >> 40)) <==> ((a >> 48) == (b >> 48) && ((a >> 40) as u8) == ((b >> 40) as u8))) by (bit_vector);
    assert(((a >> 32) == (b >> 32)) <==> ((a >> 40) == (b >> 40) && ((a >> 32) as u8) == ((b >> 32) as u8))) by (bit_vector);
    assert(((a >> 24) == (b >> 24)) <==> ((a >> 32) == (b >> 32) && ((a >> 24) as u8) == ((b >> 24) as u8))) by (bit_vector);
    assert(((a >> 16) == (b >> 16)) <==> ((a >> 24) == (b >> 24) && ((a >> 16) as u8) == ((b >> 16) as u8))) by (bit_vector);
    assert(((a >> 8) == (b >> 8)) <==> ((a >> 16) == (b >> 16) && ((a >> 8) as u8) == ((b >> 8) as u8))) by (bit_vector);
    assert((a < b) <==> (((a >> 56) as u8) < ((b >> 56) as u8)
        || ((a >> 56) == (b >> 56) && ((a >> 48) as u8) < ((b >> 48) as u8))
        || ((a >> 48) == (b >> 48) && ((a >> 40) as u8) < ((b >> 40) as u8))
        || ((a >> 40) == (b >> 40) && ((a >> 32) as u8) < ((b >> 32) as u8))
        || ((a >> 32) == (b >> 32) && ((a >> 24) as u8) < ((b >> 24) as u8))
        || ((a >> 24) == (b >> 24) && ((a >> 16) as u8) < ((b >> 16) as u8))
        || ((a >> 16) == (b >> 16) && ((a >> 8) as u8) < ((b >> 8) as u8))
        || ((a >> 8) == (b >> 8) && (a as u8) < (b as u8)))) by (bit_vector);
}

impl EncodeKey for u64 {
    open spec fn encoding(&self) -> Seq<u8> {
        spec_u64_be(*self)
    }

    open spec fn encodable(&self) -> bool {
        true
    }

    fn encode(&self) -> (r: Vec<u8>)
        ensures
            r@ == self.encoding(),
            self.encodable(),
    {
        let x = *self;
        let r: Vec<u8> = vec![
            (x >> 56) as u8,
            (x >> 48) as u8,
            (x >> 40) as u8,
            (x >> 32) as u8,
            (x >> 24) as u8,
            (x >> 16) as u8,
            (x >> 8) as u8,
            x as u8,
        ];
        proof {
            assert(r@ =~= self.encoding());
        }
        r
    }
}

impl DecodeKey for u64 {
    type Error = DataTooShort;

    open spec fn decodable(bytes: Seq<u8>) -> bool {
        bytes.len() >= 8
    }

    open spec fn spec_consumed(bytes: Seq<u8>) -> int {
        8
    }

    open spec fn decodes_to(bytes: Seq<u8>, v: &u64) -> bool {
        *v == spec_u64_from_be(bytes)
    }

    open spec fn self_delimiting() -> bool {
        true
    }

    open spec fn spec_error_matches(bytes: Seq<u8>, e: &DataTooShort) -> bool {
        *e == (DataTooShort { expected: 8, actual: bytes.len() as usize })
    }

    proof fn lemma_consumed_bounds(bytes: Seq<u8>) {
    }

    proof fn lemma_decode_encode(v: u64, rest: Seq<u8>) {
        let whole = v.encoding() + rest;
        lemma_u64_be_roundtrip(v);
        assert(spec_u64_from_be(whole) == spec_u64_from_be(spec_u64_be(v)));
    }

    fn try_decode(bytes: &[u8]) -> (r: Result<(u64, &[u8]), DataTooShort>) {
        if bytes.len() < 8 {
            return Err(DataTooShort { expected: 8, actual: bytes.len() });
        }
        let v: u64 = (((bytes[0] as u64) << 56) | ((bytes[1] as u64) << 48) | ((bytes[2] as u64) << 40) | ((bytes[3] as u64) << 32) | ((bytes[4] as u64) << 24) | ((bytes[5] as u64) << 16) | ((bytes[6] as u64) << 8) | (bytes[7] as u64));
        let rem = vstd::slice::slice_subrange(bytes, 8, bytes.len());
        proof {
            assert(rem@ =~= bytes@.skip(8));
        }
        Ok((v, rem))
    }
}

} // verus!


verus! {

/// The sign-flipped unsigned image of an `i8`: flipping the top bit of
/// the two's-complement bytes maps the signed range onto the unsigned
/// range monotonically, so negative values sort below non-negative ones.
pub open spec fn spec_i8_flip(x: i8) -> u8 {
    (x as u8) ^ 0x80
}

/// Order preservation of the sign-flipped big-endian `i8` encoding.
pub proof fn lemma_key_order_i8(a: i8, b: i8)
    ensures
        (a < b) <==> lex_lt(spec_u8_be(spec_i8_flip(a)), spec_u8_be(spec_i8_flip(b))),
{
    assert((a < b) <==> (((a as u8) ^ 0x80) < ((b as u8) ^ 0x80))) by (bit_vector);
    lemma_key_order_u8(spec_i8_flip(a), spec_i8_flip(b));
}

impl EncodeKey for i8 {
    open spec fn encoding(&self) -> Seq<u8> {
        spec_u8_be(spec_i8_flip(*self))
    }

    open spec fn encodable(&self) -> bool {
        true
    }

    fn encode(&self) -> (r: Vec<u8>)
        ensures
            r@ == self.encoding(),
            self.encodable(),
    {
        let flipped: u8 = (*self as u8) ^ 0x80;
        flipped.encode()
    }
}

impl DecodeKey for i8 {
    type Error = DataTooShort;

    open spec fn decodable(bytes: Seq<u8>) -> bool {
        bytes.len() >= 1
    }

    open spec fn spec_consumed(bytes: Seq<u8>) -> int {
        1
    }

    open spec fn decodes_to(bytes: Seq<u8>, v: &i8) -> bool {
        spec_i8_flip(*v) == spec_u8_from_be(bytes)
    }

    open spec fn self_delimiting() -> bool {
        true
    }

    open spec fn spec_error_matches(bytes: Seq<u8>, e: &DataTooShort) -> bool {
        *e == (DataTooShort { expected: 1, actual: bytes.len() as usize })
    }

    proof fn lemma_consumed_bounds(bytes: Seq<u8>) {
    }

    proof fn lemma_decode_encode(v: i8, rest: Seq<u8>) {
        let f = spec_i8_flip(v);
        <u8 as DecodeKey>::lemma_decode_encode(f, rest);
    }

    fn try_decode(bytes: &[u8]) -> (r: Result<(i8, &[u8]), DataTooShort>) {
        match <u8 as DecodeKey>::try_decode(bytes) {
            Ok((u, rem)) => {
                let v: i8 = (u ^ 0x80) as i8;
                proof {
                    assert((((u ^ 0x80) as i8) as u8) ^ 0x80 == u) by (bit_vector);
                }
                Ok((v, rem))
            },
            Err(e) => Err(e),
        }
    }
}

} // verus!


verus! {

/// The sign-flipped unsigned image of an `i16`: flipping the top bit of
/// the two's-complement bytes maps the signed range onto the unsigned
/// range monotonically, so negative values sort below non-negative ones.
pub open spec fn spec_i16_flip(x: i16) -> u16 {
    (x as u16) ^ 0x8000
}

/// Order preservation of the sign-flipped big-endian `i16` encoding.
pub proof fn lemma_key_order_i16(a: i16, b: i16)
    ensures
        (a < b) <==> lex_lt(spec_u16_be(spec_i16_flip(a)), spec_u16_be(spec_i16_flip(b))),
{
    assert((a < b) <==> (((a as u16) ^ 0x8000) < ((b as u16) ^ 0x8000))) by (bit_vector);
    lemma_key_order_u16(spec_i16_flip(a), spec_i16_flip(b));
}

impl EncodeKey for i16 {
    open spec fn encoding(&self) -> Seq<u8> {
        spec_u16_be(spec_i16_flip(*self))
    }

    open spec fn encodable(&self) -> bool {
        true
    }

    fn encode(&self) -> (r: Vec<u8>)
        ensures
            r@ == self.encoding(),
            self.encodable(),
    {
        let flipped: u16 = (*self as u16) ^ 0x8000;
        flipped.encode()
    }
}

impl DecodeKey for i16 {
    type Error = DataTooShort;

    open spec fn decodable(bytes: Seq<u8>) -> bool {
        bytes.len() >= 2
    }

    open spec fn spec_consumed(bytes: Seq<u8>) -> int {
        2
    }

    open spec fn decodes_to(bytes: Seq<u8>, v: &i16) -> bool {
        spec_i16_flip(*v) == spec_u16_from_be(bytes)
    }

    open spec fn self_delimiting() -> bool {
        true
    }

    open spec fn spec_error_matches(bytes: Seq<u8>, e: &DataTooShort) -> bool {
        *e == (DataTooShort { expected: 2, actual: bytes.len() as usize })
    }

    proof fn lemma_consumed_bounds(bytes: Seq<u8>) {
    }

    proof fn lemma_decode_encode(v: i16, rest: Seq<u8>) {
        let f = spec_i16_flip(v);
        <u16 as DecodeKey>::lemma_decode_encode(f, rest);
    }

    fn try_decode(bytes: &[u8]) -> (r: Result<(i16, &[u8]), DataTooShort>) {
        match <u16 as DecodeKey>::try_decode(bytes) {
            Ok((u, rem)) => {
                let v: i16 = (u ^ 0x8000) as i16;
                proof {
                    assert((((u ^ 0x8000) as i16) as u16) ^ 0x8000 == u) by (bit_vector);
                }
                Ok((v, rem))
            },
            Err(e) => Err(e),
        }
    }
}

} // verus!


verus! {

/// The sign-flipped unsigned image of an `i32`: flipping the top bit of
/// the two's-complement bytes maps the signed range onto the unsigned
/// range monotonically, so negative values sort below non-negative ones.
pub open spec fn spec_i32_flip(x: i32) -> u32 {
    (x as u32) ^ 0x80000000
}

/// Order preservation of the sign-flipped big-endian `i32` encoding.
pub proof fn lemma_key_order_i32(a: i32, b: i32)
    ensures
        (a < b) <==> lex_lt(spec_u32_be(spec_i32_flip(a)), spec_u32_be(spec_i32_flip(b))),
{
    assert((a < b) <==> (((a as u32) ^ 0x80000000) < ((b as u32) ^ 0x80000000))) by (bit_vector);
    lemma_key_order_u32(spec_i32_flip(a), spec_i32_flip(b));
}

impl EncodeKey for i32 {
    open spec fn encoding(&self) -> Seq<u8> {
        spec_u32_be(spec_i32_flip(*self))
    }

    open spec fn encodable(&self) -> bool {
        true
    }

    fn encode(&self) -> (r: Vec<u8>)
        ensures
            r@ == self.encoding(),
            self.encodable(),
    {
        let flipped: u32 = (*self as u32) ^ 0x80000000;
        flipped.encode()
    }
}

impl DecodeKey for i32 {
    type Error = DataTooShort;

    open spec fn decodable(bytes: Seq<u8>) -> bool {
        bytes.len() >= 4
    }

    open spec fn spec_consumed(bytes: Seq<u8>) -> int {
        4
    }

    open spec fn decodes_to(bytes: Seq<u8>, v: &i32) -> bool {
        spec_i32_flip(*v) == spec_u32_from_be(bytes)
    }

    open spec fn self_delimiting() -> bool {
        true
    }

    open spec fn spec_error_matches(bytes: Seq<u8>, e: &DataTooShort) -> bool {
        *e == (DataTooShort { expected: 4, actual: bytes.len() as usize })
    }

    proof fn lemma_consumed_bounds(bytes: Seq<u8>) {
    }

    proof fn lemma_decode_encode(v: i32, rest: Seq<u8>) {
        let f = spec_i32_flip(v);
        <u32 as DecodeKey>::lemma_decode_encode(f, rest);
    }

    fn try_decode(bytes: &[u8]) -> (r: Result<(i32, &[u8]), DataTooShort>) {
        match <u32 as DecodeKey>::try_decode(bytes) {
            Ok((u, rem)) => {
                let v: i32 = (u ^ 0x80000000) as i32;
                proof {
                    assert((((u ^ 0x80000000) as i32) as u32) ^ 0x80000000 == u) by (bit_vector);
                }
                Ok((v, rem))
            },
            Err(e) => Err(e),
        }
    }
}

} // verus!


verus! {

/// The sign-flipped unsigned image of an `i64`: flipping the top bit of
/// the two's-complement bytes maps the signed range onto the unsigned
/// range monotonically, so negative values sort below non-negative ones.
pub open spec fn spec_i64_flip(x: i64) -> u64 {
    (x as u64) ^ 0x8000000000000000
}

/// Order preservation of the sign-flipped big-endian `i64` encoding.
pub proof fn lemma_key_order_i64(a: i64, b: i64)
    ensures
        (a < b) <==> lex_lt(spec_u64_be(spec_i64_flip(a)), spec_u64_be(spec_i64_flip(b))),
{
    assert((a < b) <==> (((a as u64) ^ 0x8000000000000000) < ((b as u64) ^ 0x8000000000000000))) by (bit_vector);
    lemma_key_order_u64(spec_i64_flip(a), spec_i64_flip(b));
}

impl EncodeKey for i64 {
    open spec fn encoding(&self) -> Seq<u8> {
        spec_u64_be(spec_i64_flip(*self))
    }

    open spec fn encodable(&self) -> bool {
        true
    }

    fn encode(&self) -> (r: Vec<u8>)
        ensures
            r@ == self.encoding(),
            self.encodable(),
    {
        let flipped: u64 = (*self as u64) ^ 0x8000000000000000;
        flipped.encode()
    }
}

impl DecodeKey for i64 {
    type Error = DataTooShort;

    open spec fn decodable(bytes: Seq<u8>) -> bool {
        bytes.len() >= 8
    }

    open spec fn spec_consumed(bytes: Seq<u8>) -> int {
        8
    }

    open spec fn decodes_to(bytes: Seq<u8>, v: &i64) -> bool {
        spec_i64_flip(*v) == spec_u64_from_be(bytes)
    }

    open spec fn self_delimiting() -> bool {
        true
    }

    open spec fn spec_error_matches(bytes: Seq<u8>, e: &DataTooShort) -> bool {
        *e == (DataTooShort { expected: 8, actual: bytes.len() as usize })
    }

    proof fn lemma_consumed_bounds(bytes: Seq<u8>) {
    }

    proof fn lemma_decode_encode(v: i64, rest: Seq<u8>) {
        let f = spec_i64_flip(v);
        <u64 as DecodeKey>::lemma_decode_encode(f, rest);
    }

    fn try_decode(bytes: &[u8]) -> (r: Result<(i64, &[u8]), DataTooShort>) {
        match <u64 as DecodeKey>::try_decode(bytes) {
            Ok((u, rem)) => {
                let v: i64 = (u ^ 0x8000000000000000) as i64;
                proof {
                    assert((((u ^ 0x8000000000000000) as i64) as u64) ^ 0x8000000000000000 == u) by (bit_vector);
                }
                Ok((v, rem))
            },
            Err(e) => Err(e),
        }
    }
}

} // verus!


verus! {

/// A 32-bit IEEE-754 value used as a key, held as its raw bit pattern.
///
/// Floating point itself stays outside the verified codec; callers move
/// between `f32` and `F32Key` with `f32::to_bits` and `f32::from_bits`.
#[derive(Debug, Clone, Copy, PartialEq, Eq, Structural)]
pub struct F32Key {
    pub bits: u32,
}

/// The order-preserving transform of an IEEE-754 bit pattern: a pattern
/// with sign bit clear (non-negative value) gets the sign bit set, and a
/// pattern with sign bit set (negative value) has every bit inverted.
/// Non-negative values then sort above all negative ones, and inverting
/// the negative patterns turns their reversed native order back into
/// numeric order.
pub open spec fn spec_f32_flip(p: u32) -> u32 {
    if p & 0x80000000 == 0 {
        p | 0x80000000
    } else {
        !p
    }
}

/// The inverse of `spec_f32_flip`.
pub open spec fn spec_f32_unflip(q: u32) -> u32 {
    if q & 0x80000000 != 0 {
        q ^ 0x80000000
    } else {
        !q
    }
}

pub proof fn lemma_f32_flip_unflip(p: u32)
    ensures
        spec_f32_unflip(spec_f32_flip(p)) == p,
{
    assert(p & 0x80000000 == 0 ==> ((p | 0x80000000) & 0x80000000 != 0) && ((p | 0x80000000) ^ 0x80000000) == p)
        by (bit_vector);
    assert(p & 0x80000000 != 0 ==> ((!p) & 0x80000000 == 0) && (!(!p)) == p) by (bit_vector);
}

/// Sign-magnitude order on IEEE-754 bit patterns: the order that `<` on
/// the floats themselves gives for non-NaN values, with the negative
/// zero pattern placed just below the positive zero one.
pub open spec fn f32_bits_below(p: u32, q: u32) -> bool {
    if p & 0x80000000 == 0 && q & 0x80000000 == 0 {
        p < q
    } else if p & 0x80000000 != 0 && q & 0x80000000 != 0 {
        q < p
    } else {
        p & 0x80000000 != 0
    }
}

/// Order preservation of the `F32Key` encoding with respect to the
/// sign-magnitude order of the underlying patterns.
pub proof fn lemma_key_order_f32(a: F32Key, b: F32Key)
    ensures
        f32_bits_below(a.bits, b.bits) <==> lex_lt(a.encoding(), b.encoding()),
{
    let p = a.bits;
    let q = b.bits;
    assert((p & 0x80000000 == 0 && q & 0x80000000 == 0) ==> ((p < q) <==> ((p | 0x80000000) < (q | 0x80000000))))
        by (bit_vector);
    assert((p & 0x80000000 != 0 && q & 0x80000000 != 0) ==> ((q < p) <==> ((!p) < (!q)))) by (bit_vector);
    assert((p & 0x80000000 != 0 && q & 0x80000000 == 0) ==> ((!p) < (q | 0x80000000))) by (bit_vector);
    assert((p & 0x80000000 == 0 && q & 0x80000000 != 0) ==> ((!q) < (p | 0x80000000))) by (bit_vector);
    lemma_key_order_u32(spec_f32_flip(p), spec_f32_flip(q));
}

impl EncodeKey for F32Key {
    open spec fn encoding(&self) -> Seq<u8> {
        spec_u32_be(spec_f32_flip(self.bits))
    }

    open spec fn encodable(&self) -> bool {
        true
    }

    fn encode(&self) -> (r: Vec<u8>)
        ensures
            r@ == self.encoding(),
            self.encodable(),
    {
        let p = self.bits;
        let flipped: u32 = if p & 0x80000000 == 0 {
            p | 0x80000000
        } else {
            !p
        };
        flipped.encode()
    }
}

impl DecodeKey for F32Key {
    type Error = DataTooShort;

    open spec fn decodable(bytes: Seq<u8>) -> bool {
        bytes.len() >= 4
    }

    open spec fn spec_consumed(bytes: Seq<u8>) -> int {
        4
    }

    open spec fn decodes_to(bytes: Seq<u8>, v: &F32Key) -> bool {
        v.bits == spec_f32_unflip(spec_u32_from_be(bytes))
    }

    open spec fn self_delimiting() -> bool {
        true
    }

    open spec fn spec_error_matches(bytes: Seq<u8>, e: &DataTooShort) -> bool {
        *e == (DataTooShort { expected: 4, actual: bytes.len() as usize })
    }

    proof fn lemma_consumed_bounds(bytes: Seq<u8>) {
    }

    proof fn lemma_decode_encode(v: F32Key, rest: Seq<u8>) {
        let f = spec_f32_flip(v.bits);
        <u32 as DecodeKey>::lemma_decode_encode(f, rest);
        lemma_f32_flip_unflip(v.bits);
    }

    fn try_decode(bytes: &[u8]) -> (r: Result<(F32Key, &[u8]), DataTooShort>) {
        match <u32 as DecodeKey>::try_decode(bytes) {
            Ok((u, rem)) => {
                let bits: u32 = if u & 0x80000000 != 0 {
                    u ^ 0x80000000
                } else {
                    !u
                };
                Ok((F32Key { bits }, rem))
            },
            Err(e) => Err(e),
        }
    }
}

} // verus!


verus! {

/// A 64-bit IEEE-754 value used as a key, held as its raw bit pattern.
///
/// Floating point itself stays outside the verified codec; callers move
/// between `f64` and `F64Key` with `f64::to_bits` and `f64::from_bits`.
#[derive(Debug, Clone, Copy, PartialEq, Eq, Structural)]
pub struct F64Key {
    pub bits: u64,
}

/// The order-preserving transform of an IEEE-754 bit pattern: a pattern
/// with sign bit clear (non-negative value) gets the sign bit set, and a
/// pattern with sign bit set (negative value) has every bit inverted.
/// Non-negative values then sort above all negative ones, and inverting
/// the negative patterns turns their reversed native order back into
/// numeric order.
pub open spec fn spec_f64_flip(p: u64) -> u64 {
    if p & 0x8000000000000000 == 0 {
        p | 0x8000000000000000
    } else {
        !p
    }
}

/// The inverse of `spec_f64_flip`.
pub open spec fn spec_f64_unflip(q: u64) -> u64 {
    if q & 0x8000000000000000 != 0 {
        q ^ 0x8000000000000000
    } else {
        !q
    }
}

pub proof fn lemma_f64_flip_unflip(p: u64)
    ensures
        spec_f64_unflip(spec_f64_flip(p)) == p,
{
    assert(p & 0x8000000000000000 == 0 ==> ((p | 0x8000000000000000) & 0x8000000000000000 != 0) && ((p | 0x8000000000000000) ^ 0x8000000000000000) == p)
        by (bit_vector);
    assert(p & 0x8000000000000000 != 0 ==> ((!p) & 0x8000000000000000 == 0) && (!(!p)) == p) by (bit_vector);
}

/// Sign-magnitude order on IEEE-754 bit patterns: the order that `<` on
/// the floats themselves gives for non-NaN values, with the negative
/// zero pattern placed just below the positive zero one.
pub open spec fn f64_bits_below(p: u64, q: u64) -> bool {
    if p & 0x8000000000000000 == 0 && q & 0x8000000000000000 == 0 {
        p < q
    } else if p & 0x8000000000000000 != 0 && q & 0x8000000000000000 != 0 {
        q < p
    } else {
        p & 0x8000000000000000 != 0
    }
}

/// Order preservation of the `F64Key` encoding with respect to the
/// sign-magnitude order of the underlying patterns.
pub proof fn lemma_key_order_f64(a: F64Key, b: F64Key)
    ensures
        f64_bits_below(a.bits, b.bits) <==> lex_lt(a.encoding(), b.encoding()),
{
    let p = a.bits;
    let q = b.bits;
    assert((p & 0x8000000000000000 == 0 && q & 0x8000000000000000 == 0) ==> ((p < q) <==> ((p | 0x8000000000000000) < (q | 0x8000000000000000))))
        by (bit_vector);
    assert((p & 0x8000000000000000 != 0 && q & 0x8000000000000000 != 0) ==> ((q < p) <==> ((!p) < (!q)))) by (bit_vector);
    assert((p & 0x8000000000000000 != 0 && q & 0x8000000000000000 == 0) ==> ((!p) < (q | 0x8000000000000000))) by (bit_vector);
    assert((p & 0x8000000000000000 == 0 && q & 0x8000000000000000 != 0) ==> ((!q) < (p | 0x8000000000000000))) by (bit_vector);
    lemma_key_order_u64(spec_f64_flip(p), spec_f64_flip(q));
}

impl EncodeKey for F64Key {
    open spec fn encoding(&self) -> Seq<u8> {
        spec_u64_be(spec_f64_flip(self.bits))
    }

    open spec fn encodable(&self) -> bool {
        true
    }

    fn encode(&self) -> (r: Vec<u8>)
        ensures
            r@ == self.encoding(),
            self.encodable(),
    {
        let p = self.bits;
        let flipped: u64 = if p & 0x8000000000000000 == 0 {
            p | 0x8000000000000000
        } else {
            !p
        };
        flipped.encode()
    }
}

impl DecodeKey for F64Key {
    type Error = DataTooShort;

    open spec fn decodable(bytes: Seq<u8>) -> bool {
        bytes.len() >= 8
    }

    open spec fn spec_consumed(bytes: Seq<u8>) -> int {
        8
    }

    open spec fn decodes_to(bytes: Seq<u8>, v: &F64Key) -> bool {
        v.bits == spec_f64_unflip(spec_u64_from_be(bytes))
    }

    open spec fn self_delimiting() -> bool {
        true
    }

    open spec fn spec_error_matches(bytes: Seq<u8>, e: &DataTooShort) -> bool {
        *e == (DataTooShort { expected: 8, actual: bytes.len() as usize })
    }

    proof fn lemma_consumed_bounds(bytes: Seq<u8>) {
    }

    proof fn lemma_decode_encode(v: F64Key, rest: Seq<u8>) {
        let f = spec_f64_flip(v.bits);
        <u64 as DecodeKey>::lemma_decode_encode(f, rest);
        lemma_f64_flip_unflip(v.bits);
    }

    fn try_decode(bytes: &[u8]) -> (r: Result<(F64Key, &[u8]), DataTooShort>) {
        match <u64 as DecodeKey>::try_decode(bytes) {
            Ok((u, rem)) => {
                let bits: u64 = if u & 0x8000000000000000 != 0 {
                    u ^ 0x8000000000000000
                } else {
                    !u
                };
                Ok((F64Key { bits }, rem))
            },
            Err(e) => Err(e),
        }
    }
}

} // verus!

verus! {

#[verifier::external_type_specification]
#[verifier::external_body]
pub struct ExUtf8Error(core::str::Utf8Error);

/// Why decoding a `String` key failed.
#[derive(Debug)]
pub enum StringDecodeError {
    /// The declared bytes were not valid UTF-8.
    Utf8Error(core::str::Utf8Error),
    /// The buffer ended before the header, or held fewer bytes than the
    /// header declared.
    DataTooShort(DataTooShort),
}

/// Relies on `core::str::from_utf8`: it returns `Ok` exactly when the
/// bytes are valid UTF-8, and the returned string slice is a view of
/// those same bytes.
#[verifier::external_body]
pub(crate) fn try_str_from_utf8(v: &[u8]) -> (r: Result<&str, core::str::Utf8Error>)
    ensures
        match r {
            Ok(s) => vstd::utf8::valid_utf8(v@) && s.spec_bytes() == v@,
            Err(_) => !vstd::utf8::valid_utf8(v@),
        },
{
    core::str::from_utf8(v)
}

impl EncodeKey for String {
    open spec fn encoding(&self) -> Seq<u8> {
        spec_u64_be(vstd::utf8::encode_utf8(self@).len() as u64) + vstd::utf8::encode_utf8(self@)
    }

    open spec fn encodable(&self) -> bool {
        vstd::utf8::encode_utf8(self@).len() < 0x10000000000000000
    }

    fn encode(&self) -> (r: Vec<u8>)
        ensures
            r@ == self.encoding(),
            self.encodable(),
    {
        let sb: &[u8] = self.as_str().as_bytes();
        let len64: u64 = sb.len() as u64;
        let mut r: Vec<u8> = len64.encode();
        let mut data: Vec<u8> = vstd::slice::slice_to_vec(sb);
        r.append(&mut data);
        proof {
            assert(r@ =~= self.encoding());
        }
        r
    }
}

impl DecodeKey for String {
    type Error = StringDecodeError;

    open spec fn decodable(bytes: Seq<u8>) -> bool {
        bytes.len() >= 8 && 8 + (spec_u64_from_be(bytes) as int) <= bytes.len()
            && vstd::utf8::valid_utf8(bytes.subrange(8, 8 + spec_u64_from_be(bytes) as int))
    }

    open spec fn spec_consumed(bytes: Seq<u8>) -> int {
        8 + spec_u64_from_be(bytes) as int
    }

    open spec fn decodes_to(bytes: Seq<u8>, v: &String) -> bool {
        vstd::utf8::encode_utf8(v@) == bytes.subrange(8, 8 + spec_u64_from_be(bytes) as int)
    }

    open spec fn spec_error_matches(bytes: Seq<u8>, e: &StringDecodeError) -> bool {
        match e {
            StringDecodeError::DataTooShort(d) => if bytes.len() < 8 {
                *d == (DataTooShort { expected: 8, actual: bytes.len() as usize })
            } else {
                8 + (spec_u64_from_be(bytes) as int) > bytes.len() && *d == (DataTooShort {
                    expected: spec_u64_from_be(bytes) as usize,
                    actual: (bytes.len() - 8) as usize,
                })
            },
            StringDecodeError::Utf8Error(_) => bytes.len() >= 8 && 8 + (spec_u64_from_be(bytes)
                as int) <= bytes.len() && !vstd::utf8::valid_utf8(
                bytes.subrange(8, 8 + spec_u64_from_be(bytes) as int),
            ),
        }
    }

    open spec fn self_delimiting() -> bool {
        true
    }

    proof fn lemma_consumed_bounds(bytes: Seq<u8>) {
    }

    proof fn lemma_decode_encode(v: String, rest: Seq<u8>) {
        let data = vstd::utf8::encode_utf8(v@);
        let len64 = data.len() as u64;
        let whole = v.encoding() + rest;
        lemma_u64_be_roundtrip(len64);
        assert(spec_u64_from_be(whole) == spec_u64_from_be(spec_u64_be(len64)));
        assert(whole.subrange(8, 8 + data.len() as int) =~= data);
        vstd::utf8::encode_utf8_valid_utf8(v@);
    }

    fn try_decode(bytes: &[u8]) -> (r: Result<(String, &[u8]), StringDecodeError>) {
        let (len64, rest) = match <u64 as DecodeKey>::try_decode(bytes) {
            Ok(x) => x,
            Err(e) => {
                return Err(StringDecodeError::DataTooShort(e));
            },
        };
        if (rest.len() as u64) < len64 {
            return Err(StringDecodeError::DataTooShort(DataTooShort {
                expected: len64 as usize,
                actual: rest.len(),
            }));
        }
        let n = len64 as usize;
        let data = vstd::slice::slice_subrange(rest, 0, n);
        proof {
            assert(data@ =~= bytes@.subrange(8, 8 + len64 as int));
        }
        match try_str_from_utf8(data) {
            Ok(s) => {
                let owned: String = s.to_owned();
                let rem = vstd::slice::slice_subrange(rest, n, rest.len());
                proof {
                    assert(rem@ =~= bytes@.skip(8 + len64 as int));
                }
                Ok((owned, rem))
            },
            Err(e) => Err(StringDecodeError::Utf8Error(e)),
        }
    }
}

} // verus!

verus! {

impl SelfDelimitingKey for () {
    proof fn lemma_self_delimiting() {
    }
}

impl SelfDelimitingKey for u8 {
    proof fn lemma_self_delimiting() {
    }
}

impl SelfDelimitingKey for u16 {
    proof fn lemma_self_delimiting() {
    }
}

impl SelfDelimitingKey for u32 {
    proof fn lemma_self_delimiting() {
    }
}

impl SelfDelimitingKey for u64 {
    proof fn lemma_self_delimiting() {
    }
}

impl SelfDelimitingKey for i8 {
    proof fn lemma_self_delimiting() {
    }
}

impl SelfDelimitingKey for i16 {
    proof fn lemma_self_delimiting() {
    }
}

impl SelfDelimitingKey for i32 {
    proof fn lemma_self_delimiting() {
    }
}

impl SelfDelimitingKey for i64 {
    proof fn lemma_self_delimiting() {
    }
}

impl SelfDelimitingKey for F32Key {
    proof fn lemma_self_delimiting() {
    }
}

impl SelfDelimitingKey for F64Key {
    proof fn lemma_self_delimiting() {
    }
}

impl SelfDelimitingKey for String {
    proof fn lemma_self_delimiting() {
    }
}

} // verus!

verus! {

impl<T: EncodeKey> EncodeKey for Box<T> {
    open spec fn encoding(&self) -> Seq<u8> {
        (**self).encoding()
    }

    open spec fn encodable(&self) -> bool {
        (**self).encodable()
    }

    fn encode(&self) -> (r: Vec<u8>)
        ensures
            r@ == self.encoding(),
            self.encodable(),
    {
        (**self).encode()
    }
}

impl<T: EncodeKey> EncodeKey for std::rc::Rc<T> {
    open spec fn encoding(&self) -> Seq<u8> {
        (**self).encoding()
    }

    open spec fn encodable(&self) -> bool {
        (**self).encodable()
    }

    fn encode(&self) -> (r: Vec<u8>)
        ensures
            r@ == self.encoding(),
            self.encodable(),
    {
        (**self).encode()
    }
}

impl<T: EncodeKey> EncodeKey for std::sync::Arc<T> {
    open spec fn encoding(&self) -> Seq<u8> {
        (**self).encoding()
    }

    open spec fn encodable(&self) -> bool {
        (**self).encodable()
    }

    fn encode(&self) -> (r: Vec<u8>)
        ensures
            r@ == self.encoding(),
            self.encodable(),
    {
        (**self).encode()
    }
}

} // verus!

verus! {

/// Decoding pins the string down to its characters: two strings that a
/// decode of the same buffer may yield are the same text. With the
/// round-trip law this makes `decode(encode(v))` yield exactly `v`.
pub proof fn lemma_string_decode_unique(bytes: Seq<u8>, a: &String, b: &String)
    requires
        <String as DecodeKey>::decodes_to(bytes, a),
        <String as DecodeKey>::decodes_to(bytes, b),
    ensures
        a@ == b@,
{
    vstd::utf8::encode_utf8_decode_utf8(a@);
    vstd::utf8::encode_utf8_decode_utf8(b@);
}

} // verus!

verus! {

impl<const N: usize> EncodeKey for [u8; N] {
    open spec fn encoding(&self) -> Seq<u8> {
        self@
    }

    open spec fn encodable(&self) -> bool {
        true
    }

    fn encode(&self) -> (r: Vec<u8>)
        ensures
            r@ == self.encoding(),
            self.encodable(),
    {
        vstd::slice::slice_to_vec(self.as_slice())
    }
}

impl<const N: usize> DecodeKey for [u8; N] {
    type Error = DataTooShort;

    open spec fn decodable(bytes: Seq<u8>) -> bool {
        bytes.len() >= N
    }

    open spec fn spec_consumed(bytes: Seq<u8>) -> int {
        N as int
    }

    open spec fn decodes_to(bytes: Seq<u8>, v: &[u8; N]) -> bool {
        v@ == bytes.take(N as int)
    }

    open spec fn self_delimiting() -> bool {
        true
    }

    open spec fn spec_error_matches(bytes: Seq<u8>, e: &DataTooShort) -> bool {
        *e == (DataTooShort { expected: N, actual: bytes.len() as usize })
    }

    proof fn lemma_consumed_bounds(bytes: Seq<u8>) {
    }

    proof fn lemma_decode_encode(v: [u8; N], rest: Seq<u8>) {
        assert((v@ + rest).take(N as int) =~= v@);
    }

    fn try_decode(bytes: &[u8]) -> (r: Result<([u8; N], &[u8]), DataTooShort>) {
        if bytes.len() < N {
            return Err(DataTooShort { expected: N, actual: bytes.len() });
        }
        let mut out: [u8; N] = vstd::array::array_fill_for_copy_types(0u8);
        proof {
            vstd::array::axiom_spec_array_fill_for_copy_type::<u8, N>(0u8);
        }
        let mut i: usize = 0;
        while i < N
            invariant
                i <= N,
                bytes@.len() >= N,
                out@.len() == N,
                forall|m: int| 0 <= m < i ==> out@[m] == bytes@[m],
            decreases N - i,
        {
            out[i] = bytes[i];
            i += 1;
        }
        let rem = vstd::slice::slice_subrange(bytes, N, bytes.len());
        proof {
            assert(out@ =~= bytes@.take(N as int));
            assert(rem@ =~= bytes@.skip(N as int));
        }
        Ok((out, rem))
    }
}

impl<const N: usize> SelfDelimitingKey for [u8; N] {
    proof fn lemma_self_delimiting() {
    }
}

} // verus!

verus! {

impl<'a> EncodeKey for &'a str {
    open spec fn encoding(&self) -> Seq<u8> {
        spec_u64_be(vstd::utf8::encode_utf8((*self)@).len() as u64) + vstd::utf8::encode_utf8(
            (*self)@,
        )
    }

    open spec fn encodable(&self) -> bool {
        vstd::utf8::encode_utf8((*self)@).len() < 0x10000000000000000
    }

    fn encode(&self) -> (r: Vec<u8>)
        ensures
            r@ == self.encoding(),
            self.encodable(),
    {
        let sb: &[u8] = self.as_bytes();
        let len64: u64 = sb.len() as u64;
        let mut r: Vec<u8> = len64.encode();
        let mut data: Vec<u8> = vstd::slice::slice_to_vec(sb);
        r.append(&mut data);
        proof {
            assert(r@ =~= self.encoding());
        }
        r
    }
}

} // verus!
