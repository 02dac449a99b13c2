//! The greedy key wrapper: it encodes with no length header and decodes
//! by consuming every remaining byte.
//!
//! Because decoding takes the whole remainder, a greedy key is not
//! self-delimiting: it is only sound as the sole key or the last field
//! of a composite key, which the `SelfDelimitingKey` bounds on the
//! composite decoders enforce. In exchange its encoding is plain
//! content, which makes simple string prefix searches work byte for
//! byte.

use vstd::prelude::*;

use crate::key::{try_str_from_utf8, DecodeKey, EncodeKey};

verus! {

/// A key that encodes as its bare content and decodes by consuming all
/// remaining bytes.
#[derive(Debug, Clone, Copy)]
pub struct GreedyKey<T>(pub T);

impl<T> From<T> for GreedyKey<T> {
    fn from(value: T) -> (r: Self)
        ensures
            r == GreedyKey(value),
    {
        GreedyKey(value)
    }
}

impl<T> vstd::std_specs::convert::FromSpecImpl<T> for GreedyKey<T> {
    open spec fn obeys_from_spec() -> bool {
        true
    }

    open spec fn from_spec(value: T) -> Self {
        GreedyKey(value)
    }
}

impl EncodeKey for GreedyKey<Vec<u8>> {
    open spec fn encoding(&self) -> Seq<u8> {
        self.0@
    }

    open spec fn encodable(&self) -> bool {
        true
    }

    fn encode(&self) -> (r: Vec<u8>)
        ensures
            r@ == self.encoding(),
            self.encodable(),
    {
        vstd::slice::slice_to_vec(self.0.as_slice())
    }
}

impl DecodeKey for GreedyKey<Vec<u8>> {
    type Error = core::convert::Infallible;

    open spec fn decodable(bytes: Seq<u8>) -> bool {
        true
    }

    open spec fn spec_consumed(bytes: Seq<u8>) -> int {
        bytes.len() as int
    }

    open spec fn decodes_to(bytes: Seq<u8>, v: &GreedyKey<Vec<u8>>) -> bool {
        v.0@ == bytes
    }

    open spec fn self_delimiting() -> bool {
        false
    }

    open spec fn spec_error_matches(bytes: Seq<u8>, e: &Self::Error) -> bool {
        false
    }

    proof fn lemma_consumed_bounds(bytes: Seq<u8>) {
    }

    proof fn lemma_decode_encode(v: GreedyKey<Vec<u8>>, rest: Seq<u8>) {
        assert(v.encoding() + rest =~= v.0@);
    }

    fn try_decode(bytes: &[u8]) -> (r: Result<(GreedyKey<Vec<u8>>, &[u8]), Self::Error>) {
        let data = vstd::slice::slice_to_vec(bytes);
        let rem = vstd::slice::slice_subrange(bytes, bytes.len(), bytes.len());
        proof {
            assert(rem@ =~= bytes@.skip(bytes@.len() as int));
        }
        Ok((GreedyKey(data), rem))
    }
}

impl EncodeKey for GreedyKey<String> {
    open spec fn encoding(&self) -> Seq<u8> {
        vstd::utf8::encode_utf8(self.0@)
    }

    open spec fn encodable(&self) -> bool {
        true
    }

    fn encode(&self) -> (r: Vec<u8>)
        ensures
            r@ == self.encoding(),
            self.encodable(),
    {
        vstd::slice::slice_to_vec(self.0.as_str().as_bytes())
    }
}

impl DecodeKey for GreedyKey<String> {
    type Error = core::str::Utf8Error;

    open spec fn decodable(bytes: Seq<u8>) -> bool {
        vstd::utf8::valid_utf8(bytes)
    }

    open spec fn spec_consumed(bytes: Seq<u8>) -> int {
        bytes.len() as int
    }

    open spec fn decodes_to(bytes: Seq<u8>, v: &GreedyKey<String>) -> bool {
        vstd::utf8::encode_utf8(v.0@) == bytes
    }

    open spec fn self_delimiting() -> bool {
        false
    }

    open spec fn spec_error_matches(bytes: Seq<u8>, e: &core::str::Utf8Error) -> bool {
        true
    }

    proof fn lemma_consumed_bounds(bytes: Seq<u8>) {
    }

    proof fn lemma_decode_encode(v: GreedyKey<String>, rest: Seq<u8>) {
        assert(v.encoding() + rest =~= vstd::utf8::encode_utf8(v.0@));
        vstd::utf8::encode_utf8_valid_utf8(v.0@);
    }

    fn try_decode(bytes: &[u8]) -> (r: Result<(GreedyKey<String>, &[u8]), Self::Error>) {
        match try_str_from_utf8(bytes) {
            Ok(s) => {
                let rem = vstd::slice::slice_subrange(bytes, bytes.len(), bytes.len());
                proof {
                    assert(rem@ =~= bytes@.skip(bytes@.len() as int));
                }
                Ok((GreedyKey(s.to_owned()), rem))
            },
            Err(e) => Err(e),
        }
    }
}

} // verus!

verus! {

impl<'a> EncodeKey for GreedyKey<&'a str> {
    open spec fn encoding(&self) -> Seq<u8> {
        vstd::utf8::encode_utf8(self.0@)
    }

    open spec fn encodable(&self) -> bool {
        true
    }

    fn encode(&self) -> (r: Vec<u8>)
        ensures
            r@ == self.encoding(),
            self.encodable(),
    {
        vstd::slice::slice_to_vec(self.0.as_bytes())
    }
}

impl<'a> crate::key::PrefixKey<GreedyKey<String>> for GreedyKey<&'a str> {
    open spec fn completes(&self, k: &GreedyKey<String>) -> bool {
        vstd::utf8::encode_utf8(self.0@).is_prefix_of(vstd::utf8::encode_utf8(k.0@))
    }

    proof fn lemma_prefix_encoding(&self, k: &GreedyKey<String>) {
    }
}

} // verus!
