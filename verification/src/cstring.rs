//! A C-style string key: content bytes with no interior `0x00`, encoded
//! as the content followed by a single nul terminator.
//!
//! The terminator makes the key self-delimiting without a length header,
//! so unlike the length-prefixed `String` encoding it keeps content
//! order and works for byte-prefix matching; the price is that the
//! content can hold no nul byte, which the type's invariant enforces.

use vstd::prelude::*;

use crate::key::{DecodeKey, EncodeKey, SelfDelimitingKey};

verus! {

/// The decode failure of a C-style string key: the buffer held no nul
/// terminator.
#[derive(Debug, Clone, Copy, PartialEq, Eq, Structural)]
pub struct MissingNulTerminator;

/// A key holding nul-free content bytes, encoded with a trailing nul.
#[derive(Debug)]
pub struct CStringKey {
    bytes: Vec<u8>,
}

impl Clone for CStringKey {
    fn clone(&self) -> (r: Self)
        ensures
            r.content() == self.content(),
    {
        proof {
            use_type_invariant(self);
        }
        CStringKey { bytes: vstd::slice::slice_to_vec(self.bytes.as_slice()) }
    }
}

/// The position of the first nul byte at or after `i`, or the length
/// when there is none.
pub open spec fn spec_first_nul(bytes: Seq<u8>, i: int) -> int
    decreases bytes.len() - i,
{
    if i >= bytes.len() {
        i
    } else if bytes[i] == 0 {
        i
    } else {
        spec_first_nul(bytes, i + 1)
    }
}

proof fn lemma_first_nul_bounds(bytes: Seq<u8>, i: int)
    requires
        0 <= i <= bytes.len(),
    ensures
        i <= spec_first_nul(bytes, i) <= bytes.len(),
        spec_first_nul(bytes, i) < bytes.len() ==> bytes[spec_first_nul(bytes, i)] == 0,
        forall|m: int| i <= m < spec_first_nul(bytes, i) ==> bytes[m] != 0,
    decreases bytes.len() - i,
{
    if i < bytes.len() && bytes[i] != 0 {
        lemma_first_nul_bounds(bytes, i + 1);
    }
}

/// Scanning for the first nul ignores a nul-free prefix.
proof fn lemma_first_nul_common_prefix(bytes: Seq<u8>, i: int)
    requires
        0 <= i <= bytes.len(),
        forall|m: int| 0 <= m < i ==> bytes[m] != 0,
    ensures
        spec_first_nul(bytes, 0) == spec_first_nul(bytes, i),
    decreases i,
{
    if i > 0 {
        lemma_first_nul_common_prefix(bytes, i - 1);
    }
}

impl CStringKey {
    #[verifier::type_invariant]
    spec fn type_inv(self) -> bool {
        forall|i: int| 0 <= i < self.bytes@.len() ==> self.bytes@[i] != 0
    }

    /// The content bytes, without the terminator.
    pub closed spec fn content(&self) -> Seq<u8> {
        self.bytes@
    }

    /// Wrap content bytes as a key, or refuse them when they hold a nul
    /// byte, which the encoding could not tell from the terminator.
    pub fn new(bytes: Vec<u8>) -> (r: Option<CStringKey>)
        ensures
            match r {
                Some(k) => k.content() == bytes@ && forall|i: int|
                    0 <= i < bytes@.len() ==> bytes@[i] != 0,
                None => exists|i: int| 0 <= i < bytes@.len() && bytes@[i] == 0,
            },
    {
        let n = bytes.len();
        let mut i: usize = 0;
        while i < n
            invariant
                i <= n,
                n == bytes@.len(),
                forall|m: int| 0 <= m < i ==> bytes@[m] != 0,
            decreases n - i,
        {
            if bytes[i] == 0 {
                return None;
            }
            i += 1;
        }
        Some(CStringKey { bytes })
    }

    /// The content bytes of this key.
    pub fn as_bytes(&self) -> (r: &Vec<u8>)
        ensures
            r@ == self.content(),
    {
        &self.bytes
    }
}

impl EncodeKey for CStringKey {
    open spec fn encoding(&self) -> Seq<u8> {
        self.content() + seq![0u8]
    }

    open spec fn encodable(&self) -> bool {
        forall|i: int| 0 <= i < self.content().len() ==> self.content()[i] != 0
    }

    fn encode(&self) -> (r: Vec<u8>)
        ensures
            r@ == self.encoding(),
            self.encodable(),
    {
        proof {
            use_type_invariant(self);
        }
        let mut r = vstd::slice::slice_to_vec(self.bytes.as_slice());
        r.push(0);
        proof {
            assert(r@ =~= self.encoding());
        }
        r
    }
}

impl DecodeKey for CStringKey {
    type Error = MissingNulTerminator;

    open spec fn decodable(bytes: Seq<u8>) -> bool {
        spec_first_nul(bytes, 0) < bytes.len()
    }

    open spec fn spec_consumed(bytes: Seq<u8>) -> int {
        spec_first_nul(bytes, 0) + 1
    }

    open spec fn decodes_to(bytes: Seq<u8>, v: &CStringKey) -> bool {
        v.content() == bytes.take(spec_first_nul(bytes, 0))
    }

    open spec fn self_delimiting() -> bool {
        true
    }

    open spec fn spec_error_matches(bytes: Seq<u8>, e: &MissingNulTerminator) -> bool {
        *e == MissingNulTerminator
    }

    proof fn lemma_consumed_bounds(bytes: Seq<u8>) {
        lemma_first_nul_bounds(bytes, 0);
    }

    proof fn lemma_decode_encode(v: CStringKey, rest: Seq<u8>) {
        let whole = v.encoding() + rest;
        let n = v.content().len() as int;
        assert(whole[n] == 0);
        lemma_first_nul_common_prefix(whole, n);
        assert(whole.take(n) =~= v.content());
    }

    fn try_decode(bytes: &[u8]) -> (r: Result<(CStringKey, &[u8]), MissingNulTerminator>) {
        let n = bytes.len();
        let mut i: usize = 0;
        while i < n
            invariant
                i <= n,
                n == bytes@.len(),
                forall|m: int| 0 <= m < i ==> bytes@[m] != 0,
            decreases n - i,
        {
            if bytes[i] == 0 {
                proof {
                    lemma_first_nul_common_prefix(bytes@, i as int);
                }
                let content = vstd::slice::slice_to_vec(
                    vstd::slice::slice_subrange(bytes, 0, i),
                );
                let rem = vstd::slice::slice_subrange(bytes, i + 1, n);
                proof {
                    assert(content@ =~= bytes@.take(i as int));
                    assert(rem@ =~= bytes@.skip(i as int + 1));
                }
                return Ok((CStringKey { bytes: content }, rem));
            }
            i += 1;
        }
        proof {
            lemma_first_nul_common_prefix(bytes@, n as int);
        }
        Err(MissingNulTerminator)
    }
}

impl SelfDelimitingKey for CStringKey {
    proof fn lemma_self_delimiting() {
    }
}

} // verus!
