//! Composite keys: fixed-arity tuples of encodable fields, and
//! variable-length vectors of elements.
//!
//! A tuple encodes as the concatenation of its fields' encodings in
//! declared order, and every non-empty strict prefix of its field list
//! is a valid prefix type of the full tuple. Every field but the last
//! must be self-delimiting, so that decoding can find where one field
//! ends and the next begins.

use vstd::prelude::*;

use crate::DataTooShort;
use crate::key::{DecodeKey, EncodeKey, PrefixKey, SelfDelimitingKey};
use crate::key::{lemma_u64_be_roundtrip, spec_u64_be, spec_u64_from_be};

verus! {

/// Why decoding a pair key failed: the field position tags the first
/// failure, and decoding stops there.
#[derive(Debug)]
pub enum Tuple2DecodeError<EA, EB> {
    DecodeAError(EA),
    DecodeBError(EB),
}

/// Why decoding a triple key failed: the field position tags the first
/// failure, and decoding stops there.
#[derive(Debug)]
pub enum Tuple3DecodeError<EA, EB, EC> {
    DecodeAError(EA),
    DecodeBError(EB),
    DecodeCError(EC),
}

impl<A: EncodeKey> EncodeKey for (A,) {
    open spec fn encoding(&self) -> Seq<u8> {
        self.0.encoding()
    }

    open spec fn encodable(&self) -> bool {
        self.0.encodable()
    }

    fn encode(&self) -> (r: Vec<u8>)
        ensures
            r@ == self.encoding(),
            self.encodable(),
    {
        self.0.encode()
    }
}

impl<A: DecodeKey> DecodeKey for (A,) {
    type Error = A::Error;

    open spec fn decodable(bytes: Seq<u8>) -> bool {
        A::decodable(bytes)
    }

    open spec fn spec_consumed(bytes: Seq<u8>) -> int {
        A::spec_consumed(bytes)
    }

    open spec fn decodes_to(bytes: Seq<u8>, v: &(A,)) -> bool {
        A::decodes_to(bytes, &v.0)
    }

    open spec fn self_delimiting() -> bool {
        A::self_delimiting()
    }

    open spec fn spec_error_matches(bytes: Seq<u8>, e: &Self::Error) -> bool {
        A::spec_error_matches(bytes, e)
    }

    proof fn lemma_consumed_bounds(bytes: Seq<u8>) {
        A::lemma_consumed_bounds(bytes);
    }

    proof fn lemma_decode_encode(v: (A,), rest: Seq<u8>) {
        A::lemma_decode_encode(v.0, rest);
    }

    fn try_decode(bytes: &[u8]) -> (r: Result<((A,), &[u8]), Self::Error>) {
        match A::try_decode(bytes) {
            Ok((a, rem)) => Ok(((a,), rem)),
            Err(e) => Err(e),
        }
    }
}

impl<A: SelfDelimitingKey> SelfDelimitingKey for (A,) {
    proof fn lemma_self_delimiting() {
        A::lemma_self_delimiting();
    }
}

impl<A: EncodeKey, B: EncodeKey> EncodeKey for (A, B) {
    open spec fn encoding(&self) -> Seq<u8> {
        self.0.encoding() + self.1.encoding()
    }

    open spec fn encodable(&self) -> bool {
        self.0.encodable() && self.1.encodable()
    }

    fn encode(&self) -> (r: Vec<u8>)
        ensures
            r@ == self.encoding(),
            self.encodable(),
    {
        let mut r = self.0.encode();
        let mut tail = self.1.encode();
        r.append(&mut tail);
        r
    }
}

impl<A: SelfDelimitingKey, B: DecodeKey> DecodeKey for (A, B) {
    type Error = Tuple2DecodeError<A::Error, B::Error>;

    open spec fn decodable(bytes: Seq<u8>) -> bool {
        A::decodable(bytes) && B::decodable(bytes.skip(A::spec_consumed(bytes)))
    }

    open spec fn spec_consumed(bytes: Seq<u8>) -> int {
        A::spec_consumed(bytes) + B::spec_consumed(bytes.skip(A::spec_consumed(bytes)))
    }

    open spec fn decodes_to(bytes: Seq<u8>, v: &(A, B)) -> bool {
        A::decodes_to(bytes, &v.0) && B::decodes_to(bytes.skip(A::spec_consumed(bytes)), &v.1)
    }

    open spec fn self_delimiting() -> bool {
        A::self_delimiting() && B::self_delimiting()
    }

    open spec fn spec_error_matches(bytes: Seq<u8>, e: &Self::Error) -> bool {
        match e {
            Tuple2DecodeError::DecodeAError(ea) => !A::decodable(bytes) && A::spec_error_matches(
                bytes,
                ea,
            ),
            Tuple2DecodeError::DecodeBError(eb) => A::decodable(bytes) && !B::decodable(
                bytes.skip(A::spec_consumed(bytes)),
            ) && B::spec_error_matches(bytes.skip(A::spec_consumed(bytes)), eb),
        }
    }

    proof fn lemma_consumed_bounds(bytes: Seq<u8>) {
        A::lemma_consumed_bounds(bytes);
        B::lemma_consumed_bounds(bytes.skip(A::spec_consumed(bytes)));
    }

    proof fn lemma_decode_encode(v: (A, B), rest: Seq<u8>) {
        let e0 = v.0.encoding();
        let e1 = v.1.encoding();
        let whole = v.encoding() + rest;
        A::lemma_self_delimiting();
        assert(whole =~= e0 + (e1 + rest));
        A::lemma_decode_encode(v.0, e1 + rest);
        B::lemma_decode_encode(v.1, rest);
        assert(whole.skip(e0.len() as int) =~= e1 + rest);
    }

    fn try_decode(bytes: &[u8]) -> (r: Result<((A, B), &[u8]), Self::Error>) {
        let (a, rem) = match A::try_decode(bytes) {
            Ok(x) => x,
            Err(e) => {
                return Err(Tuple2DecodeError::DecodeAError(e));
            },
        };
        match B::try_decode(rem) {
            Ok((b, rem2)) => {
                proof {
                    assert(bytes@.skip(A::spec_consumed(bytes@)).skip(
                        B::spec_consumed(bytes@.skip(A::spec_consumed(bytes@))),
                    ) =~= bytes@.skip(<(A, B) as DecodeKey>::spec_consumed(bytes@)));
                }
                Ok(((a, b), rem2))
            },
            Err(e) => Err(Tuple2DecodeError::DecodeBError(e)),
        }
    }
}

impl<A: SelfDelimitingKey, B: SelfDelimitingKey> SelfDelimitingKey for (A, B) {
    proof fn lemma_self_delimiting() {
        A::lemma_self_delimiting();
        B::lemma_self_delimiting();
    }
}

impl<A: EncodeKey, B: EncodeKey, C: EncodeKey> EncodeKey for (A, B, C) {
    open spec fn encoding(&self) -> Seq<u8> {
        self.0.encoding() + self.1.encoding() + self.2.encoding()
    }

    open spec fn encodable(&self) -> bool {
        self.0.encodable() && self.1.encodable() && self.2.encodable()
    }

    fn encode(&self) -> (r: Vec<u8>)
        ensures
            r@ == self.encoding(),
            self.encodable(),
    {
        let mut r = self.0.encode();
        let mut mid = self.1.encode();
        let mut tail = self.2.encode();
        r.append(&mut mid);
        r.append(&mut tail);
        r
    }
}

impl<A: SelfDelimitingKey, B: SelfDelimitingKey, C: DecodeKey> DecodeKey for (A, B, C) {
    type Error = Tuple3DecodeError<A::Error, B::Error, C::Error>;

    open spec fn decodable(bytes: Seq<u8>) -> bool {
        A::decodable(bytes) && <(B, C) as DecodeKey>::decodable(bytes.skip(A::spec_consumed(bytes)))
    }

    open spec fn spec_consumed(bytes: Seq<u8>) -> int {
        A::spec_consumed(bytes) + <(B, C) as DecodeKey>::spec_consumed(
            bytes.skip(A::spec_consumed(bytes)),
        )
    }

    open spec fn decodes_to(bytes: Seq<u8>, v: &(A, B, C)) -> bool {
        A::decodes_to(bytes, &v.0) && B::decodes_to(bytes.skip(A::spec_consumed(bytes)), &v.1)
            && C::decodes_to(
            bytes.skip(A::spec_consumed(bytes)).skip(
                B::spec_consumed(bytes.skip(A::spec_consumed(bytes))),
            ),
            &v.2,
        )
    }

    open spec fn self_delimiting() -> bool {
        A::self_delimiting() && B::self_delimiting() && C::self_delimiting()
    }

    open spec fn spec_error_matches(bytes: Seq<u8>, e: &Self::Error) -> bool {
        match e {
            Tuple3DecodeError::DecodeAError(ea) => !A::decodable(bytes) && A::spec_error_matches(
                bytes,
                ea,
            ),
            Tuple3DecodeError::DecodeBError(eb) => A::decodable(bytes) && !B::decodable(
                bytes.skip(A::spec_consumed(bytes)),
            ) && B::spec_error_matches(bytes.skip(A::spec_consumed(bytes)), eb),
            Tuple3DecodeError::DecodeCError(ec) => A::decodable(bytes) && B::decodable(
                bytes.skip(A::spec_consumed(bytes)),
            ) && !C::decodable(
                bytes.skip(A::spec_consumed(bytes)).skip(
                    B::spec_consumed(bytes.skip(A::spec_consumed(bytes))),
                ),
            ) && C::spec_error_matches(
                bytes.skip(A::spec_consumed(bytes)).skip(
                    B::spec_consumed(bytes.skip(A::spec_consumed(bytes))),
                ),
                ec,
            ),
        }
    }

    proof fn lemma_consumed_bounds(bytes: Seq<u8>) {
        A::lemma_consumed_bounds(bytes);
        <(B, C) as DecodeKey>::lemma_consumed_bounds(bytes.skip(A::spec_consumed(bytes)));
    }

    proof fn lemma_decode_encode(v: (A, B, C), rest: Seq<u8>) {
        let e0 = v.0.encoding();
        let e1 = v.1.encoding();
        let e2 = v.2.encoding();
        let whole = v.encoding() + rest;
        A::lemma_self_delimiting();
        B::lemma_self_delimiting();
        assert(whole =~= e0 + (e1 + (e2 + rest)));
        A::lemma_decode_encode(v.0, e1 + (e2 + rest));
        B::lemma_decode_encode(v.1, e2 + rest);
        C::lemma_decode_encode(v.2, rest);
        assert(whole.skip(e0.len() as int) =~= e1 + (e2 + rest));
        assert((e1 + (e2 + rest)).skip(e1.len() as int) =~= e2 + rest);
    }

    fn try_decode(bytes: &[u8]) -> (r: Result<((A, B, C), &[u8]), Self::Error>) {
        let (a, rem) = match A::try_decode(bytes) {
            Ok(x) => x,
            Err(e) => {
                return Err(Tuple3DecodeError::DecodeAError(e));
            },
        };
        let (b, rem2) = match B::try_decode(rem) {
            Ok(x) => x,
            Err(e) => {
                return Err(Tuple3DecodeError::DecodeBError(e));
            },
        };
        match C::try_decode(rem2) {
            Ok((c, rem3)) => {
                proof {
                    let c0 = A::spec_consumed(bytes@);
                    let c1 = B::spec_consumed(bytes@.skip(c0));
                    let c2 = C::spec_consumed(bytes@.skip(c0).skip(c1));
                    assert(bytes@.skip(c0).skip(c1).skip(c2) =~= bytes@.skip(c0 + c1 + c2));
                }
                Ok(((a, b, c), rem3))
            },
            Err(e) => Err(Tuple3DecodeError::DecodeCError(e)),
        }
    }
}

impl<A: SelfDelimitingKey, B: SelfDelimitingKey, C: SelfDelimitingKey> SelfDelimitingKey for (
    A,
    B,
    C,
) {
    proof fn lemma_self_delimiting() {
        A::lemma_self_delimiting();
        B::lemma_self_delimiting();
        C::lemma_self_delimiting();
    }
}

impl<A: EncodeKey, B: EncodeKey> PrefixKey<(A, B)> for (A,) {
    open spec fn completes(&self, k: &(A, B)) -> bool {
        self.0 == k.0
    }

    proof fn lemma_prefix_encoding(&self, k: &(A, B)) {
        assert(k.encoding().subrange(0, self.encoding().len() as int) =~= self.encoding());
    }
}

impl<A: EncodeKey, B: EncodeKey, C: EncodeKey> PrefixKey<(A, B, C)> for (A,) {
    open spec fn completes(&self, k: &(A, B, C)) -> bool {
        self.0 == k.0
    }

    proof fn lemma_prefix_encoding(&self, k: &(A, B, C)) {
        assert(k.encoding().subrange(0, self.encoding().len() as int) =~= self.encoding());
    }
}

impl<A: EncodeKey, B: EncodeKey, C: EncodeKey> PrefixKey<(A, B, C)> for (A, B) {
    open spec fn completes(&self, k: &(A, B, C)) -> bool {
        self.0 == k.0 && self.1 == k.1
    }

    proof fn lemma_prefix_encoding(&self, k: &(A, B, C)) {
        assert(k.encoding().subrange(0, self.encoding().len() as int) =~= self.encoding());
    }
}

} // verus!

verus! {

/// Why decoding a vector key failed: its count header, or the first
/// element that would not decode.
#[derive(Debug)]
pub enum VecDecodeError<E> {
    /// The buffer ended before the count header.
    HeaderError(DataTooShort),
    /// An element failed to decode; decoding stopped there.
    ElementError(E),
}

/// The concatenation of the encodings of a sequence of values.
pub open spec fn encodings_concat<T: EncodeKey>(s: Seq<T>) -> Seq<u8>
    decreases s.len(),
{
    if s.len() == 0 {
        Seq::empty()
    } else {
        s[0].encoding() + encodings_concat(s.drop_first())
    }
}

/// Whether `n` elements decode one after the other from the front of
/// `bytes`.
pub open spec fn elems_decodable<T: DecodeKey>(bytes: Seq<u8>, n: int) -> bool
    decreases n,
{
    if n <= 0 {
        true
    } else {
        T::decodable(bytes) && elems_decodable::<T>(bytes.skip(T::spec_consumed(bytes)), n - 1)
    }
}

/// How many bytes decoding `n` elements consumes.
pub open spec fn elems_consumed<T: DecodeKey>(bytes: Seq<u8>, n: int) -> int
    decreases n,
{
    if n <= 0 {
        0
    } else {
        T::spec_consumed(bytes) + elems_consumed::<T>(
            bytes.skip(T::spec_consumed(bytes)),
            n - 1,
        )
    }
}

/// Whether decoding elements from the front of `bytes` yields exactly
/// the values of `s`, in order.
pub open spec fn elems_decode_to<T: DecodeKey>(bytes: Seq<u8>, s: Seq<T>) -> bool
    decreases s.len(),
{
    s.len() == 0 || (T::decodes_to(bytes, &s[0]) && elems_decode_to::<T>(
        bytes.skip(T::spec_consumed(bytes)),
        s.drop_first(),
    ))
}

proof fn lemma_encodings_concat_push<T: EncodeKey>(s: Seq<T>, e: T)
    ensures
        encodings_concat(s.push(e)) == encodings_concat(s) + e.encoding(),
    decreases s.len(),
{
    if s.len() == 0 {
        assert(s.push(e)[0] == e);
        assert(s.push(e).drop_first() =~= Seq::<T>::empty());
        assert(encodings_concat(s.push(e)) == e.encoding() + encodings_concat(
            s.push(e).drop_first(),
        ));
        assert(encodings_concat(s.push(e).drop_first()) =~= Seq::<u8>::empty());
        assert(encodings_concat(s.push(e)) =~= encodings_concat(s) + e.encoding());
    } else {
        assert(s.push(e)[0] == s[0]);
        assert(s.push(e).drop_first() =~= s.drop_first().push(e));
        lemma_encodings_concat_push(s.drop_first(), e);
        assert(encodings_concat(s.push(e)) == s[0].encoding() + encodings_concat(
            s.drop_first().push(e),
        ));
        assert(encodings_concat(s.push(e)) =~= encodings_concat(s) + e.encoding());
    }
}

/// Decoding `n` elements consumes between none and all of the buffer.
proof fn lemma_elems_consumed_bounds<T: DecodeKey>(b: Seq<u8>, n: int)
    requires
        elems_decodable::<T>(b, n),
    ensures
        0 <= elems_consumed::<T>(b, n) <= b.len(),
    decreases n,
{
    if n > 0 {
        T::lemma_consumed_bounds(b);
        lemma_elems_consumed_bounds::<T>(b.skip(T::spec_consumed(b)), n - 1);
    }
}

proof fn lemma_elems_round_trip<T: SelfDelimitingKey>(s: Seq<T>, rest: Seq<u8>)
    requires
        forall|i: int| 0 <= i < s.len() ==> s[i].encodable(),
    ensures
        elems_decodable::<T>(encodings_concat(s) + rest, s.len() as int),
        elems_consumed::<T>(encodings_concat(s) + rest, s.len() as int) == encodings_concat(
            s,
        ).len(),
        elems_decode_to::<T>(encodings_concat(s) + rest, s),
    decreases s.len(),
{
    T::lemma_self_delimiting();
    if s.len() > 0 {
        let tail = encodings_concat(s.drop_first()) + rest;
        assert(encodings_concat(s) + rest =~= s[0].encoding() + tail);
        T::lemma_decode_encode(s[0], tail);
        assert(forall|i: int| 0 <= i < s.len() - 1 ==> s.drop_first()[i] == s[i + 1]);
        lemma_elems_round_trip::<T>(s.drop_first(), rest);
        assert((encodings_concat(s) + rest).skip(s[0].encoding().len() as int) =~= tail);
    }
}

proof fn lemma_elems_extend<T: DecodeKey>(b: Seq<u8>, s: Seq<T>, e: T)
    requires
        elems_decodable::<T>(b, s.len() as int),
        elems_decode_to::<T>(b, s),
        T::decodable(b.skip(elems_consumed::<T>(b, s.len() as int))),
        T::decodes_to(b.skip(elems_consumed::<T>(b, s.len() as int)), &e),
    ensures
        elems_decodable::<T>(b, s.len() as int + 1),
        elems_consumed::<T>(b, s.len() as int + 1) == elems_consumed::<T>(b, s.len() as int)
            + T::spec_consumed(b.skip(elems_consumed::<T>(b, s.len() as int))),
        elems_decode_to::<T>(b, s.push(e)),
    decreases s.len(),
{
    if s.len() == 0 {
        assert(b.skip(0) =~= b);
        T::lemma_consumed_bounds(b);
        assert(s.push(e)[0] == e);
        assert(s.push(e).drop_first() =~= Seq::<T>::empty());
        assert(elems_decodable::<T>(b.skip(T::spec_consumed(b)), 0));
        assert(elems_consumed::<T>(b.skip(T::spec_consumed(b)), 0) == 0);
        assert(elems_decode_to::<T>(b.skip(T::spec_consumed(b)), s.push(e).drop_first()));
    } else {
        let c0 = T::spec_consumed(b);
        T::lemma_consumed_bounds(b);
        let b1 = b.skip(c0);
        let ec1 = elems_consumed::<T>(b1, s.len() - 1);
        lemma_elems_consumed_bounds::<T>(b1, s.len() - 1);
        assert(b.skip(c0 + ec1) =~= b1.skip(ec1));
        assert(forall|i: int| 0 <= i < s.len() - 1 ==> s.drop_first()[i] == s[i + 1]);
        lemma_elems_extend::<T>(b1, s.drop_first(), e);
        assert(s.push(e)[0] == s[0]);
        assert(s.push(e).drop_first() =~= s.drop_first().push(e));
    }
}

proof fn lemma_elems_fail<T: DecodeKey>(b: Seq<u8>, i: int, n: int)
    requires
        0 <= i < n,
        elems_decodable::<T>(b, i),
        !T::decodable(b.skip(elems_consumed::<T>(b, i))),
    ensures
        !elems_decodable::<T>(b, n),
    decreases i,
{
    if i == 0 {
        assert(b.skip(0) =~= b);
    } else {
        let c0 = T::spec_consumed(b);
        T::lemma_consumed_bounds(b);
        let b1 = b.skip(c0);
        let ec1 = elems_consumed::<T>(b1, i - 1);
        lemma_elems_consumed_bounds::<T>(b1, i - 1);
        assert(b.skip(c0 + ec1) =~= b1.skip(ec1));
        lemma_elems_fail::<T>(b1, i - 1, n - 1);
    }
}

impl<T: EncodeKey> EncodeKey for Vec<T> {
    open spec fn encoding(&self) -> Seq<u8> {
        spec_u64_be(self@.len() as u64) + encodings_concat(self@)
    }

    open spec fn encodable(&self) -> bool {
        forall|i: int| 0 <= i < self@.len() ==> self@[i].encodable()
    }

    fn encode(&self) -> (r: Vec<u8>)
        ensures
            r@ == self.encoding(),
            self.encodable(),
    {
        let len64: u64 = self.len() as u64;
        let mut r: Vec<u8> = len64.encode();
        let n = self.len();
        let mut i: usize = 0;
        proof {
            assert(self@.take(0) =~= Seq::<T>::empty());
        }
        while i < n
            invariant
                i <= n,
                n == self@.len(),
                len64 == self@.len() as u64,
                r@ == spec_u64_be(len64) + encodings_concat(self@.take(i as int)),
                forall|m: int| 0 <= m < i ==> self@[m].encodable(),
            decreases n - i,
        {
            let ghost before = self@.take(i as int);
            let mut enc = self[i].encode();
            r.append(&mut enc);
            proof {
                lemma_encodings_concat_push(before, self@[i as int]);
                assert(before.push(self@[i as int]) =~= self@.take(i as int + 1));
            }
            i += 1;
        }
        proof {
            assert(self@.take(n as int) =~= self@);
        }
        r
    }
}

impl<T: SelfDelimitingKey> DecodeKey for Vec<T> {
    type Error = VecDecodeError<T::Error>;

    open spec fn decodable(bytes: Seq<u8>) -> bool {
        bytes.len() >= 8 && elems_decodable::<T>(bytes.skip(8), spec_u64_from_be(bytes) as int)
    }

    open spec fn spec_consumed(bytes: Seq<u8>) -> int {
        8 + elems_consumed::<T>(bytes.skip(8), spec_u64_from_be(bytes) as int)
    }

    open spec fn decodes_to(bytes: Seq<u8>, v: &Vec<T>) -> bool {
        v@.len() == spec_u64_from_be(bytes) as int && elems_decode_to::<T>(bytes.skip(8), v@)
    }

    open spec fn self_delimiting() -> bool {
        T::self_delimiting()
    }

    open spec fn spec_error_matches(bytes: Seq<u8>, e: &Self::Error) -> bool {
        match e {
            VecDecodeError::HeaderError(d) => bytes.len() < 8 && *d == (DataTooShort {
                expected: 8,
                actual: bytes.len() as usize,
            }),
            VecDecodeError::ElementError(ee) => bytes.len() >= 8 && exists|j: int|
                #![auto]
                0 <= j < spec_u64_from_be(bytes) as int && elems_decodable::<T>(bytes.skip(8), j)
                    && !T::decodable(
                    bytes.skip(8).skip(elems_consumed::<T>(bytes.skip(8), j)),
                ) && T::spec_error_matches(
                    bytes.skip(8).skip(elems_consumed::<T>(bytes.skip(8), j)),
                    ee,
                ),
        }
    }

    proof fn lemma_consumed_bounds(bytes: Seq<u8>) {
        if <Vec<T> as DecodeKey>::decodable(bytes) {
            lemma_elems_consumed_bounds::<T>(bytes.skip(8), spec_u64_from_be(bytes) as int);
        }
    }

    proof fn lemma_decode_encode(v: Vec<T>, rest: Seq<u8>) {
        vstd::std_specs::vec::axiom_spec_len(&v);
        let len64 = v@.len() as u64;
        let body = encodings_concat(v@);
        let whole = v.encoding() + rest;
        lemma_u64_be_roundtrip(len64);
        assert(spec_u64_from_be(whole) == spec_u64_from_be(spec_u64_be(len64)));
        assert(whole.skip(8) =~= body + rest);
        lemma_elems_round_trip::<T>(v@, rest);
    }

    fn try_decode(bytes: &[u8]) -> (r: Result<(Vec<T>, &[u8]), Self::Error>) {
        let (len64, first_rest) = match <u64 as DecodeKey>::try_decode(bytes) {
            Ok(x) => x,
            Err(e) => {
                return Err(VecDecodeError::HeaderError(e));
            },
        };
        let ghost b8 = bytes@.skip(8);
        let mut rest = first_rest;
        let mut buf: Vec<T> = Vec::new();
        let mut i: u64 = 0;
        let ghost mut consumed: int = 0;
        proof {
            assert(elems_decode_to::<T>(b8, buf@));
        }
        while i < len64
            invariant
                i <= len64,
                buf@.len() == i,
                elems_decodable::<T>(b8, i as int),
                elems_consumed::<T>(b8, i as int) == consumed,
                elems_decode_to::<T>(b8, buf@),
                0 <= consumed <= b8.len(),
                rest@ == b8.skip(consumed),
                b8 == bytes@.skip(8),
                bytes@.len() >= 8,
                spec_u64_from_be(bytes@) == len64,
            decreases len64 - i,
        {
            let ghost r0 = rest@;
            let ghost prev = buf@;
            match T::try_decode(rest) {
                Ok((e, suffix)) => {
                    proof {
                        T::lemma_consumed_bounds(r0);
                        lemma_elems_extend::<T>(b8, prev, e);
                        let c = T::spec_consumed(r0);
                        assert(b8.skip(consumed).skip(c) =~= b8.skip(consumed + c));
                        consumed = consumed + c;
                    }
                    buf.push(e);
                    rest = suffix;
                    i = i + 1;
                    proof {
                        assert(buf@ =~= prev.push(e));
                    }
                },
                Err(err) => {
                    proof {
                        lemma_elems_fail::<T>(b8, i as int, len64 as int);
                    }
                    return Err(VecDecodeError::ElementError(err));
                },
            }
        }
        proof {
            assert(rest@ =~= bytes@.skip(8 + consumed));
        }
        Ok((buf, rest))
    }
}

impl<T: SelfDelimitingKey> SelfDelimitingKey for Vec<T> {
    proof fn lemma_self_delimiting() {
        T::lemma_self_delimiting();
    }
}

} // verus!

verus! {

impl<A: EncodeKey, B: EncodeKey> PrefixKey<(A, B)> for A {
    open spec fn completes(&self, k: &(A, B)) -> bool {
        *self == k.0
    }

    proof fn lemma_prefix_encoding(&self, k: &(A, B)) {
        assert(k.encoding().subrange(0, self.encoding().len() as int) =~= self.encoding());
    }
}

impl<A: EncodeKey, B: EncodeKey, C: EncodeKey> PrefixKey<(A, B, C)> for A {
    open spec fn completes(&self, k: &(A, B, C)) -> bool {
        *self == k.0
    }

    proof fn lemma_prefix_encoding(&self, k: &(A, B, C)) {
        assert(k.encoding().subrange(0, self.encoding().len() as int) =~= self.encoding());
    }
}

} // verus!
