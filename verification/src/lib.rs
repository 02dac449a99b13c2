//! Typed records over any ordered byte-keyed store.
//!
//! Keys are encoded through an order-preserving byte codec, so that
//! byte-lexicographic comparison of two encodings agrees with the natural
//! ordering of the source values; prefix and range scans over typed keys
//! are translated into byte ranges without the caller ever touching raw
//! bytes.

use vstd::prelude::*;

pub mod bytes;
pub mod bounds;
pub mod composite;
pub mod cstring;
pub mod greedy;
pub mod key;
pub mod store;

pub use composite::Tuple2DecodeError;
pub use composite::Tuple3DecodeError;
pub use composite::VecDecodeError;
pub use cstring::CStringKey;
pub use cstring::MissingNulTerminator;
pub use greedy::GreedyKey;
pub use key::DecodeKey;
pub use key::EncodeKey;
pub use key::F32Key;
pub use key::F64Key;
pub use key::PrefixKey;
pub use key::StringDecodeError;
pub use store::KeyBound;
pub use store::MemStore;
pub use store::MemStoreIter;
pub use store::ReadStore;
pub use store::ReadStoreError;
pub use store::WriteStore;
pub use store::WriteStoreError;

use key::DecodeKey as DecodeKeyTrait;

verus! {

/// A decode failure: the buffer held fewer bytes than the field needed.
#[derive(Debug, Clone, Copy, PartialEq, Eq, Structural)]
pub struct DataTooShort {
    pub expected: usize,
    pub actual: usize,
}

/// An application entity with one typed key and an opaque payload.
///
/// A record's key is immutable once persisted; persisting again under
/// the same key overwrites the payload. The provided operations compose
/// the key codec, the boundary algorithm and a store into typed fetch,
/// scan, persist and remove.
pub trait Record: Sized {
    type Key: EncodeKey + DecodeKeyTrait + Clone;

    type EncodeError;

    type DecodeError;

    /// When `(key, value)` is an encoding of this record: the relation
    /// that `try_encode`'s successes satisfy. The trivial default states
    /// nothing; a verified record type overrides it with its real
    /// relation, and the store contracts then carry it through.
    open spec fn encodes_to(&self, key: &Self::Key, value: Seq<u8>) -> bool {
        true
    }

    /// When `rec` is the record rebuilt from `key` and `value`: the
    /// relation that `try_decode`'s successes satisfy. The trivial
    /// default states nothing; a verified record type overrides it.
    open spec fn decodes_from(key: &Self::Key, value: Seq<u8>, rec: &Self) -> bool {
        true
    }

    /// Encode this record as its typed key and its payload bytes.
    fn try_encode(&self) -> (r: Result<(Self::Key, Vec<u8>), Self::EncodeError>)
        ensures
            r matches Ok((k, v)) ==> self.encodes_to(&k, v@),
    ;

    /// Rebuild a record from its typed key and its payload bytes.
    fn try_decode(key: Self::Key, value: &[u8]) -> (r: Result<Self, Self::DecodeError>)
        ensures
            r matches Ok(rec) ==> Self::decodes_from(&key, value@, &rec),
    ;
}

/// The typed operations over a store, available on every record type:
/// they compose the key codec, the boundary algorithm and the store
/// capability contract.
pub trait RecordExt: Record {
    /// Encode `key` and fetch the record stored under it: a present
    /// record, absence, or an error from the store or the decoders.
    fn fetch<S: ReadStore<Self>>(store: &S, key: &Self::Key) -> (r: Result<
        Option<Self>,
        ReadStoreError<S::Error, <Self::Key as DecodeKeyTrait>::Error, Self::DecodeError>,
    >)
        requires
            store.inv(),
        ensures
            r matches Ok(Some(rec)) ==> store.byte_map().contains_key(key.encoding())
                && store::fetched_record_matches::<Self>(store.byte_map(), key.encoding(), &rec),
            r matches Ok(None) ==> !store.byte_map().contains_key(key.encoding()),
            r matches Err(ReadStoreError::ValueDecodeError(_)) ==> store.byte_map().contains_key(
                key.encoding(),
            ),
            r matches Err(ReadStoreError::KeyDecodeErr(_)) ==> false,
    ;

    /// Scan every record of this type, ascending by encoded key: the
    /// returned scan decodes exactly the store's entries.
    fn scan<S: ReadStore<Self>>(store: &S) -> (r: S::Iter)
        requires
            store.inv(),
        ensures
            S::iter_entries(&r) == store.entries(),
            S::iter_position(&r) == 0,
    ;

    /// Scan the records whose keys fall in `range`, ascending: the scan
    /// decodes the store's entries restricted to the byte range the
    /// encoded endpoints of `range` span.
    fn scan_range<S: ReadStore<Self>, P: PrefixKey<Self::Key> + Clone, RB: core::ops::RangeBounds<
        P,
    >>(store: &S, range: RB) -> (r: S::Iter)
        requires
            store.inv(),
        ensures
            exists|s: KeyBound<Seq<u8>>, e: KeyBound<Seq<u8>>|
                S::iter_entries(&r) == store.entries().filter(store::range_pred(s, e)),
            S::iter_position(&r) == 0,
    ;

    /// Scan the records whose encoded keys extend the encoding of
    /// `prefix`, ascending: the scan decodes exactly the store's entries
    /// whose key bytes have that encoding as a prefix.
    fn scan_prefix<S: ReadStore<Self>, P: PrefixKey<Self::Key>>(store: &S, prefix: &P) -> (r:
        S::Iter)
        requires
            store.inv(),
        ensures
            S::iter_entries(&r) == store.entries().filter(store::prefix_pred(prefix.encoding())),
            S::iter_position(&r) == 0,
    ;

    /// Encode this record and upsert it under its encoded key. When the
    /// record fails to encode, the store is left untouched.
    fn persist<S: WriteStore<Self>>(&self, store: &mut S) -> (r: Result<
        (),
        WriteStoreError<S::Error, Self::EncodeError>,
    >)
        requires
            old(store).inv(),
        ensures
            final(store).inv(),
            r is Ok ==> exists|k: Self::Key, v: Seq<u8>|
                #![auto]
                self.encodes_to(&k, v) && final(store).byte_map() == old(store).byte_map().insert(
                    k.encoding(),
                    v,
                ),
            r matches Err(WriteStoreError::EncodeError(_)) ==> final(store).byte_map() == old(store).byte_map(),
    ;

    /// Encode `key` and remove the record stored under it, if any.
    fn remove<S: WriteStore<Self>>(store: &mut S, key: &Self::Key) -> (r: Result<
        (),
        WriteStoreError<S::Error, Self::EncodeError>,
    >)
        requires
            old(store).inv(),
        ensures
            final(store).inv(),
            r is Ok ==> final(store).byte_map() == old(store).byte_map().remove(key.encoding()),
    ;
}

impl<R: Record> RecordExt for R {
    fn fetch<S: ReadStore<Self>>(store: &S, key: &Self::Key) -> (r: Result<
        Option<Self>,
        ReadStoreError<S::Error, <Self::Key as DecodeKeyTrait>::Error, Self::DecodeError>,
    >) {
        store.fetch(key)
    }

    fn scan<S: ReadStore<Self>>(store: &S) -> S::Iter {
        store.scan()
    }

    fn scan_range<S: ReadStore<Self>, P: PrefixKey<Self::Key> + Clone, RB: core::ops::RangeBounds<
        P,
    >>(store: &S, range: RB) -> S::Iter {
        store.scan_range(range)
    }

    fn scan_prefix<S: ReadStore<Self>, P: PrefixKey<Self::Key>>(store: &S, prefix: &P) -> S::Iter {
        store.scan_prefix(prefix)
    }

    fn persist<S: WriteStore<Self>>(&self, store: &mut S) -> (r: Result<
        (),
        WriteStoreError<S::Error, Self::EncodeError>,
    >) {
        store.persist(self)
    }

    fn remove<S: WriteStore<Self>>(store: &mut S, key: &Self::Key) -> (r: Result<
        (),
        WriteStoreError<S::Error, Self::EncodeError>,
    >) {
        store.remove(key)
    }
}

} // verus!
