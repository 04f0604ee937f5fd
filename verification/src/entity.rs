//! The contract that a record type fulfils to be kept in a store, and
//! the vocabulary in which the operations on its records are described.

use vstd::prelude::*;
use vstd::utf8::encode_utf8;
use crate::family::{DeletionBehaviour, Family, named_view};
use crate::keys::AsBytes;
use crate::model::{Entries, lookup};
use crate::relation::Node;

verus! {

/// The name of the tree in which the records of `E` are kept.
pub open spec fn tree_of<E: Entity>() -> Seq<u8> {
    encode_utf8(E::store())
}

/// The record of `E` with the key bytes `key`, as a node of the relation
/// graph.
pub open spec fn node_of<E: Entity>(key: Seq<u8>) -> Node {
    (tree_of::<E>(), key)
}

/// What the store of `E` holds under `key`: nothing, a record, or bytes
/// that are no record.
pub enum Slot<E> {
    Absent,
    Holds(E),
    Unreadable,
}

/// What the store of `E` holds under the key bytes `key`.
pub open spec fn slot_of<E: Entity>(entries: Entries, key: Seq<u8>) -> Slot<E> {
    match lookup(entries, tree_of::<E>(), key) {
        None => Slot::Absent,
        Some(body) => match E::decoded(body) {
            Some(record) => Slot::Holds(record),
            None => Slot::Unreadable,
        },
    }
}

/// What the database holds once `record` is saved.
pub open spec fn after_save<E: Entity>(entries: Entries, record: E) -> Entries {
    entries.insert(node_of::<E>(record.key().bytes()), record.encoded())
}

/// A record type that is kept in a store.
///
/// An implementation names its store, tells and sets the key of a record,
/// encodes and decodes records, and declares the sibling and child stores
/// of its store. Everything else is provided.
///
/// `store`, `key`, `encoded`, `decoded`, `schema_version`, `siblings` and
/// `children` are the mathematical model of the implementation: each
/// says what the function beside it returns, and the contracts of the
/// operations on records speak through them. A verified implementation
/// defines them. An implementation made outside the verifier cannot, and
/// is trusted to behave as one that some model describes: its functions
/// return the same for the same arguments, and `from_bytes` gives back
/// the record that `to_bytes` was given.
pub trait Entity: Sized {
    /// The type of the key.
    type Key: AsBytes;

    /// The name of the store.
    open spec fn store() -> Seq<char> {
        arbitrary()
    }

    /// The key of a record.
    open spec fn key(&self) -> Self::Key {
        arbitrary()
    }

    /// The stored form of a record.
    open spec fn encoded(&self) -> Seq<u8> {
        arbitrary()
    }

    /// The record that `bytes` is the stored form of, if any.
    open spec fn decoded(bytes: Seq<u8>) -> Option<Self> {
        arbitrary()
    }

    /// The schema version of the store.
    open spec fn schema_version() -> u32 {
        arbitrary()
    }

    /// The sibling stores, each with the policy that applies to a sibling
    /// when a record of this store is deleted.
    open spec fn siblings() -> Seq<(&'static str, DeletionBehaviour)> {
        arbitrary()
    }

    /// The child stores, each with the policy that applies to the
    /// children when a record of this store is deleted.
    open spec fn children() -> Seq<(&'static str, DeletionBehaviour)> {
        arbitrary()
    }

    /// The name of the store.
    fn store_name() -> (name: &'static str)
        ensures
            name@ == Self::store(),
    ;

    /// The schema version of the store.
    fn version() -> (version: u32)
        ensures
            version == Self::schema_version(),
    ;

    /// The key of the record.
    fn get_key(&self) -> (key: Self::Key)
        ensures
            key == self.key(),
    ;

    /// Gives the record another key.
    fn set_key(&mut self, key: &Self::Key)
        ensures
            final(self).key() == *key,
    ;

    /// The stored form of the record. Decoding it gives the record back.
    fn to_bytes(&self) -> (bytes: Vec<u8>)
        ensures
            bytes@ == self.encoded(),
            Self::decoded(bytes@) == Some(*self),
    ;

    /// Reads a record back from its stored form; `None` if `bytes` is not
    /// the stored form of a record.
    fn from_bytes(bytes: &[u8]) -> (value: Option<Self>)
        ensures
            value == Self::decoded(bytes@),
    ;

    /// The sibling stores, each with the policy that applies to a sibling
    /// when a record of this store is deleted.
    fn get_sibling_trees() -> (list: Vec<(&'static str, DeletionBehaviour)>)
        ensures
            list@ == Self::siblings(),
    ;

    /// The child stores, each with the policy that applies to the
    /// children when a record of this store is deleted.
    fn get_child_trees() -> (list: Vec<(&'static str, DeletionBehaviour)>)
        ensures
            list@ == Self::children(),
    ;
}

/// The family descriptor that the declarations of `E` amount to.
pub open spec fn family_of_type<E: Entity>() -> Family {
    Family {
        name: tree_of::<E>(),
        version: E::schema_version(),
        siblings: named_view(E::siblings()),
        children: named_view(E::children()),
    }
}

} // verus!
