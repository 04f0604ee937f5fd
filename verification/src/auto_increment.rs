//! Keys handed out in ascending order, for stores whose key is a number.

use vstd::prelude::*;
use crate::engine::db_entries;
use crate::entity::{Entity, after_save, tree_of};
use crate::error::{ErrorKind, Result, StoreError};
use crate::keys::{
    AsBytes, law_u32_order, law_u32_order_from_keys, lemma_lex_lt_asymmetric,
    lemma_lex_lt_irreflexive, lemma_u32_bytes_round_trip, lex_le, u32_be, u32_from_be,
    u32_from_be_bytes,
};
use crate::model::{Entries, is_last_key, tree_is_empty};
use crate::store::{last_raw, put_raw};

verus! {

/// The key that follows the greatest key of a store: zero for an empty
/// store, else the successor of the number that the greatest key
/// encodes. There is none if the greatest key is not the encoding of a
/// number, or encodes the greatest number.
pub open spec fn key_after(last: Option<Seq<u8>>) -> Option<u32> {
    match last {
        None => Some(0u32),
        Some(key) => if key.len() == 4 && u32_from_be(key) < u32::MAX {
            Some((u32_from_be(key) + 1) as u32)
        } else {
            None
        },
    }
}

/// Whether `last` is what is to be said of the greatest key of `tree`:
/// `None` if the tree is empty, else the greatest key.
pub open spec fn is_last_of(entries: Entries, tree: Seq<u8>, last: Option<Seq<u8>>) -> bool {
    match last {
        None => tree_is_empty(entries, tree),
        Some(key) => is_last_key(entries, tree, key),
    }
}

/// The key that follows `last`, the greatest key of a store; an
/// `IntegrityError` if there is none.
pub fn successor(last: &Option<(Vec<u8>, Vec<u8>)>) -> (r: Result<u32>)
    ensures
        match r {
            Ok(next) => key_after(first_of(*last)) == Some(next),
            Err(e) => e.kind == ErrorKind::IntegrityError && key_after(first_of(*last)) is None,
        },
{
    match last {
        None => Ok(0),
        Some((key, _)) => match u32_from_be_bytes(key.as_slice()) {
            None => Err(StoreError::new(ErrorKind::IntegrityError, "The last key is not a number")),
            Some(n) => {
                if n == u32::MAX {
                    Err(StoreError::new(ErrorKind::IntegrityError, "The keys are used up"))
                } else {
                    Ok(n + 1)
                }
            },
        },
    }
}

/// The key of an optional entry.
pub open spec fn first_of(entry: Option<(Vec<u8>, Vec<u8>)>) -> Option<Seq<u8>> {
    match entry {
        Some(pair) => Some(pair.0@),
        None => None,
    }
}

/// A record type whose key is a number that the store can hand out.
///
/// Handing out a key and saving under it are two steps: two writers that
/// take them at the same time may get the same key.
pub trait AutoIncrementEntity: Entity<Key = u32> {
    /// The key that follows the greatest key of the store; zero if the
    /// store is empty.
    fn get_next_key(db: &sled::Db) -> (r: Result<u32>)
        ensures
            match r {
                Ok(next) => exists|last: Option<Seq<u8>>|
                    #[trigger] is_last_of(db_entries(*db), tree_of::<Self>(), last) && key_after(last)
                        == Some(next),
                Err(e) => e.kind == ErrorKind::IoError || (e.kind == ErrorKind::IntegrityError
                    && exists|last: Option<Seq<u8>>|
                    #[trigger] is_last_of(db_entries(*db), tree_of::<Self>(), last) && key_after(last)
                        is None),
            },
    {
        let last = match last_raw(db, Self::store_name().as_bytes()) {
            Ok(last) => last,
            Err(e) => {
                return Err(e);
            },
        };
        proof {
            assert(is_last_of(db_entries(*db), tree_of::<Self>(), first_of(last)));
        }
        successor(&last)
    }

    /// Gives the record the key that follows the greatest key of the
    /// store, saves it, and returns the key.
    fn save_next(&mut self, db: &mut sled::Db) -> (r: Result<u32>)
        ensures
            match r {
                Ok(next) => {
                    &&& exists|last: Option<Seq<u8>>|
                        #[trigger] is_last_of(db_entries(*old(db)), tree_of::<Self>(), last)
                            && key_after(last) == Some(next)
                    &&& final(self).key() == next
                    &&& db_entries(*final(db)) == after_save(db_entries(*old(db)), *final(self))
                },
                Err(e) => match e.kind {
                    ErrorKind::IoError => true,
                    ErrorKind::IntegrityError => {
                        &&& exists|last: Option<Seq<u8>>|
                            #[trigger] is_last_of(db_entries(*old(db)), tree_of::<Self>(), last)
                                && key_after(last) is None
                        &&& *final(self) == *old(self)
                        &&& db_entries(*final(db)) == db_entries(*old(db))
                    },
                    _ => false,
                },
            },
    {
        let next = match Self::get_next_key(db) {
            Ok(next) => next,
            Err(e) => {
                return Err(e);
            },
        };
        self.set_key(&next);
        let key = self.get_key().as_bytes();
        match put_raw(db, Self::store_name().as_bytes(), key.as_slice(), self.to_bytes()) {
            Ok(_) => Ok(next),
            Err(e) => Err(e),
        }
    }
}

impl<T: Entity<Key = u32>> AutoIncrementEntity for T {
}

/// The key that a store hands out is not in use: no record is stored
/// under it.
pub proof fn law_next_key_is_free(entries: Entries, tree: Seq<u8>, last: Option<Seq<u8>>, next: u32)
    requires
        is_last_of(entries, tree, last),
        key_after(last) == Some(next),
    ensures
        !entries.contains_key((tree, next.bytes())),
{
    if entries.contains_key((tree, next.bytes())) {
        let key = last->0;
        assert(lex_le(next.bytes(), key));
        let n = u32_from_be(key) as u32;
        lemma_u32_bytes_round_trip(key);
        assert(u32_be(n) == key);
        law_u32_order(n, next);
        lemma_lex_lt_irreflexive(key);
        lemma_lex_lt_asymmetric(key, next.bytes());
    }
}

/// The key that a store hands out is greater than every number under
/// which the store holds a record.
pub proof fn law_next_key_exceeds_the_keys(
    entries: Entries,
    tree: Seq<u8>,
    last: Option<Seq<u8>>,
    next: u32,
    held: u32,
)
    requires
        is_last_of(entries, tree, last),
        key_after(last) == Some(next),
        entries.contains_key((tree, held.bytes())),
    ensures
        held < next,
{
    let key = last->0;
    assert(lex_le(held.bytes(), key));
    let n = u32_from_be(key) as u32;
    lemma_u32_bytes_round_trip(key);
    assert(u32_be(n) == key);
    if held.bytes() != key {
        law_u32_order_from_keys(held, n);
    } else {
        crate::keys::law_u32_key_is_injective(held, n);
    }
}

} // verus!
