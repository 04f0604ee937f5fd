//! Point operations and ordered scans on the named trees of a database,
//! on raw bytes.
//!
//! Every function here reports an engine failure as
//! [`ErrorKind::IoError`]; none of them looks at relations.

use vstd::prelude::*;
use crate::engine::{
    db_entries, failure_text, tree_contains_key, tree_get, tree_insert, tree_iter, tree_last,
    tree_range, tree_remove, tree_scan_prefix,
};
use crate::error::{ErrorKind, Result, StoreError};
use crate::model::{Span, is_last_key, is_scan, lookup, opt_view, pairs_view, tree_is_empty};

verus! {

/// Turns what the engine returned into what the store reports: a value is
/// handed on unchanged, a failure becomes an `IoError` with the engine's
/// own words as its message.
pub fn surface<T>(outcome: core::result::Result<T, sled::Error>) -> (r: Result<T>)
    ensures
        match outcome {
            Ok(value) => r == Ok::<T, StoreError>(value),
            Err(_) => r matches Err(e) && e.kind == ErrorKind::IoError,
        },
{
    match outcome {
        Ok(value) => Ok(value),
        Err(e) => Err(StoreError { kind: ErrorKind::IoError, message: failure_text(&e) }),
    }
}

/// The value stored under `key` in `store`.
pub fn get_raw(db: &sled::Db, store: &[u8], key: &[u8]) -> (r: Result<Option<Vec<u8>>>)
    ensures
        match r {
            Ok(found) => opt_view(found) == lookup(db_entries(*db), store@, key@),
            Err(e) => e.kind == ErrorKind::IoError,
        },
{
    surface(tree_get(db, store, key))
}

/// Whether `store` holds a value under `key`.
pub fn exists_raw(db: &sled::Db, store: &[u8], key: &[u8]) -> (r: Result<bool>)
    ensures
        match r {
            Ok(present) => present == db_entries(*db).contains_key((store@, key@)),
            Err(e) => e.kind == ErrorKind::IoError,
        },
{
    surface(tree_contains_key(db, store, key))
}

/// Stores `value` under `key` in `store`, replacing what was there.
pub fn put_raw(db: &mut sled::Db, store: &[u8], key: &[u8], value: Vec<u8>) -> (r: Result<()>)
    ensures
        match r {
            Ok(_) => db_entries(*final(db)) == db_entries(*old(db)).insert((store@, key@), value@),
            Err(e) => e.kind == ErrorKind::IoError,
        },
{
    match surface(tree_insert(db, store, key, value)) {
        Ok(_) => Ok(()),
        Err(e) => Err(e),
    }
}

/// Removes what `store` holds under `key`, if anything.
pub fn remove_raw(db: &mut sled::Db, store: &[u8], key: &[u8]) -> (r: Result<()>)
    ensures
        match r {
            Ok(_) => db_entries(*final(db)) == db_entries(*old(db)).remove((store@, key@)),
            Err(e) => e.kind == ErrorKind::IoError,
        },
{
    match surface(tree_remove(db, store, key)) {
        Ok(_) => Ok(()),
        Err(e) => Err(e),
    }
}

/// All entries of `store`, in ascending key order.
pub fn scan_all(db: &sled::Db, store: &[u8]) -> (r: Result<Vec<(Vec<u8>, Vec<u8>)>>)
    ensures
        match r {
            Ok(items) => is_scan(pairs_view(items@), db_entries(*db), store@, Span::All),
            Err(e) => e.kind == ErrorKind::IoError,
        },
{
    surface(tree_iter(db, store))
}

/// The entries of `store` whose keys begin with `prefix`, in ascending key
/// order. With an empty prefix these are all entries.
pub fn scan_prefix(db: &sled::Db, store: &[u8], prefix: &[u8]) -> (r: Result<
    Vec<(Vec<u8>, Vec<u8>)>,
>)
    ensures
        match r {
            Ok(items) => is_scan(
                pairs_view(items@),
                db_entries(*db),
                store@,
                Span::Prefix(prefix@),
            ),
            Err(e) => e.kind == ErrorKind::IoError,
        },
{
    surface(tree_scan_prefix(db, store, prefix))
}

/// The entries of `store` whose keys lie in the half-open range from `lo`
/// to `hi`, in ascending key order.
pub fn scan_range(db: &sled::Db, store: &[u8], lo: &[u8], hi: &[u8]) -> (r: Result<
    Vec<(Vec<u8>, Vec<u8>)>,
>)
    ensures
        match r {
            Ok(items) => is_scan(
                pairs_view(items@),
                db_entries(*db),
                store@,
                Span::Range(lo@, hi@),
            ),
            Err(e) => e.kind == ErrorKind::IoError,
        },
{
    surface(tree_range(db, store, lo, hi))
}

/// The entry of `store` with the greatest key, or `None` if the store is
/// empty.
pub fn last_raw(db: &sled::Db, store: &[u8]) -> (r: Result<Option<(Vec<u8>, Vec<u8>)>>)
    ensures
        match r {
            Ok(Some((key, value))) => {
                &&& is_last_key(db_entries(*db), store@, key@)
                &&& db_entries(*db)[(store@, key@)] == value@
            },
            Ok(None) => tree_is_empty(db_entries(*db), store@),
            Err(e) => e.kind == ErrorKind::IoError,
        },
{
    surface(tree_last(db, store))
}

} // verus!
