//! The boundary to the key-value engine.
//!
//! Nothing in this file is proved. Each function calls `sled` and states
//! what that call does to the model of the database, [`db_entries`]; the
//! rest of the crate is verified against these statements.
//!
//! The model is one flat map over all trees of a database. Opening a tree
//! that does not exist creates an empty one, which adds no entry. Writes
//! take the database by `&mut` so that the verifier sees the change,
//! although the engine itself synchronises internally: the statements
//! describe a database that nothing else writes to while a call runs.
//! Where a call fails, nothing is said of what the database then holds.

use vstd::prelude::*;
use crate::model::{
    Entries, Span, is_last_key, is_scan, lookup, opt_view, pairs_view, slice_view, tree_is_empty,
};

verus! {

/// `sled::Db`, the handle of a database; nothing is known of its inside.
#[verifier::external_type_specification]
#[verifier::external_body]
pub struct ExDb(sled::Db);

/// `sled::Error`, the failure of an engine call; nothing is known of its
/// inside.
#[verifier::external_type_specification]
#[verifier::external_body]
pub struct ExEngineError(sled::Error);

/// The entries that `db` holds, over all of its trees: the value under
/// each pair of a tree name and a key.
pub uninterp spec fn db_entries(db: sled::Db) -> Entries;

/// `sled::Tree::get` on the tree that `sled::Db::open_tree` gives for
/// `tree`: where it succeeds, it returns the value stored under `key`, or
/// `None` if there is none.
#[verifier::external_body]
pub(crate) fn tree_get(db: &sled::Db, tree: &[u8], key: &[u8]) -> (r: core::result::Result<
    Option<Vec<u8>>,
    sled::Error,
>)
    ensures
        r matches Ok(found) ==> opt_view(found) == lookup(db_entries(*db), tree@, key@),
{
    Ok(db.open_tree(tree)?.get(key)?.map(|v| v.to_vec()))
}

/// `sled::Tree::contains_key` on the tree named `tree`: where it succeeds,
/// it tells whether a value is stored under `key`.
#[verifier::external_body]
pub(crate) fn tree_contains_key(db: &sled::Db, tree: &[u8], key: &[u8]) -> (r: core::result::Result<
    bool,
    sled::Error,
>)
    ensures
        r matches Ok(present) ==> present == db_entries(*db).contains_key((tree@, key@)),
{
    db.open_tree(tree)?.contains_key(key)
}

/// `sled::Tree::insert` on the tree named `tree`: where it succeeds, `key`
/// now maps to `value`, every other entry is as before, and the value that
/// `key` had before is returned.
#[verifier::external_body]
pub(crate) fn tree_insert(db: &mut sled::Db, tree: &[u8], key: &[u8], value: Vec<u8>) -> (r:
    core::result::Result<Option<Vec<u8>>, sled::Error>)
    ensures
        r matches Ok(previous) ==> {
            &&& db_entries(*final(db)) == db_entries(*old(db)).insert((tree@, key@), value@)
            &&& opt_view(previous) == lookup(db_entries(*old(db)), tree@, key@)
        },
{
    Ok(db.open_tree(tree)?.insert(key, value)?.map(|v| v.to_vec()))
}

/// `sled::Tree::remove` on the tree named `tree`: where it succeeds, `key`
/// is absent, every other entry is as before, and the value that `key` had
/// before is returned.
#[verifier::external_body]
pub(crate) fn tree_remove(db: &mut sled::Db, tree: &[u8], key: &[u8]) -> (r: core::result::Result<
    Option<Vec<u8>>,
    sled::Error,
>)
    ensures
        r matches Ok(previous) ==> {
            &&& db_entries(*final(db)) == db_entries(*old(db)).remove((tree@, key@))
            &&& opt_view(previous) == lookup(db_entries(*old(db)), tree@, key@)
        },
{
    Ok(db.open_tree(tree)?.remove(key)?.map(|v| v.to_vec()))
}

/// `sled::Tree::iter` on the tree named `tree`, collected: where no step
/// fails, the entries of the tree in ascending key order.
#[verifier::external_body]
pub(crate) fn tree_iter(db: &sled::Db, tree: &[u8]) -> (r: core::result::Result<
    Vec<(Vec<u8>, Vec<u8>)>,
    sled::Error,
>)
    ensures
        r matches Ok(items) ==> is_scan(pairs_view(items@), db_entries(*db), tree@, Span::All),
{
    db.open_tree(tree)?.iter().map(|item| item.map(|(k, v)| (k.to_vec(), v.to_vec()))).collect()
}

/// `sled::Tree::scan_prefix` on the tree named `tree`, collected: where no
/// step fails, the entries whose keys begin with `prefix`, in ascending key
/// order.
#[verifier::external_body]
pub(crate) fn tree_scan_prefix(db: &sled::Db, tree: &[u8], prefix: &[u8]) -> (r:
    core::result::Result<Vec<(Vec<u8>, Vec<u8>)>, sled::Error>)
    ensures
        r matches Ok(items) ==> is_scan(
            pairs_view(items@),
            db_entries(*db),
            tree@,
            Span::Prefix(prefix@),
        ),
{
    db.open_tree(tree)?.scan_prefix(prefix).map(
        |item| item.map(|(k, v)| (k.to_vec(), v.to_vec())),
    ).collect()
}

/// `sled::Tree::range` on the tree named `tree` with the half-open range
/// `lo..hi`, collected: where no step fails, the entries whose keys `k`
/// satisfy `lo <= k < hi`, in ascending key order.
#[verifier::external_body]
pub(crate) fn tree_range(db: &sled::Db, tree: &[u8], lo: &[u8], hi: &[u8]) -> (r:
    core::result::Result<Vec<(Vec<u8>, Vec<u8>)>, sled::Error>)
    ensures
        r matches Ok(items) ==> is_scan(
            pairs_view(items@),
            db_entries(*db),
            tree@,
            Span::Range(lo@, hi@),
        ),
{
    db.open_tree(tree)?.range(lo..hi).map(
        |item| item.map(|(k, v)| (k.to_vec(), v.to_vec())),
    ).collect()
}

/// `sled::Tree::last` on the tree named `tree`: where it succeeds, the
/// entry with the greatest key, or `None` if the tree is empty.
#[verifier::external_body]
pub(crate) fn tree_last(db: &sled::Db, tree: &[u8]) -> (r: core::result::Result<
    Option<(Vec<u8>, Vec<u8>)>,
    sled::Error,
>)
    ensures
        r matches Ok(found) ==> match found {
            Some((key, value)) => {
                &&& is_last_key(db_entries(*db), tree@, key@)
                &&& db_entries(*db)[(tree@, key@)] == value@
            },
            None => tree_is_empty(db_entries(*db), tree@),
        },
{
    Ok(db.open_tree(tree)?.last()?.map(|(k, v)| (k.to_vec(), v.to_vec())))
}

/// `sled::Tree::fetch_and_update` on the tree named `tree`: where it
/// succeeds, `f` was given the value that `key` had, or `None` if it had
/// none; what `f` returned is now the value of `key`, or `key` is absent
/// if `f` returned `None`; every other entry is as before, and the value
/// that `key` had before is returned.
#[verifier::external_body]
pub(crate) fn tree_fetch_and_update<F: Fn(Option<&[u8]>) -> Option<Vec<u8>>>(
    db: &mut sled::Db,
    tree: &[u8],
    key: &[u8],
    f: F,
) -> (r: core::result::Result<Option<Vec<u8>>, sled::Error>)
    requires
        forall|current: Option<&[u8]>| call_requires(f, (current,)),
    ensures
        r matches Ok(previous) ==> {
            &&& opt_view(previous) == lookup(db_entries(*old(db)), tree@, key@)
            &&& exists|current: Option<&[u8]>, next: Option<Vec<u8>>|
                {
                    &&& slice_view(current) == opt_view(previous)
                    &&& #[trigger] call_ensures(f, (current,), next)
                    &&& db_entries(*final(db)) == match next {
                        Some(value) => db_entries(*old(db)).insert((tree@, key@), value@),
                        None => db_entries(*old(db)).remove((tree@, key@)),
                    }
                }
        },
{
    Ok(db.open_tree(tree)?.fetch_and_update(key, f)?.map(|v| v.to_vec()))
}

/// The text that `sled::Error`'s `Display` gives for `e`. Nothing is
/// claimed of it.
#[verifier::external_body]
pub(crate) fn failure_text(e: &sled::Error) -> (text: String) {
    format!("{}", e)
}

} // verus!
