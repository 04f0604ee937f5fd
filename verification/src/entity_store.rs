//! The operations that every record type gets from being an entity.

use vstd::prelude::*;
use crate::deletion::{after_removal, remove_record};
use crate::walk::{Walk, blocked, garbled, refused, walked, walked_through};
use crate::engine::{db_entries, tree_fetch_and_update};
use crate::entity::{Entity, Slot, after_save, family_of_type, node_of, slot_of, tree_of};
use crate::error::{ErrorKind, Result, StoreError};
use crate::family::{DeletionBehaviour, FamilyDescriptor, Registration, families_tree, family_bytes, registration};
use crate::keys::AsBytes;
use crate::model::{Pair, Span, is_scan, lookup, opt_view, pairs_view, tree_keys};
use crate::records::{
    after_saves, answered, answers_for, bounds_from_end, bounds_from_start, declares, decode_scan,
    decodes_to, first_found, gather, identity, judged, keep, lemma_first_link_present, linked_to,
    lists, names, picked, present, read_record, read_related, related, related_unreadable,
    remove_each, reworked, rewritten, roots_of, save_reworked, scan_optional, sever, severed,
    span_of, unreadable_in, window_from_end, window_from_start,
};
use crate::relation::{
    Node, RecordId, after_link, after_unlink, any_link, half_present, link, links_to_store,
    links_view, store_prefix, unlink, unsound_under,
};
use crate::store::{exists_raw, put_raw, remove_raw, scan_all, scan_prefix, scan_range, surface};

verus! {

/// The operations that every record type gets: point operations, ordered
/// scans and deletion under the relation policies.
pub trait EntityStore: Entity {
    /// Records the family descriptor of the store in the catalog.
    fn register(db: &mut sled::Db) -> (r: Result<()>)
        ensures
            match r {
                Ok(_) => {
                    &&& registration(
                        lookup(db_entries(*old(db)), families_tree(), tree_of::<Self>()),
                        family_of_type::<Self>(),
                    ) == Registration::Write
                    &&& db_entries(*final(db)) == db_entries(*old(db)).insert(
                        (families_tree(), tree_of::<Self>()),
                        family_bytes(family_of_type::<Self>()),
                    )
                },
                Err(e) => match e.kind {
                    ErrorKind::IoError => true,
                    ErrorKind::IntegrityError => {
                        &&& registration(
                            lookup(db_entries(*old(db)), families_tree(), tree_of::<Self>()),
                            family_of_type::<Self>(),
                        ) == Registration::Unreadable
                        &&& db_entries(*final(db)) == db_entries(*old(db))
                    },
                    ErrorKind::SchemaError => {
                        &&& registration(
                            lookup(db_entries(*old(db)), families_tree(), tree_of::<Self>()),
                            family_of_type::<Self>(),
                        ) is Drift || registration(
                            lookup(db_entries(*old(db)), families_tree(), tree_of::<Self>()),
                            family_of_type::<Self>(),
                        ) is Downgrade
                        &&& db_entries(*final(db)) == db_entries(*old(db))
                    },
                    _ => false,
                },
            },
    {
        let siblings = Self::get_sibling_trees();
        let children = Self::get_child_trees();
        let descriptor = FamilyDescriptor::new(
            Self::store_name(),
            Self::version(),
            &siblings,
            &children,
        );
        descriptor.register(db)
    }

    /// The record with the key `key`, or `None` if there is none.
    fn get(key: &Self::Key, db: &sled::Db) -> (r: Result<Option<Self>>)
        ensures
            match r {
                Ok(Some(record)) => slot_of::<Self>(db_entries(*db), key.bytes()) == Slot::Holds(
                    record,
                ),
                Ok(None) => slot_of::<Self>(db_entries(*db), key.bytes()) is Absent,
                Err(e) => e.kind == ErrorKind::IoError || (e.kind == ErrorKind::IntegrityError
                    && slot_of::<Self>(db_entries(*db), key.bytes()) is Unreadable),
            },
    {
        let bytes = key.as_bytes();
        Self::get_from_u8_array(bytes.as_slice(), db)
    }

    /// The record whose key has the bytes `key`, or `None` if there is
    /// none.
    fn get_from_u8_array(key: &[u8], db: &sled::Db) -> (r: Result<Option<Self>>)
        ensures
            match r {
                Ok(Some(record)) => slot_of::<Self>(db_entries(*db), key@) == Slot::Holds(record),
                Ok(None) => slot_of::<Self>(db_entries(*db), key@) is Absent,
                Err(e) => e.kind == ErrorKind::IoError || (e.kind == ErrorKind::IntegrityError
                    && slot_of::<Self>(db_entries(*db), key@) is Unreadable),
            },
    {
        read_record::<Self>(key, db)
    }

    /// Whether the store holds a record with the key `key`. The record is
    /// not decoded.
    fn is_present(key: &Self::Key, db: &sled::Db) -> (r: Result<bool>)
        ensures
            match r {
                Ok(present) => present == db_entries(*db).contains_key(
                    node_of::<Self>(key.bytes()),
                ),
                Err(e) => e.kind == ErrorKind::IoError,
            },
    {
        let bytes = key.as_bytes();
        exists_raw(db, Self::store_name().as_bytes(), bytes.as_slice())
    }

    /// Saves the record under its key, replacing what was there. The
    /// record is then found under its key as it was saved.
    fn save(&self, db: &mut sled::Db) -> (r: Result<()>)
        ensures
            match r {
                Ok(_) => {
                    &&& db_entries(*final(db)) == after_save(db_entries(*old(db)), *self)
                    &&& slot_of::<Self>(db_entries(*final(db)), self.key().bytes()) == Slot::Holds(
                        *self,
                    )
                },
                Err(e) => e.kind == ErrorKind::IoError,
            },
    {
        let key = self.get_key().as_bytes();
        put_raw(db, Self::store_name().as_bytes(), key.as_slice(), self.to_bytes())
    }

    /// Removes the entry whose key has the bytes `key`, whatever relations
    /// it takes part in.
    fn remove_from_u8_array(key: &[u8], db: &mut sled::Db) -> (r: Result<()>)
        ensures
            match r {
                Ok(_) => db_entries(*final(db)) == db_entries(*old(db)).remove(node_of::<Self>(key@)),
                Err(e) => e.kind == ErrorKind::IoError,
            },
    {
        remove_raw(db, Self::store_name().as_bytes(), key)
    }

    /// Deletes the record with the key `key` under the relation policies.
    ///
    /// The deletion walks from the record along the edges of the relation
    /// graph, depth first, looking at sibling edges, then at child edges,
    /// then at the edges of links. An edge to a record that it has found
    /// already is passed over; of the others a `Cascade` edge is followed,
    /// a `BreakLink` edge is passed over, and an `Error` edge refuses the
    /// deletion. A deletion that is refused writes nothing. Otherwise the
    /// records that were found are removed, and every link that one of
    /// them took part in.
    fn remove(key: &Self::Key, db: &mut sled::Db) -> (r: Result<()>)
        ensures
            match r {
                Ok(_) => {
                    &&& exists|found: Seq<Node>| #[trigger]
                        walked_through(db_entries(*old(db)), node_of::<Self>(key.bytes()), found)
                    &&& !blocked(db_entries(*old(db)), node_of::<Self>(key.bytes()))
                    &&& !garbled(db_entries(*old(db)), node_of::<Self>(key.bytes()))
                    &&& db_entries(*final(db)) == after_removal(
                        db_entries(*old(db)),
                        node_of::<Self>(key.bytes()),
                    )
                },
                Err(e) => match e.kind {
                    ErrorKind::IoError => true,
                    ErrorKind::IntegrityError => {
                        &&& walked(
                            db_entries(*old(db)),
                            node_of::<Self>(key.bytes()),
                            Walk::Unreadable,
                        )
                        &&& garbled(db_entries(*old(db)), node_of::<Self>(key.bytes()))
                        &&& db_entries(*final(db)) == db_entries(*old(db))
                    },
                    ErrorKind::PolicyViolation => {
                        &&& refused(db_entries(*old(db)), node_of::<Self>(key.bytes()))
                        &&& db_entries(*final(db)) == db_entries(*old(db))
                    },
                    _ => false,
                },
            },
            refused(db_entries(*old(db)), node_of::<Self>(key.bytes())) || blocked(
                db_entries(*old(db)),
                node_of::<Self>(key.bytes()),
            ) || garbled(db_entries(*old(db)), node_of::<Self>(key.bytes())) ==> r is Err
                && db_entries(*final(db)) == db_entries(*old(db)),
    {
        let bytes = key.as_bytes();
        let root = RecordId::new(Self::store_name().as_bytes(), bytes.as_slice());
        remove_record(db, &root)
    }

    /// Rewrites the record with the key `key` in one step of the engine:
    /// the record is decoded, changed by `f` and stored again. Nothing
    /// happens if there is no such record. If what is stored is no
    /// record, it is left as it is and the update is an `IntegrityError`.
    fn update<F: Fn(&mut Self)>(key: &Self::Key, f: F, db: &mut sled::Db) -> (r: Result<()>)
        requires
            forall|m: &mut Self| call_requires(f, (m,)),
        ensures
            match r {
                Ok(_) => match slot_of::<Self>(db_entries(*old(db)), key.bytes()) {
                    Slot::Absent => db_entries(*final(db)) == db_entries(*old(db)),
                    Slot::Unreadable => false,
                    Slot::Holds(before) => exists|m: &mut Self|
                        *m == before && call_ensures(f, (m,), ()) && db_entries(*final(db))
                            == db_entries(*old(db)).insert(
                            node_of::<Self>(key.bytes()),
                            (*final(m)).encoded(),
                        ),
                },
                Err(e) => e.kind == ErrorKind::IoError || (e.kind == ErrorKind::IntegrityError
                    && slot_of::<Self>(db_entries(*old(db)), key.bytes()) is Unreadable
                    && db_entries(*final(db)) == db_entries(*old(db))),
            },
    {
        let bytes = key.as_bytes();
        let ghost changes: spec_fn(&mut Self) -> bool = |m: &mut Self| call_ensures(f, (m,), ());
        let rewrite = |current: Option<&[u8]>| -> (next: Option<Vec<u8>>)
            ensures
                match current {
                    None => next is None,
                    Some(body) => match Self::decoded(body@) {
                        None => opt_view(next) == Some(body@),
                        Some(before) => exists|m: &mut Self|
                            *m == before && changes(m) && opt_view(next) == Some(
                                (*final(m)).encoded(),
                            ),
                    },
                },
            {
                match current {
                    None => None,
                    Some(body) => match Self::from_bytes(body) {
                        Some(mut value) => {
                            f(&mut value);
                            Some(value.to_bytes())
                        },
                        None => Some(vstd::slice::slice_to_vec(body)),
                    },
                }
            };
        let ghost before = db_entries(*db);
        let outcome = tree_fetch_and_update(
            db,
            Self::store_name().as_bytes(),
            bytes.as_slice(),
            rewrite,
        );
        match surface(outcome) {
            Ok(previous) => {
                proof {
                    let slot = node_of::<Self>(key.bytes());
                    if previous is Some {
                        if Self::decoded(previous->0@) is None {
                            assert(before.insert(slot, previous->0@) =~= before);
                        }
                    } else {
                        assert(before.remove(slot) =~= before);
                    }
                }
                rewritten::<Self>(previous)
            },
            Err(e) => Err(e),
        }
    }

    /// All records of the store, in ascending key order.
    fn get_all(db: &sled::Db) -> (r: Result<Vec<Self>>)
        ensures
            match r {
                Ok(out) => lists::<Self>(db_entries(*db), Span::All, out@),
                Err(e) => e.kind == ErrorKind::IoError || (e.kind == ErrorKind::IntegrityError
                    && unreadable_in::<Self>(db_entries(*db), Span::All)),
            },
    {
        let items = match scan_all(db, Self::store_name().as_bytes()) {
            Ok(items) => items,
            Err(e) => {
                return Err(e);
            },
        };
        decode_scan::<Self>(&items, 0, items.len(), Ghost(db_entries(*db)), Ghost(Span::All))
    }

    /// The records whose keys begin with the bytes of `prefix`, in
    /// ascending key order. An empty prefix gives all records.
    fn get_with_prefix<P: AsBytes>(prefix: P, db: &sled::Db) -> (r: Result<Vec<Self>>)
        ensures
            match r {
                Ok(out) => lists::<Self>(db_entries(*db), Span::Prefix(prefix.bytes()), out@),
                Err(e) => e.kind == ErrorKind::IoError || (e.kind == ErrorKind::IntegrityError
                    && unreadable_in::<Self>(db_entries(*db), Span::Prefix(prefix.bytes()))),
            },
    {
        let bytes = prefix.as_bytes();
        let items = match scan_prefix(db, Self::store_name().as_bytes(), bytes.as_slice()) {
            Ok(items) => items,
            Err(e) => {
                return Err(e);
            },
        };
        decode_scan::<Self>(
            &items,
            0,
            items.len(),
            Ghost(db_entries(*db)),
            Ghost(Span::Prefix(prefix.bytes())),
        )
    }

    /// The records whose keys lie in the half-open range from the bytes
    /// of `start` to the bytes of `end`, in ascending key order.
    fn get_in_range<A: AsBytes, B: AsBytes>(start: A, end: B, db: &sled::Db) -> (r: Result<
        Vec<Self>,
    >)
        ensures
            match r {
                Ok(out) => lists::<Self>(
                    db_entries(*db),
                    Span::Range(start.bytes(), end.bytes()),
                    out@,
                ),
                Err(e) => e.kind == ErrorKind::IoError || (e.kind == ErrorKind::IntegrityError
                    && unreadable_in::<Self>(
                    db_entries(*db),
                    Span::Range(start.bytes(), end.bytes()),
                )),
            },
    {
        let lo = start.as_bytes();
        let hi = end.as_bytes();
        let items = match scan_range(
            db,
            Self::store_name().as_bytes(),
            lo.as_slice(),
            hi.as_slice(),
        ) {
            Ok(items) => items,
            Err(e) => {
                return Err(e);
            },
        };
        decode_scan::<Self>(
            &items,
            0,
            items.len(),
            Ghost(db_entries(*db)),
            Ghost(Span::Range(start.bytes(), end.bytes())),
        )
    }

    /// A window on the records in ascending key order: the first `start`
    /// are skipped, at most `offset` are returned. With a prefix, the
    /// window is on the records whose keys begin with it.
    fn get_from_start<P: AsBytes>(start: usize, offset: usize, prefix: Option<P>, db: &sled::Db) -> (r:
        Result<Vec<Self>>)
        ensures
            match r {
                Ok(out) => exists|raw: Seq<Pair>|
                    is_scan(raw, db_entries(*db), tree_of::<Self>(), span_of(prefix))
                        && #[trigger] decodes_to::<Self>(
                        window_from_start(raw, start as int, offset as int),
                        out@,
                    ),
                Err(e) => e.kind == ErrorKind::IoError || (e.kind == ErrorKind::IntegrityError
                    && unreadable_in::<Self>(db_entries(*db), span_of(prefix))),
            },
    {
        let items = match scan_optional(db, Self::store_name().as_bytes(), &prefix) {
            Ok(items) => items,
            Err(e) => {
                return Err(e);
            },
        };
        let (lo, hi) = bounds_from_start(items.len(), start, offset);
        let r = decode_scan::<Self>(&items, lo, hi, Ghost(db_entries(*db)), Ghost(span_of(prefix)));
        proof {
            let raw = pairs_view(items@);
            assert(window_from_start(raw, start as int, offset as int) == raw.subrange(
                lo as int,
                hi as int,
            ));
            if r is Ok {
                assert(decodes_to::<Self>(
                    window_from_start(raw, start as int, offset as int),
                    r->Ok_0@,
                ));
            }
        }
        r
    }

    /// A window on the records counted from the greatest key: the last
    /// `start` are skipped, at most `offset` before them are returned, in
    /// ascending key order. With a prefix, the window is on the records
    /// whose keys begin with it.
    fn get_from_end<P: AsBytes>(start: usize, offset: usize, prefix: Option<P>, db: &sled::Db) -> (r:
        Result<Vec<Self>>)
        ensures
            match r {
                Ok(out) => exists|raw: Seq<Pair>|
                    is_scan(raw, db_entries(*db), tree_of::<Self>(), span_of(prefix))
                        && #[trigger] decodes_to::<Self>(
                        window_from_end(raw, start as int, offset as int),
                        out@,
                    ),
                Err(e) => e.kind == ErrorKind::IoError || (e.kind == ErrorKind::IntegrityError
                    && unreadable_in::<Self>(db_entries(*db), span_of(prefix))),
            },
    {
        let items = match scan_optional(db, Self::store_name().as_bytes(), &prefix) {
            Ok(items) => items,
            Err(e) => {
                return Err(e);
            },
        };
        let (lo, hi) = bounds_from_end(items.len(), start, offset);
        let r = decode_scan::<Self>(&items, lo, hi, Ghost(db_entries(*db)), Ghost(span_of(prefix)));
        proof {
            let raw = pairs_view(items@);
            assert(window_from_end(raw, start as int, offset as int) == raw.subrange(
                lo as int,
                hi as int,
            ));
            if r is Ok {
                assert(decodes_to::<Self>(
                    window_from_end(raw, start as int, offset as int),
                    r->Ok_0@,
                ));
            }
        }
        r
    }

    /// The number of records in the store. The entries are counted from
    /// a scan, so that a read that fails is reported and not counted.
    fn get_number(db: &sled::Db) -> (r: Result<usize>)
        ensures
            match r {
                Ok(n) => tree_keys(db_entries(*db), tree_of::<Self>()).finite() && n == tree_keys(
                    db_entries(*db),
                    tree_of::<Self>(),
                ).len(),
                Err(e) => e.kind == ErrorKind::IoError,
            },
    {
        let items = match scan_all(db, Self::store_name().as_bytes()) {
            Ok(items) => items,
            Err(e) => {
                return Err(e);
            },
        };
        proof {
            crate::model::lemma_scan_counts(pairs_view(items@), db_entries(*db), tree_of::<Self>());
        }
        Ok(items.len())
    }

    /// The records that `f` accepts, in ascending key order. Every record
    /// of the store is decoded and shown to `f`.
    fn get_with_filter<F: Fn(&Self) -> bool>(f: F, db: &sled::Db) -> (r: Result<Vec<Self>>)
        requires
            forall|record: &Self| call_requires(f, (record,)),
        ensures
            match r {
                Ok(out) => exists|all: Seq<Self>, verdicts: Seq<bool>|
                    {
                        &&& lists::<Self>(db_entries(*db), Span::All, all)
                        &&& #[trigger] judged(f, all, verdicts)
                        &&& out@ == picked(all, verdicts)
                    },
                Err(e) => e.kind == ErrorKind::IoError || (e.kind == ErrorKind::IntegrityError
                    && unreadable_in::<Self>(db_entries(*db), Span::All)),
            },
    {
        let all = match Self::get_all(db) {
            Ok(all) => all,
            Err(e) => {
                return Err(e);
            },
        };
        Ok(keep(all, &f))
    }

    /// The records with the given keys, in the order of the keys: each
    /// key is looked up by itself, and a key without a record is passed
    /// over, as is one whose lookup fails.
    fn get_each(keys: &[Self::Key], db: &sled::Db) -> (out: Vec<Self>)
        ensures
            exists|answers: Seq<Result<Option<Self>>>|
                {
                    &&& answers.len() == keys@.len()
                    &&& forall|i: int|
                        0 <= i < answers.len() ==> answers_for::<Self>(
                            db_entries(*db),
                            keys@[i].bytes(),
                            #[trigger] answers[i],
                        )
                    &&& out@ == present(answered(answers))
                },
    {
        let mut answers: Vec<Result<Option<Self>>> = Vec::new();
        let mut i: usize = 0;
        while i < keys.len()
            invariant
                i <= keys@.len(),
                answers@.len() == i,
                forall|k: int|
                    0 <= k < answers@.len() ==> answers_for::<Self>(
                        db_entries(*db),
                        keys@[k].bytes(),
                        #[trigger] answers@[k],
                    ),
            decreases keys@.len() - i,
        {
            answers.push(Self::get(&keys[i], db));
            i += 1;
        }
        gather(answers)
    }

    /// The records whose keys have the given bytes, in the order of the
    /// keys: each key is looked up by itself, and a key without a record
    /// is passed over, as is one whose lookup fails.
    fn get_each_u8(keys: &Vec<Vec<u8>>, db: &sled::Db) -> (out: Vec<Self>)
        ensures
            exists|answers: Seq<Result<Option<Self>>>|
                {
                    &&& answers.len() == keys@.len()
                    &&& forall|i: int|
                        0 <= i < answers.len() ==> answers_for::<Self>(
                            db_entries(*db),
                            keys@[i]@,
                            #[trigger] answers[i],
                        )
                    &&& out@ == present(answered(answers))
                },
    {
        let mut answers: Vec<Result<Option<Self>>> = Vec::new();
        let mut i: usize = 0;
        while i < keys.len()
            invariant
                i <= keys@.len(),
                answers@.len() == i,
                forall|k: int|
                    0 <= k < answers@.len() ==> answers_for::<Self>(
                        db_entries(*db),
                        keys@[k]@,
                        #[trigger] answers@[k],
                    ),
            decreases keys@.len() - i,
        {
            answers.push(Self::get_from_u8_array(keys[i].as_slice(), db));
            i += 1;
        }
        gather(answers)
    }

    /// Takes out of the store the records whose keys begin with the bytes
    /// of `prefix`, each under the key that it reports, in ascending key
    /// order. No relation is followed and no link is touched. If one of
    /// the entries is no record, nothing is removed.
    fn remove_prefixed<P: AsBytes>(prefix: P, db: &mut sled::Db) -> (r: Result<()>)
        ensures
            match r {
                Ok(_) => exists|records: Seq<Self>|
                    {
                        &&& #[trigger] lists::<Self>(
                            db_entries(*old(db)),
                            Span::Prefix(prefix.bytes()),
                            records,
                        )
                        &&& db_entries(*final(db)) == db_entries(*old(db)).remove_keys(
                            roots_of(records).to_set(),
                        )
                    },
                Err(e) => e.kind == ErrorKind::IoError || (e.kind == ErrorKind::IntegrityError
                    && unreadable_in::<Self>(db_entries(*old(db)), Span::Prefix(prefix.bytes()))
                    && db_entries(*final(db)) == db_entries(*old(db))),
            },
    {
        let records = match Self::get_with_prefix(prefix, db) {
            Ok(records) => records,
            Err(e) => {
                return Err(e);
            },
        };
        remove_each(&records, db)
    }

    /// Takes out of the store the records that `f` accepts, each under
    /// the key that it reports, in ascending key order, and returns them.
    /// No relation is followed and no link is touched. If one of the
    /// entries of the store is no record, nothing is removed.
    fn filter_remove<F: Fn(&Self) -> bool>(f: F, db: &mut sled::Db) -> (r: Result<Vec<Self>>)
        requires
            forall|record: &Self| call_requires(f, (record,)),
        ensures
            match r {
                Ok(out) => {
                    &&& exists|all: Seq<Self>, verdicts: Seq<bool>|
                        {
                            &&& lists::<Self>(db_entries(*old(db)), Span::All, all)
                            &&& #[trigger] judged(f, all, verdicts)
                            &&& out@ == picked(all, verdicts)
                        }
                    &&& db_entries(*final(db)) == db_entries(*old(db)).remove_keys(
                        roots_of(out@).to_set(),
                    )
                },
                Err(e) => e.kind == ErrorKind::IoError || (e.kind == ErrorKind::IntegrityError
                    && unreadable_in::<Self>(db_entries(*old(db)), Span::All) && db_entries(
                    *final(db),
                ) == db_entries(*old(db))),
            },
    {
        let records = match Self::get_with_filter(f, db) {
            Ok(records) => records,
            Err(e) => {
                return Err(e);
            },
        };
        match remove_each(&records, db) {
            Ok(_) => Ok(records),
            Err(e) => Err(e),
        }
    }

    /// Changes the records that `filter` accepts with `modifier` and saves
    /// each under the key it then has, in ascending order of the keys
    /// they had. The first save that fails ends the operation; what was
    /// saved before stays saved.
    fn filter_update<F: Fn(&Self) -> bool, M: Fn(&mut Self)>(filter: F, modifier: M, db: &mut sled::Db) -> (r:
        Result<()>)
        requires
            forall|record: &Self| call_requires(filter, (record,)),
            forall|m: &mut Self| call_requires(modifier, (m,)),
        ensures
            match r {
                Ok(_) => exists|all: Seq<Self>, verdicts: Seq<bool>, after: Seq<Self>|
                    {
                        &&& lists::<Self>(db_entries(*old(db)), Span::All, all)
                        &&& #[trigger] judged(filter, all, verdicts)
                        &&& #[trigger] reworked(&modifier, picked(all, verdicts), after)
                        &&& db_entries(*final(db)) == after_saves(db_entries(*old(db)), after)
                    },
                Err(e) => e.kind == ErrorKind::IoError || (e.kind == ErrorKind::IntegrityError
                    && unreadable_in::<Self>(db_entries(*old(db)), Span::All) && db_entries(*final(db))
                    == db_entries(*old(db))),
            },
    {
        let ghost before = db_entries(*db);
        let matches = match Self::get_with_filter(filter, db) {
            Ok(matches) => matches,
            Err(e) => {
                return Err(e);
            },
        };
        let ghost (all, verdicts) = choose|all: Seq<Self>, verdicts: Seq<bool>|
            {
                &&& lists::<Self>(before, Span::All, all)
                &&& #[trigger] judged(filter, all, verdicts)
                &&& matches@ == picked(all, verdicts)
            };
        let ghost found = matches@;
        let r = save_reworked(matches, &modifier, db);
        proof {
            if r is Ok {
                let after = choose|after: Seq<Self>|
                    #[trigger] reworked(&modifier, found, after) && db_entries(*db) == after_saves(
                        before,
                        after,
                    );
                assert(judged(filter, all, verdicts));
                assert(reworked(&modifier, picked(all, verdicts), after));
            }
        }
        r
    }

    /// The children of the record in the store of `C`: the records of
    /// that store whose keys begin with the key of this record.
    fn get_children<C: Entity>(&self, db: &sled::Db) -> (r: Result<Vec<C>>)
        ensures
            match r {
                Ok(out) => lists::<C>(db_entries(*db), Span::Prefix(self.key().bytes()), out@),
                Err(e) => e.kind == ErrorKind::IoError || (e.kind == ErrorKind::IntegrityError
                    && unreadable_in::<C>(db_entries(*db), Span::Prefix(self.key().bytes()))),
            },
    {
        let bytes = self.get_key().as_bytes();
        let items = match scan_prefix(db, C::store_name().as_bytes(), bytes.as_slice()) {
            Ok(items) => items,
            Err(e) => {
                return Err(e);
            },
        };
        decode_scan::<C>(
            &items,
            0,
            items.len(),
            Ghost(db_entries(*db)),
            Ghost(Span::Prefix(self.key().bytes())),
        )
    }

    /// The sibling of the record in the store of `T`: the record of that
    /// store with the same key, if there is one.
    fn get_sibling<T: Entity<Key = Self::Key>>(&self, db: &sled::Db) -> (r: Result<Option<T>>)
        ensures
            match r {
                Ok(Some(record)) => slot_of::<T>(db_entries(*db), self.key().bytes()) == Slot::Holds(
                    record,
                ),
                Ok(None) => slot_of::<T>(db_entries(*db), self.key().bytes()) is Absent,
                Err(e) => e.kind == ErrorKind::IoError || (e.kind == ErrorKind::IntegrityError
                    && slot_of::<T>(db_entries(*db), self.key().bytes()) is Unreadable),
            },
    {
        let bytes = self.get_key().as_bytes();
        read_record::<T>(bytes.as_slice(), db)
    }

    /// Saves `sibling` as the sibling of this record: gives it the key of
    /// this record and saves it. Both stores must declare each other as
    /// siblings; otherwise nothing is changed and a `SchemaError` is
    /// returned.
    fn save_sibling<T: Entity<Key = Self::Key>>(&self, sibling: &mut T, db: &mut sled::Db) -> (r:
        Result<()>)
        ensures
            match r {
                Ok(_) => {
                    &&& declares(Self::siblings(), T::store())
                    &&& declares(T::siblings(), Self::store())
                    &&& final(sibling).key() == self.key()
                    &&& db_entries(*final(db)) == after_save(db_entries(*old(db)), *final(sibling))
                },
                Err(e) => match e.kind {
                    ErrorKind::IoError => declares(Self::siblings(), T::store()) && declares(
                        T::siblings(),
                        Self::store(),
                    ) && final(sibling).key() == self.key(),
                    ErrorKind::SchemaError => {
                        &&& !(declares(Self::siblings(), T::store()) && declares(
                            T::siblings(),
                            Self::store(),
                        ))
                        &&& *final(sibling) == *old(sibling)
                        &&& db_entries(*final(db)) == db_entries(*old(db))
                    },
                    _ => false,
                },
            },
    {
        let mine = Self::get_sibling_trees();
        let theirs = T::get_sibling_trees();
        if !names(&mine, T::store_name()) || !names(&theirs, Self::store_name()) {
            return Err(
                StoreError::new(ErrorKind::SchemaError, "The stores do not declare each other as siblings"),
            );
        }
        sibling.set_key(&self.get_key());
        let key = sibling.get_key().as_bytes();
        put_raw(db, T::store_name().as_bytes(), key.as_slice(), sibling.to_bytes())
    }

    /// Links this record and `other`. `self_on_delete` is the policy that
    /// applies to `other` when this record is deleted, `other_on_delete`
    /// the one that applies to this record when `other` is deleted.
    fn create_relation<E: Entity>(
        &self,
        other: &E,
        self_on_delete: DeletionBehaviour,
        other_on_delete: DeletionBehaviour,
        db: &mut sled::Db,
    ) -> (r: Result<()>)
        ensures
            match r {
                Ok(_) => db_entries(*final(db)) == after_link(
                    db_entries(*old(db)),
                    node_of::<Self>(self.key().bytes()),
                    node_of::<E>(other.key().bytes()),
                    self_on_delete,
                    other_on_delete,
                ),
                Err(e) => e.kind == ErrorKind::IoError,
            },
    {
        let a = identity(self);
        let b = identity(other);
        link(db, &a, &b, self_on_delete, other_on_delete)
    }

    /// Drops the link between this record and `other`.
    fn remove_relation<E: Entity>(&self, other: &E, db: &mut sled::Db) -> (r: Result<()>)
        ensures
            match r {
                Ok(_) => db_entries(*final(db)) == after_unlink(
                    db_entries(*old(db)),
                    node_of::<Self>(self.key().bytes()),
                    node_of::<E>(other.key().bytes()),
                ),
                Err(e) => e.kind == ErrorKind::IoError,
            },
    {
        let a = identity(self);
        let b = identity(other);
        unlink(db, &a, &b)
    }

    /// Drops the link between this record and the record of `E` whose key
    /// has the bytes `other`.
    fn remove_relation_with_key<E: Entity>(&self, other: &[u8], db: &mut sled::Db) -> (r: Result<()>)
        ensures
            match r {
                Ok(_) => db_entries(*final(db)) == after_unlink(
                    db_entries(*old(db)),
                    node_of::<Self>(self.key().bytes()),
                    node_of::<E>(other@),
                ),
                Err(e) => e.kind == ErrorKind::IoError,
            },
    {
        let a = identity(self);
        let b = RecordId::new(E::store_name().as_bytes(), other);
        unlink(db, &a, &b)
    }

    /// The records of `E` that this record is linked to, in ascending
    /// order of their keys. A link whose other end is gone is passed
    /// over.
    fn get_related<E: Entity>(&self, db: &sled::Db) -> (r: Result<Vec<E>>)
        ensures
            match r {
                Ok(out) => related::<E>(db_entries(*db), node_of::<Self>(self.key().bytes()), out@),
                Err(e) => e.kind == ErrorKind::IoError || (e.kind == ErrorKind::IntegrityError
                    && related_unreadable::<E>(
                    db_entries(*db),
                    node_of::<Self>(self.key().bytes()),
                )),
            },
    {
        let a = identity(self);
        read_related::<E>(&a, db)
    }

    /// The first of the records of `E` that this record is linked to;
    /// `NotFound` if there is none.
    fn get_single_related<E: Entity>(&self, db: &sled::Db) -> (r: Result<E>)
        ensures
            match r {
                Ok(record) => exists|out: Seq<E>|
                    #[trigger] related::<E>(
                        db_entries(*db),
                        node_of::<Self>(self.key().bytes()),
                        out,
                    ) && out.len() > 0 && out[0] == record,
                Err(e) => match e.kind {
                    ErrorKind::IoError => true,
                    ErrorKind::IntegrityError => related_unreadable::<E>(
                        db_entries(*db),
                        node_of::<Self>(self.key().bytes()),
                    ),
                    ErrorKind::NotFound => related::<E>(
                        db_entries(*db),
                        node_of::<Self>(self.key().bytes()),
                        Seq::empty(),
                    ),
                    _ => false,
                },
            },
    {
        let a = identity(self);
        let found = match read_related::<E>(&a, db) {
            Ok(found) => found,
            Err(e) => {
                return Err(e);
            },
        };
        proof {
            if found@.len() == 0 {
                assert(found@ =~= Seq::<E>::empty());
            }
        }
        first_found(found)
    }

    /// Whether this record is linked to a record of `E`. A link that
    /// cannot be read counts as none.
    fn has_related<E: Entity>(&self, db: &sled::Db) -> (r: bool)
        ensures
            r ==> exists|t: Node|
                t.0 == tree_of::<E>() && #[trigger] half_present(
                    db_entries(*db),
                    node_of::<Self>(self.key().bytes()),
                    t,
                ),
    {
        let a = identity(self);
        a.note_representable();
        let name = E::store_name().as_bytes();
        let _name_len = name.len();
        let outcome = links_to_store(db, &a, name);
        let r = any_link(&outcome);
        proof {
            if r {
                lemma_first_link_present::<E>(db_entries(*db), a@, links_view(outcome->Ok_0@));
            }
        }
        r
    }

    /// Removes the records of `E` that this record is linked to, whatever
    /// relations they take part in, and drops the links to them.
    fn remove_related<E: Entity>(&self, db: &mut sled::Db) -> (r: Result<()>)
        ensures
            match r {
                Ok(_) => exists|targets: Seq<Node>|
                    {
                        &&& #[trigger] linked_to::<E>(
                            db_entries(*old(db)),
                            node_of::<Self>(self.key().bytes()),
                            targets,
                        )
                        &&& db_entries(*final(db)) == db_entries(*old(db)).remove_keys(
                            severed(node_of::<Self>(self.key().bytes()), targets),
                        )
                    },
                Err(e) => e.kind == ErrorKind::IoError || (e.kind == ErrorKind::IntegrityError
                    && unsound_under(
                    db_entries(*old(db)),
                    store_prefix(node_of::<Self>(self.key().bytes()), tree_of::<E>()),
                ) && db_entries(*final(db)) == db_entries(*old(db))),
            },
    {
        let a = identity(self);
        sever::<E>(&a, db)
    }
}

impl<E: Entity> EntityStore for E {
}

} // verus!
