//! Reading, filtering and writing lists of records: what the operations
//! of a store are built from.

use vstd::prelude::*;
use vstd::utf8::encode_utf8;
use crate::codec::same_bytes;
use crate::deletion::is_half_of;
use crate::engine::db_entries;
use crate::entity::{Entity, Slot, after_save, node_of, slot_of, tree_of};
use crate::error::{ErrorKind, Result, StoreError};
use crate::family::DeletionBehaviour;
use crate::keys::AsBytes;
use crate::model::{Entries, Pair, Span, is_scan, lookup, pairs_view};
use crate::relation::{
    LinkView, Node, RecordId, half_present, link_target, links_to_store, links_view, reads_as,
    relations_tree, store_prefix, unlink, unsound_under,
};
use crate::store::{get_raw, put_raw, remove_raw, scan_all, scan_prefix};

verus! {

/// `out` are the records that the values of `raw` decode to, one for one.
pub open spec fn decodes_to<E: Entity>(raw: Seq<Pair>, out: Seq<E>) -> bool {
    &&& out.len() == raw.len()
    &&& forall|i: int| 0 <= i < raw.len() ==> E::decoded((#[trigger] raw[i]).1) == Some(out[i])
}

/// `out` are the records of `E` whose keys lie in `span`, in ascending
/// key order.
pub open spec fn lists<E: Entity>(entries: Entries, span: Span, out: Seq<E>) -> bool {
    exists|raw: Seq<Pair>|
        is_scan(raw, entries, tree_of::<E>(), span) && #[trigger] decodes_to::<E>(raw, out)
}

/// One of the entries of `E` whose keys lie in `span` is no record.
pub open spec fn unreadable_in<E: Entity>(entries: Entries, span: Span) -> bool {
    exists|key: Seq<u8>|
        span.holds(key) && #[trigger] slot_of::<E>(entries, key) is Unreadable
}

/// The smaller of two numbers.
pub open spec fn least(a: int, b: int) -> int {
    if a <= b {
        a
    } else {
        b
    }
}

/// What is left of `raw` after skipping `start` entries from the front
/// and keeping at most `offset`.
pub open spec fn window_from_start<T>(raw: Seq<T>, start: int, offset: int) -> Seq<T> {
    raw.subrange(least(start, raw.len() as int), least(start + offset, raw.len() as int))
}

/// What is left of `raw` after skipping `start` entries from the back and
/// keeping at most `offset`, in the order of `raw`.
pub open spec fn window_from_end<T>(raw: Seq<T>, start: int, offset: int) -> Seq<T> {
    raw.subrange(
        raw.len() - least(start + offset, raw.len() as int),
        raw.len() - least(start, raw.len() as int),
    )
}

/// The records of `all` whose verdict is `true`, in their order.
pub open spec fn picked<T>(all: Seq<T>, verdicts: Seq<bool>) -> Seq<T>
    decreases all.len(),
{
    if all.len() == 0 || verdicts.len() != all.len() {
        Seq::empty()
    } else if verdicts.last() {
        picked(all.drop_last(), verdicts.drop_last()).push(all.last())
    } else {
        picked(all.drop_last(), verdicts.drop_last())
    }
}

/// The records that are there, in their order.
pub open spec fn present<T>(found: Seq<Option<T>>) -> Seq<T>
    decreases found.len(),
{
    if found.len() == 0 {
        Seq::empty()
    } else {
        match found.last() {
            Some(record) => present(found.drop_last()).push(record),
            None => present(found.drop_last()),
        }
    }
}

/// What the answers to single lookups hold, one for one: the record where
/// a lookup found one, and nothing where it found none or failed.
pub open spec fn answered<E>(answers: Seq<Result<Option<E>>>) -> Seq<Option<E>> {
    Seq::new(
        answers.len(),
        |i: int|
            match answers[i] {
                Ok(Some(record)) => Some(record),
                _ => None,
            },
    )
}

/// `answer` is an answer that the lookup of the key bytes `key` in the
/// store of `E` can give.
pub open spec fn answers_for<E: Entity>(entries: Entries, key: Seq<u8>, answer: Result<Option<E>>) -> bool {
    match answer {
        Ok(Some(record)) => slot_of::<E>(entries, key) == Slot::Holds(record),
        Ok(None) => slot_of::<E>(entries, key) is Absent,
        Err(e) => e.kind == ErrorKind::IoError || (e.kind == ErrorKind::IntegrityError
            && slot_of::<E>(entries, key) is Unreadable),
    }
}

/// The records that the lookups found, in the order of the answers. An
/// answer without a record is passed over, and so is a failed lookup.
pub fn gather<E>(answers: Vec<Result<Option<E>>>) -> (out: Vec<E>)
    ensures
        out@ == present(answered(answers@)),
{
    let mut out: Vec<E> = Vec::new();
    let ghost whole = answers@;
    proof {
        assert(answered(whole.take(0)) =~= Seq::<Option<E>>::empty());
    }
    for answer in it: answers
        invariant
            it.seq() == whole,
            out@ == present(answered(whole.take(it.index() as int))),
    {
        proof {
            let shown = answered(whole.take(it.index() as int));
            let next = answered(whole.take(it.index() + 1));
            assert(next.drop_last() =~= shown);
            assert(whole.take(it.index() + 1).last() == answer);
        }
        match answer {
            Ok(Some(record)) => {
                out.push(record);
            },
            _ => {},
        }
    }
    proof {
        assert(whole.take(whole.len() as int) =~= whole);
    }
    out
}

/// `verdicts` are answers that `f` can give on the records of `all`, one
/// for one.
pub open spec fn judged<T, F: Fn(&T) -> bool>(f: F, all: Seq<T>, verdicts: Seq<bool>) -> bool {
    &&& verdicts.len() == all.len()
    &&& forall|i: int| 0 <= i < all.len() ==> call_ensures(f, (&#[trigger] all[i],), verdicts[i])
}

/// Decodes the values of the entries of `items` from position `lo` up to
/// position `hi`. The first value that is no record makes the whole an
/// `IntegrityError`.
fn decode_range<E: Entity>(items: &Vec<(Vec<u8>, Vec<u8>)>, lo: usize, hi: usize) -> (r: Result<
    Vec<E>,
>)
    requires
        lo <= hi <= items@.len(),
    ensures
        match r {
            Ok(out) => decodes_to::<E>(pairs_view(items@).subrange(lo as int, hi as int), out@),
            Err(e) => e.kind == ErrorKind::IntegrityError && exists|i: int|
                lo <= i < hi && E::decoded((#[trigger] pairs_view(items@)[i]).1) is None,
        },
{
    let ghost raw = pairs_view(items@);
    let mut out: Vec<E> = Vec::new();
    let mut i: usize = lo;
    while i < hi
        invariant
            lo <= i <= hi <= items@.len(),
            raw == pairs_view(items@),
            decodes_to::<E>(raw.subrange(lo as int, i as int), out@),
        decreases hi - i,
    {
        assert(raw[i as int].1 == items@[i as int].1@);
        match E::from_bytes(items[i].1.as_slice()) {
            Some(record) => {
                let ghost before = out@;
                out.push(record);
                proof {
                    let shown = raw.subrange(lo as int, i + 1);
                    assert forall|k: int| 0 <= k < shown.len() implies E::decoded(
                        (#[trigger] shown[k]).1,
                    ) == Some(out@[k]) by {
                        if k < i - lo {
                            assert(shown[k] == raw.subrange(lo as int, i as int)[k]);
                        }
                    }
                }
            },
            None => {
                return Err(StoreError::new(ErrorKind::IntegrityError, "Could not decode record"));
            },
        }
        i += 1;
    }
    Ok(out)
}

/// The keys that a scan with an optional prefix asks for.
pub open spec fn span_of<P: AsBytes>(prefix: Option<P>) -> Span {
    match prefix {
        Some(p) => Span::Prefix(p.bytes()),
        None => Span::All,
    }
}

/// The entries of `store` whose keys begin with the bytes of `prefix`,
/// or all entries if there is no prefix, in ascending key order.
pub fn scan_optional<P: AsBytes>(db: &sled::Db, store: &[u8], prefix: &Option<P>) -> (r: Result<
    Vec<(Vec<u8>, Vec<u8>)>,
>)
    ensures
        match r {
            Ok(items) => is_scan(pairs_view(items@), db_entries(*db), store@, span_of(*prefix)),
            Err(e) => e.kind == ErrorKind::IoError,
        },
{
    match prefix {
        Some(p) => {
            let bytes = p.as_bytes();
            scan_prefix(db, store, bytes.as_slice())
        },
        None => scan_all(db, store),
    }
}

/// Decodes a window of a scan of the store of `E`. A value that is no
/// record makes the whole an `IntegrityError`.
pub(crate) fn decode_scan<E: Entity>(
    items: &Vec<(Vec<u8>, Vec<u8>)>,
    lo: usize,
    hi: usize,
    Ghost(entries): Ghost<Entries>,
    Ghost(span): Ghost<Span>,
) -> (r: Result<Vec<E>>)
    requires
        lo <= hi <= items@.len(),
        is_scan(pairs_view(items@), entries, tree_of::<E>(), span),
    ensures
        match r {
            Ok(out) => decodes_to::<E>(pairs_view(items@).subrange(lo as int, hi as int), out@),
            Err(e) => e.kind == ErrorKind::IntegrityError && unreadable_in::<E>(entries, span),
        },
        lo == 0 && hi == items@.len() && r is Ok ==> lists::<E>(entries, span, r->Ok_0@),
{
    let r = decode_range::<E>(items, lo, hi);
    proof {
        let raw = pairs_view(items@);
        if r is Ok {
            if lo == 0 && hi == items@.len() {
                assert(raw.subrange(0, raw.len() as int) =~= raw);
                assert(decodes_to::<E>(raw, r->Ok_0@));
            }
        } else {
            let i = choose|i: int| lo <= i < hi && E::decoded((#[trigger] raw[i]).1) is None;
            assert(span.holds(raw[i].0));
            assert(lookup(entries, tree_of::<E>(), raw[i].0) == Some(raw[i].1));
            assert(slot_of::<E>(entries, raw[i].0) is Unreadable);
        }
    }
    r
}

/// The records of `records` as nodes of the relation graph.
pub open spec fn roots_of<E: Entity>(records: Seq<E>) -> Seq<Node> {
    Seq::new(records.len(), |i: int| node_of::<E>(records[i].key().bytes()))
}

/// What the database holds once `records` are saved one after the other.
pub open spec fn after_saves<E: Entity>(entries: Entries, records: Seq<E>) -> Entries
    decreases records.len(),
{
    if records.len() == 0 {
        entries
    } else {
        after_save(after_saves(entries, records.drop_last()), records.last())
    }
}

/// The records of `all` that `f` accepts, in their order.
pub fn keep<T, F: Fn(&T) -> bool>(all: Vec<T>, f: &F) -> (out: Vec<T>)
    requires
        forall|record: &T| call_requires(*f, (record,)),
    ensures
        exists|verdicts: Seq<bool>| #[trigger] judged(*f, all@, verdicts) && out@ == picked(all@, verdicts),
{
    let mut out: Vec<T> = Vec::new();
    let ghost mut verdicts: Seq<bool> = Seq::empty();
    let ghost whole = all@;
    for record in it: all
        invariant
            it.seq() == whole,
            forall|record: &T| call_requires(*f, (record,)),
            verdicts.len() == it.index(),
            forall|i: int| 0 <= i < it.index() ==> call_ensures(*f, (&#[trigger] whole[i],), verdicts[i]),
            out@ == picked(whole.take(it.index() as int), verdicts),
    {
        let ghost before = verdicts;
        let ghost shown = whole.take(it.index() as int);
        let accepted = f(&record);
        proof {
            verdicts = verdicts.push(accepted);
            let next = whole.take(it.index() + 1);
            assert(next.drop_last() =~= shown);
            assert(verdicts.drop_last() =~= before);
            assert(next.last() == record);
        }
        if accepted {
            out.push(record);
        }
    }
    proof {
        assert(whole.take(whole.len() as int) =~= whole);
        assert(judged(*f, whole, verdicts));
    }
    out
}

/// Takes `records` out of their store, one after the other, and nothing
/// else: no relation is followed and no link is touched. With no record
/// to take out the operation succeeds and changes nothing. The first
/// removal that fails ends the operation.
pub fn remove_each<E: Entity>(records: &Vec<E>, db: &mut sled::Db) -> (r: Result<()>)
    ensures
        match r {
            Ok(_) => db_entries(*final(db)) == db_entries(*old(db)).remove_keys(
                roots_of(records@).to_set(),
            ),
            Err(e) => e.kind == ErrorKind::IoError && records@.len() > 0,
        },
{
    let ghost before = db_entries(*db);
    let ghost roots = roots_of(records@);
    let mut i: usize = 0;
    proof {
        assert(before.remove_keys(roots.take(0).to_set()) =~= before);
    }
    while i < records.len()
        invariant
            i <= records@.len(),
            before == db_entries(*old(db)),
            roots == roots_of(records@),
            db_entries(*db) == before.remove_keys(roots.take(i as int).to_set()),
        decreases records@.len() - i,
    {
        let key = records[i].get_key().as_bytes();
        let ghost now = db_entries(*db);
        match remove_raw(db, E::store_name().as_bytes(), key.as_slice()) {
            Ok(_) => {},
            Err(e) => {
                return Err(e);
            },
        }
        proof {
            let gone = roots.take(i as int);
            let next = roots.take(i + 1);
            assert(next =~= gone.push(roots[i as int]));
            assert(next.to_set() =~= gone.to_set().insert(roots[i as int])) by {
                assert forall|n: Node| next.to_set().contains(n) <==> gone.to_set().insert(
                    roots[i as int],
                ).contains(n) by {
                    if next.contains(n) {
                        let k = choose|k: int| 0 <= k < next.len() && next[k] == n;
                        if k < i {
                            assert(gone[k] == n);
                        }
                    }
                    if gone.contains(n) {
                        let k = choose|k: int| 0 <= k < gone.len() && gone[k] == n;
                        assert(next[k] == n);
                    }
                    assert(next[i as int] == roots[i as int]);
                }
            }
            assert(now.remove(roots[i as int]) =~= before.remove_keys(next.to_set()));
        }
        i += 1;
    }
    proof {
        assert(roots.take(i as int) =~= roots);
    }
    Ok(())
}

/// What `modifier` makes of `record`.
pub fn changed<T, M: Fn(&mut T)>(modifier: &M, record: T) -> (after: T)
    requires
        forall|m: &mut T| call_requires(*modifier, (m,)),
    ensures
        exists|m: &mut T|
            *m == record && *final(m) == after && #[trigger] call_ensures(*modifier, (m,), ()),
{
    let mut record = record;
    modifier(&mut record);
    record
}

/// `modifier` can turn `before` into `after`: `after` is a possible
/// result of [`changed`].
pub open spec fn changed_by<T, M: Fn(&mut T)>(modifier: &M, before: T, after: T) -> bool {
    call_ensures(changed::<T, M>, (modifier, before), after)
}

/// `modifier` can turn the records of `before` into those of `after`,
/// one for one.
pub open spec fn reworked<T, M: Fn(&mut T)>(modifier: &M, before: Seq<T>, after: Seq<T>) -> bool {
    &&& after.len() == before.len()
    &&& forall|i: int| 0 <= i < before.len() ==> changed_by(modifier, before[i], #[trigger] after[i])
}

/// Changes each of `records` with `modifier` and saves it under the key
/// it then has.
#[verifier::rlimit(40)]
pub fn save_reworked<E: Entity, M: Fn(&mut E)>(records: Vec<E>, modifier: &M, db: &mut sled::Db) -> (r:
    Result<()>)
    requires
        forall|m: &mut E| call_requires(*modifier, (m,)),
    ensures
        match r {
            Ok(_) => exists|after: Seq<E>|
                #[trigger] reworked(modifier, records@, after) && db_entries(*final(db)) == after_saves(
                    db_entries(*old(db)),
                    after,
                ),
            Err(e) => e.kind == ErrorKind::IoError && records@.len() > 0,
        },
{
    let ghost before = db_entries(*db);
    let ghost whole = records@;
    let ghost mut after: Seq<E> = Seq::empty();
    let change = changed::<E, M>;
    for record in it: records
        invariant
            it.seq() == whole,
            forall|m: &mut E| call_requires(*modifier, (m,)),
            change == changed::<E, M>,
            reworked(modifier, whole.take(it.index() as int), after),
            db_entries(*db) == after_saves(before, after),
    {
        let ghost done = after;
        let ghost given = record;
        let record = change(modifier, record);
        let key = record.get_key().as_bytes();
        match put_raw(db, E::store_name().as_bytes(), key.as_slice(), record.to_bytes()) {
            Ok(_) => {},
            Err(e) => {
                return Err(e);
            },
        }
        proof {
            after = after.push(record);
            assert(after.drop_last() =~= done);
            assert(whole[it.index() as int] == given);
            assert(changed_by(modifier, given, record));
            let shown = whole.take(it.index() + 1);
            assert forall|i: int| 0 <= i < shown.len() implies changed_by(
                modifier,
                shown[i],
                #[trigger] after[i],
            ) by {
                if i < it.index() {
                    assert(after[i] == done[i]);
                    assert(shown[i] == whole.take(it.index() as int)[i]);
                }
            }
        }
    }
    proof {
        assert(whole.take(whole.len() as int) =~= whole);
    }
    Ok(())
}

/// The identity of a record.
pub fn identity<E: Entity>(record: &E) -> (id: RecordId)
    ensures
        id@ == node_of::<E>(record.key().bytes()),
{
    let key = record.get_key().as_bytes();
    RecordId::new(E::store_name().as_bytes(), key.as_slice())
}

/// The record that a slot of the store of `E` holds, told from the bytes
/// found there: none where nothing was found, and an `IntegrityError`
/// where the bytes are no record.
pub fn record_in<E: Entity>(found: Option<Vec<u8>>) -> (r: Result<Option<E>>)
    ensures
        match found {
            None => r == Ok::<Option<E>, StoreError>(None),
            Some(body) => match E::decoded(body@) {
                Some(record) => r == Ok::<Option<E>, StoreError>(Some(record)),
                None => r is Err && r->Err_0.kind == ErrorKind::IntegrityError,
            },
        },
{
    match found {
        None => Ok(None),
        Some(body) => match E::from_bytes(body.as_slice()) {
            Some(record) => Ok(Some(record)),
            None => Err(StoreError::new(ErrorKind::IntegrityError, "Could not decode record")),
        },
    }
}

/// Reads the record of `E` whose key has the bytes `key`.
pub fn read_record<E: Entity>(key: &[u8], db: &sled::Db) -> (r: Result<Option<E>>)
    ensures
        match r {
            Ok(Some(record)) => slot_of::<E>(db_entries(*db), key@) == Slot::Holds(record),
            Ok(None) => slot_of::<E>(db_entries(*db), key@) is Absent,
            Err(e) => e.kind == ErrorKind::IoError || (e.kind == ErrorKind::IntegrityError
                && slot_of::<E>(db_entries(*db), key@) is Unreadable),
        },
{
    match get_raw(db, E::store_name().as_bytes(), key) {
        Err(e) => Err(e),
        Ok(found) => record_in::<E>(found),
    }
}

/// The outcome of a rewrite in place, told from what the slot held
/// before: done where it held a record or nothing, an `IntegrityError`
/// where it held bytes that are no record.
pub fn rewritten<E: Entity>(previous: Option<Vec<u8>>) -> (r: Result<()>)
    ensures
        match r {
            Ok(_) => previous matches Some(body) ==> E::decoded(body@) is Some,
            Err(e) => e.kind == ErrorKind::IntegrityError && previous is Some && E::decoded(
                previous->0@,
            ) is None,
        },
{
    match previous {
        None => Ok(()),
        Some(body) => match E::from_bytes(body.as_slice()) {
            Some(_) => Ok(()),
            None => Err(StoreError::new(ErrorKind::IntegrityError, "Could not decode record")),
        },
    }
}

/// One of the declarations of `list` names the store `store`.
pub open spec fn declares(list: Seq<(&'static str, DeletionBehaviour)>, store: Seq<char>) -> bool {
    exists|i: int| 0 <= i < list.len() && encode_utf8((#[trigger] list[i]).0@) == encode_utf8(store)
}

/// Whether one of the declarations of `list` names the store `store`.
pub fn names(list: &Vec<(&'static str, DeletionBehaviour)>, store: &str) -> (r: bool)
    ensures
        r == declares(list@, store@),
{
    let mut i: usize = 0;
    while i < list.len()
        invariant
            i <= list@.len(),
            forall|k: int| 0 <= k < i ==> encode_utf8((#[trigger] list@[k]).0@) != encode_utf8(store@),
        decreases list@.len() - i,
    {
        if same_bytes(list[i].0.as_bytes(), store.as_bytes()) {
            return true;
        }
        i += 1;
    }
    false
}

/// `targets` are the records of `E` that `a` is linked to, in ascending
/// order of their keys, each link being sound.
pub open spec fn linked_to<E: Entity>(entries: Entries, a: Node, targets: Seq<Node>) -> bool {
    exists|raw: Seq<Pair>, links: Seq<LinkView>|
        {
            &&& is_scan(raw, entries, relations_tree(), Span::Prefix(store_prefix(a, tree_of::<E>())))
            &&& #[trigger] reads_as(entries, raw, links)
            &&& targets == targets_of(links)
        }
}

/// The records at the other ends of `links`.
pub open spec fn targets_of(links: Seq<LinkView>) -> Seq<Node> {
    Seq::new(links.len(), |i: int| links[i].target)
}

/// The records of `slots` that are there and readable, in their order.
pub open spec fn held<E>(slots: Seq<Slot<E>>) -> Seq<E>
    decreases slots.len(),
{
    if slots.len() == 0 {
        Seq::empty()
    } else {
        match slots.last() {
            Slot::Holds(record) => held(slots.drop_last()).push(record),
            _ => held(slots.drop_last()),
        }
    }
}

/// What the store of `E` holds under the keys of `targets`.
pub open spec fn slots_at<E: Entity>(entries: Entries, targets: Seq<Node>) -> Seq<Slot<E>> {
    Seq::new(targets.len(), |i: int| slot_of::<E>(entries, targets[i].1))
}

/// `out` are the records of `E` that `a` is linked to, in ascending order
/// of their keys; links whose other end is gone are passed over.
pub open spec fn related<E: Entity>(entries: Entries, a: Node, out: Seq<E>) -> bool {
    exists|targets: Seq<Node>|
        {
            &&& #[trigger] linked_to::<E>(entries, a, targets)
            &&& forall|i: int|
                0 <= i < targets.len() ==> !(#[trigger] slots_at::<E>(entries, targets)[i] is Unreadable)
            &&& out == held(slots_at::<E>(entries, targets))
        }
}

/// What is stored about the records of `E` that `a` is linked to cannot
/// be read: one of the halves that lead to them is not sound, or one of
/// them is no record.
pub open spec fn related_unreadable<E: Entity>(entries: Entries, a: Node) -> bool {
    ||| unsound_under(entries, store_prefix(a, tree_of::<E>()))
    ||| exists|t: Node|
        #[trigger] half_present(entries, a, t) && t.0 == tree_of::<E>() && slot_of::<E>(
            entries,
            t.1,
        ) is Unreadable
}

/// Adds to `out` the record that the lookup of a link's other end found.
/// A link whose other end is gone adds nothing.
pub fn take_up<E>(out: &mut Vec<E>, found: Option<E>)
    ensures
        final(out)@ == match found {
            Some(record) => old(out)@.push(record),
            None => old(out)@,
        },
{
    match found {
        Some(record) => {
            out.push(record);
        },
        None => {},
    }
}

/// The first of the records `found`; `NotFound` if there is none.
pub fn first_found<E>(found: Vec<E>) -> (r: Result<E>)
    ensures
        match r {
            Ok(record) => found@.len() > 0 && record == found@[0],
            Err(e) => e.kind == ErrorKind::NotFound && found@.len() == 0,
        },
{
    let mut found = found;
    let ghost all = found@;
    found.truncate(1);
    match found.pop() {
        Some(record) => {
            assert(record == all[0]);
            Ok(record)
        },
        None => Err(StoreError::new(ErrorKind::NotFound, "No related record")),
    }
}

/// The records of `E` that `a` is linked to.
#[verifier::rlimit(40)]
pub fn read_related<E: Entity>(a: &RecordId, db: &sled::Db) -> (r: Result<Vec<E>>)
    ensures
        match r {
            Ok(out) => related::<E>(db_entries(*db), a@, out@),
            Err(e) => e.kind == ErrorKind::IoError || (e.kind == ErrorKind::IntegrityError
                && related_unreadable::<E>(db_entries(*db), a@)),
        },
{
    let ghost entries = db_entries(*db);
    a.note_representable();
    let name = E::store_name().as_bytes();
    let _name_len = name.len();
    let links = match links_to_store(db, a, name) {
        Ok(links) => links,
        Err(e) => {
            return Err(e);
        },
    };
    let ghost targets = targets_of(links_view(links@));
    let ghost raw = choose|raw: Seq<Pair>|
        {
            &&& is_scan(raw, entries, relations_tree(), Span::Prefix(store_prefix(a@, tree_of::<E>())))
            &&& #[trigger] reads_as(entries, raw, links_view(links@))
        };
    let mut out: Vec<E> = Vec::new();
    let mut i: usize = 0;
    assert(slots_at::<E>(entries, targets).take(0) =~= Seq::<Slot<E>>::empty());
    while i < links.len()
        invariant
            i <= links@.len(),
            entries == db_entries(*db),
            targets == targets_of(links_view(links@)),
            crate::relation::representable(a@),
            tree_of::<E>().len() <= u64::MAX,
            is_scan(raw, entries, relations_tree(), Span::Prefix(store_prefix(a@, tree_of::<E>()))),
            reads_as(entries, raw, links_view(links@)),
            forall|k: int|
                0 <= k < i ==> !(#[trigger] slots_at::<E>(entries, targets)[k] is Unreadable),
            out@ == held(slots_at::<E>(entries, targets).take(i as int)),
        decreases links@.len() - i,
    {
        let ghost slots = slots_at::<E>(entries, targets);
        assert(targets[i as int] == links@[i as int].target@);
        let found = match read_record::<E>(links[i].target.key.as_slice(), db) {
            Ok(found) => found,
            Err(e) => {
                proof {
                    let key = raw[i as int].0;
                    assert(crate::relation::sound_half(entries, key, raw[i as int].1));
                    assert(Span::Prefix(store_prefix(a@, tree_of::<E>())).holds(key));
                    assert(lookup(entries, relations_tree(), key) == Some(raw[i as int].1));
                    crate::relation::lemma_store_prefix_names_target(a@, tree_of::<E>(), key);
                    crate::relation::lemma_link_key_rebuild(key);
                    assert(links_view(links@)[i as int].target == link_target(key));
                    assert(half_present(entries, a@, targets[i as int]));
                }
                return Err(e);
            },
        };
        proof {
            assert(slots.take(i + 1).drop_last() =~= slots.take(i as int));
            assert(slots.take(i + 1).last() == slots[i as int]);
        }
        take_up(&mut out, found);
        i += 1;
    }
    proof {
        let slots = slots_at::<E>(entries, targets);
        assert(slots.take(i as int) =~= slots);
        assert(linked_to::<E>(entries, a@, targets));
    }
    Ok(out)
}

/// Where `a` has a link to a record of `E`, a half filed under `a` is
/// present that leads to the store of `E`.
pub proof fn lemma_first_link_present<E: Entity>(entries: Entries, a: Node, links: Seq<LinkView>)
    requires
        crate::relation::representable(a),
        tree_of::<E>().len() <= u64::MAX,
        links.len() > 0,
        exists|raw: Seq<Pair>|
            {
                &&& is_scan(raw, entries, relations_tree(), Span::Prefix(store_prefix(a, tree_of::<E>())))
                &&& #[trigger] reads_as(entries, raw, links)
            },
    ensures
        exists|t: Node| t.0 == tree_of::<E>() && #[trigger] half_present(entries, a, t),
{
    let raw = choose|raw: Seq<Pair>|
        {
            &&& is_scan(raw, entries, relations_tree(), Span::Prefix(store_prefix(a, tree_of::<E>())))
            &&& #[trigger] reads_as(entries, raw, links)
        };
    let key = raw[0].0;
    assert(crate::relation::sound_half(entries, key, raw[0].1));
    assert(Span::Prefix(store_prefix(a, tree_of::<E>())).holds(key));
    assert(lookup(entries, relations_tree(), key) == Some(raw[0].1));
    crate::relation::lemma_store_prefix_names_target(a, tree_of::<E>(), key);
    let t = link_target(key);
    crate::relation::lemma_link_key_rebuild(key);
    assert(half_present(entries, a, t));
}

/// The slots that removing the records `targets` and their links to `a`
/// empties.
pub open spec fn severed(a: Node, targets: Seq<Node>) -> Set<Node> {
    Set::new(
        |slot: Node|
            exists|i: int|
                0 <= i < targets.len() && (slot == #[trigger] targets[i] || is_half_of(
                    slot,
                    (a, targets[i]),
                )),
    )
}

/// Removes the records of `E` that `a` is linked to, and the links to
/// them.
#[verifier::rlimit(40)]
pub fn sever<E: Entity>(a: &RecordId, db: &mut sled::Db) -> (r: Result<()>)
    ensures
        match r {
            Ok(_) => exists|targets: Seq<Node>|
                {
                    &&& #[trigger] linked_to::<E>(db_entries(*old(db)), a@, targets)
                    &&& db_entries(*final(db)) == db_entries(*old(db)).remove_keys(
                        severed(a@, targets),
                    )
                },
            Err(e) => e.kind == ErrorKind::IoError || (e.kind == ErrorKind::IntegrityError
                && unsound_under(db_entries(*old(db)), store_prefix(a@, tree_of::<E>()))
                && db_entries(*final(db)) == db_entries(*old(db))),
        },
{
    let ghost before = db_entries(*db);
    let links = match links_to_store(db, a, E::store_name().as_bytes()) {
        Ok(links) => links,
        Err(e) => {
            return Err(e);
        },
    };
    let ghost targets = targets_of(links_view(links@));
    assert(linked_to::<E>(before, a@, targets));
    let mut i: usize = 0;
    assert(before.remove_keys(severed(a@, targets.take(0))) =~= before);
    while i < links.len()
        invariant
            i <= links@.len(),
            targets == targets_of(links_view(links@)),
            db_entries(*db) == before.remove_keys(severed(a@, targets.take(i as int))),
        decreases links@.len() - i,
    {
        let target = &links[i].target;
        assert(targets[i as int] == target@);
        match remove_raw(db, target.store.as_slice(), target.key.as_slice()) {
            Ok(_) => {},
            Err(e) => {
                return Err(e);
            },
        }
        match unlink(db, a, target) {
            Ok(_) => {},
            Err(e) => {
                return Err(e);
            },
        }
        proof {
            let gone = severed(a@, targets.take(i as int));
            let next = severed(a@, targets.take(i + 1));
            let forth: Node = (relations_tree(), crate::relation::link_key(a@, target@));
            let back: Node = (relations_tree(), crate::relation::link_key(target@, a@));
            assert(targets.take(i + 1)[i as int] == target@);
            assert(is_half_of(forth, (a@, target@)));
            assert(is_half_of(back, (a@, target@)));
            assert forall|slot: Node| next.contains(slot) <==> gone.contains(slot) || slot == target@
                || slot == forth || slot == back by {
                if next.contains(slot) {
                    let k = choose|k: int|
                        0 <= k < targets.take(i + 1).len() && (slot == #[trigger] targets.take(
                            i + 1,
                        )[k] || is_half_of(slot, (a@, targets.take(i + 1)[k])));
                    if k < i {
                        assert(targets.take(i as int)[k] == targets.take(i + 1)[k]);
                    }
                }
                if gone.contains(slot) {
                    let k = choose|k: int|
                        0 <= k < targets.take(i as int).len() && (slot == #[trigger] targets.take(
                            i as int,
                        )[k] || is_half_of(slot, (a@, targets.take(i as int)[k])));
                    assert(targets.take(i + 1)[k] == targets.take(i as int)[k]);
                }
            }
            assert(next =~= gone.insert(target@).insert(forth).insert(back));
            assert(before.remove_keys(gone).remove(target@).remove(forth).remove(back)
                =~= before.remove_keys(next));
        }
        i += 1;
    }
    proof {
        assert(targets.take(i as int) =~= targets);
    }
    Ok(())
}

/// The positions between which `window_from_start` cuts.
pub fn bounds_from_start(len: usize, start: usize, offset: usize) -> (r: (usize, usize))
    ensures
        r.0 == least(start as int, len as int),
        r.1 == least(start + offset, len as int),
        r.0 <= r.1 <= len,
{
    if start >= len {
        (len, len)
    } else if offset >= len - start {
        (start, len)
    } else {
        (start, start + offset)
    }
}

/// The positions between which `window_from_end` cuts.
pub fn bounds_from_end(len: usize, start: usize, offset: usize) -> (r: (usize, usize))
    ensures
        r.0 == len - least(start + offset, len as int),
        r.1 == len - least(start as int, len as int),
        r.0 <= r.1 <= len,
{
    let (lo, hi) = bounds_from_start(len, start, offset);
    (len - hi, len - lo)
}

} // verus!
