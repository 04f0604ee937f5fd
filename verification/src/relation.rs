//! Free relations: explicit two-way links between any two records.
//!
//! A link between records `a` and `b` is kept as two entries of one
//! dedicated tree, one filed under `a` and one under `b`. Each half names
//! the record it is filed under, the record at the other end, and the two
//! deletion policies: first the one that applies when the record it is
//! filed under is deleted, then the one for the other end.

use vstd::prelude::*;
use crate::codec::{
    after_frame, copy_range, frame, frame_content, lemma_frame_read, lemma_frame_rebuild,
    push_bytes, push_frame, read_frame, same_bytes, starts_with_frame,
};
use crate::engine::db_entries;
use crate::error::{ErrorKind, Result, StoreError};
use crate::family::{DeletionBehaviour, policy_byte, policy_of};
use crate::keys::has_prefix;
use crate::model::{Entries, Span, is_scan, lookup, pairs_view};
use crate::store::{exists_raw, put_raw, remove_raw, scan_prefix};

verus! {

/// A record, named by its store and its key: the store's name and the
/// key's encoding.
pub type Node = (Seq<u8>, Seq<u8>);

/// The identity of a record: the name of its store and the bytes of its
/// key.
#[derive(Debug)]
pub struct RecordId {
    pub store: Vec<u8>,
    pub key: Vec<u8>,
}

impl View for RecordId {
    type V = Node;

    open spec fn view(&self) -> Node {
        (self.store@, self.key@)
    }
}

impl RecordId {
    /// The record of `store` with the key `key`.
    pub fn new(store: &[u8], key: &[u8]) -> (id: RecordId)
        ensures
            id@ == (store@, key@),
    {
        RecordId { store: vstd::slice::slice_to_vec(store), key: vstd::slice::slice_to_vec(key) }
    }

    /// Whether both name the same record.
    pub fn same(&self, other: &RecordId) -> (r: bool)
        ensures
            r == (self@ == other@),
    {
        same_bytes(self.store.as_slice(), other.store.as_slice()) && same_bytes(
            self.key.as_slice(),
            other.key.as_slice(),
        )
    }

    /// Every identity that a program holds is representable.
    pub fn note_representable(&self)
        ensures
            representable(self@),
    {
        let _store_len = self.store.len();
        let _key_len = self.key.len();
    }

    /// A copy of this identity.
    pub fn duplicate(&self) -> (id: RecordId)
        ensures
            id@ == self@,
    {
        RecordId::new(self.store.as_slice(), self.key.as_slice())
    }
}

/// The name of the tree that holds the links: `__$relations`.
pub open spec fn relations_tree() -> Seq<u8> {
    seq![0x5f, 0x5f, 0x24, 0x72, 0x65, 0x6c, 0x61, 0x74, 0x69, 0x6f, 0x6e, 0x73]
}

/// The name of the tree that holds the links.
pub fn relations_tree_name() -> (name: Vec<u8>)
    ensures
        name@ == relations_tree(),
{
    let name: Vec<u8> = vec![0x5f, 0x5f, 0x24, 0x72, 0x65, 0x6c, 0x61, 0x74, 0x69, 0x6f, 0x6e, 0x73];
    assert(name@ =~= relations_tree());
    name
}

/// The bytes with which the key of every half filed under `a` begins.
pub open spec fn node_prefix(a: Node) -> Seq<u8> {
    frame(a.0) + frame(a.1)
}

/// The bytes with which the key of every half from `a` to a record of
/// `store` begins.
pub open spec fn store_prefix(a: Node, store: Seq<u8>) -> Seq<u8> {
    node_prefix(a) + frame(store)
}

/// The key of the half of the link between `a` and `b` that is filed
/// under `a`.
pub open spec fn link_key(a: Node, b: Node) -> Seq<u8> {
    store_prefix(a, b.0) + b.1
}

/// The value of a half: the policy for the deletion of the record it is
/// filed under, then the policy for the deletion of the other end.
pub open spec fn link_value(own: DeletionBehaviour, other: DeletionBehaviour) -> Seq<u8> {
    seq![policy_byte(own), policy_byte(other)]
}

/// Whether `key` has the shape of a link key.
pub open spec fn is_link_key(key: Seq<u8>) -> bool {
    &&& starts_with_frame(key)
    &&& starts_with_frame(after_frame(key))
    &&& starts_with_frame(after_frame(after_frame(key)))
}

/// The record under which the half with the key `key` is filed.
pub open spec fn link_source(key: Seq<u8>) -> Node {
    (frame_content(key), frame_content(after_frame(key)))
}

/// The record at the other end of the half with the key `key`.
pub open spec fn link_target(key: Seq<u8>) -> Node {
    (frame_content(after_frame(after_frame(key))), after_frame(after_frame(after_frame(key))))
}

/// The key of the other half of the link whose one half has the key
/// `key`.
pub open spec fn mirror_key(key: Seq<u8>) -> Seq<u8> {
    link_key(link_target(key), link_source(key))
}

/// The two policies that a stored value holds, if it holds two.
pub open spec fn parse_link_value(value: Seq<u8>) -> Option<(DeletionBehaviour, DeletionBehaviour)> {
    if value.len() == 2 && policy_of(value[0]) is Some && policy_of(value[1]) is Some {
        Some((policy_of(value[0])->0, policy_of(value[1])->0))
    } else {
        None
    }
}

/// Whether a node is one that a program can hold: its store name and key
/// are no longer than a length prefix can say.
pub open spec fn representable(a: Node) -> bool {
    a.0.len() <= u64::MAX && a.1.len() <= u64::MAX
}

/// A link key names the two records it was built from.
#[verifier::rlimit(40)]
pub proof fn lemma_link_key_parts(a: Node, b: Node)
    requires
        representable(a),
        b.0.len() <= u64::MAX,
    ensures
        is_link_key(link_key(a, b)),
        link_source(link_key(a, b)) == a,
        link_target(link_key(a, b)) == b,
{
    let k = link_key(a, b);
    let r2 = frame(b.0) + b.1;
    let r1 = frame(a.1) + r2;
    assert(k =~= frame(a.0) + r1);
    lemma_frame_read(a.0, r1);
    assert(after_frame(k) == r1);
    lemma_frame_read(a.1, r2);
    assert(after_frame(r1) == r2);
    lemma_frame_read(b.0, b.1);
    assert(after_frame(r2) == b.1);
}

/// The store names in a link key are no longer than a length prefix can
/// say.
pub proof fn lemma_link_ends_representable(key: Seq<u8>)
    requires
        is_link_key(key),
    ensures
        link_source(key).0.len() <= u64::MAX,
        link_target(key).0.len() <= u64::MAX,
{
}

/// A key in the shape of a link key is the link key of the two records it
/// names.
pub proof fn lemma_link_key_rebuild(key: Seq<u8>)
    requires
        is_link_key(key),
    ensures
        key == link_key(link_source(key), link_target(key)),
{
    lemma_frame_rebuild(key);
    lemma_frame_rebuild(after_frame(key));
    lemma_frame_rebuild(after_frame(after_frame(key)));
    assert(key =~= link_key(link_source(key), link_target(key)));
}

/// Every key that begins with the prefix of `a` is filed under `a`.
#[verifier::rlimit(40)]
pub proof fn lemma_prefix_names_source(a: Node, key: Seq<u8>)
    requires
        representable(a),
        has_prefix(key, node_prefix(a)),
    ensures
        starts_with_frame(key),
        starts_with_frame(after_frame(key)),
        link_source(key) == a,
        after_frame(after_frame(key)) == key.skip(node_prefix(a).len() as int),
{
    let p = node_prefix(a);
    let tail = key.skip(p.len() as int);
    assert(key =~= key.take(p.len() as int) + tail);
    assert(key =~= frame(a.0) + (frame(a.1) + tail));
    lemma_frame_read(a.0, frame(a.1) + tail);
    lemma_frame_read(a.1, tail);
}

/// Every key that begins with the prefix of `a` and `store` is a link
/// key that leads to a record of `store`.
#[verifier::rlimit(40)]
pub proof fn lemma_store_prefix_names_target(a: Node, store: Seq<u8>, key: Seq<u8>)
    requires
        representable(a),
        store.len() <= u64::MAX,
        has_prefix(key, store_prefix(a, store)),
    ensures
        is_link_key(key),
        link_source(key) == a,
        link_target(key).0 == store,
{
    let p = store_prefix(a, store);
    let tail = key.skip(p.len() as int);
    assert(key =~= key.take(p.len() as int) + tail);
    assert(key =~= frame(a.0) + (frame(a.1) + (frame(store) + tail)));
    lemma_frame_read(a.0, frame(a.1) + (frame(store) + tail));
    lemma_frame_read(a.1, frame(store) + tail);
    lemma_frame_read(store, tail);
}

/// The bytes with which the key of every half filed under `a` begins.
pub fn node_prefix_bytes(a: &RecordId) -> (out: Vec<u8>)
    ensures
        out@ == node_prefix(a@),
{
    let mut out: Vec<u8> = Vec::new();
    push_frame(&mut out, a.store.as_slice());
    push_frame(&mut out, a.key.as_slice());
    out
}

/// The bytes with which the key of every half from `a` to a record of
/// `store` begins.
pub fn store_prefix_bytes(a: &RecordId, store: &[u8]) -> (out: Vec<u8>)
    ensures
        out@ == store_prefix(a@, store@),
{
    let mut out = node_prefix_bytes(a);
    push_frame(&mut out, store);
    out
}

/// The key of the half of the link between `a` and `b` that is filed
/// under `a`.
pub fn link_key_bytes(a: &RecordId, b: &RecordId) -> (out: Vec<u8>)
    ensures
        out@ == link_key(a@, b@),
{
    let mut out = store_prefix_bytes(a, b.store.as_slice());
    push_bytes(&mut out, b.key.as_slice());
    out
}

/// The value of a half.
pub fn link_value_bytes(own: DeletionBehaviour, other: DeletionBehaviour) -> (out: Vec<u8>)
    ensures
        out@ == link_value(own, other),
        parse_link_value(out@) == Some((own, other)),
{
    let mut out: Vec<u8> = Vec::new();
    out.push(own.to_byte());
    out.push(other.to_byte());
    assert(out@ =~= link_value(own, other));
    out
}

/// Reads the two records that a link key names; `None` if `key` has not
/// the shape of a link key.
pub fn read_link_key(key: &[u8]) -> (r: Option<(RecordId, RecordId)>)
    ensures
        r is Some <==> is_link_key(key@),
        r matches Some((source, target)) ==> source@ == link_source(key@) && target@
            == link_target(key@),
{
    assert(key@.skip(0) =~= key@);
    let (source_store, p1) = match read_frame(key, 0) {
        Some(found) => found,
        None => {
            return None;
        },
    };
    let (source_key, p2) = match read_frame(key, p1) {
        Some(found) => found,
        None => {
            return None;
        },
    };
    let (target_store, p3) = match read_frame(key, p2) {
        Some(found) => found,
        None => {
            return None;
        },
    };
    let target_key = copy_range(key, p3, key.len());
    assert(target_key@ =~= key@.skip(p3 as int));
    Some(
        (
            RecordId { store: source_store, key: source_key },
            RecordId { store: target_store, key: target_key },
        ),
    )
}

/// Reads the two policies of a half; `None` if `value` does not hold two.
pub fn read_link_value(value: &[u8]) -> (r: Option<(DeletionBehaviour, DeletionBehaviour)>)
    ensures
        r == parse_link_value(value@),
{
    if value.len() != 2 {
        return None;
    }
    match (DeletionBehaviour::from_byte(value[0]), DeletionBehaviour::from_byte(value[1])) {
        (Some(own), Some(other)) => Some((own, other)),
        _ => None,
    }
}

/// A link as seen from one of its ends.
pub struct LinkView {
    /// The record at the other end.
    pub target: Node,
    /// The policy that applies when the record at this end is deleted.
    pub on_delete: DeletionBehaviour,
    /// The policy that applies when the record at the other end is
    /// deleted.
    pub target_on_delete: DeletionBehaviour,
}

/// A link as seen from one of its ends.
#[derive(Debug)]
pub struct Link {
    /// The record at the other end.
    pub target: RecordId,
    /// The policy that applies when the record at this end is deleted.
    pub on_delete: DeletionBehaviour,
    /// The policy that applies when the record at the other end is
    /// deleted.
    pub target_on_delete: DeletionBehaviour,
}

impl View for Link {
    type V = LinkView;

    open spec fn view(&self) -> LinkView {
        LinkView {
            target: self.target@,
            on_delete: self.on_delete,
            target_on_delete: self.target_on_delete,
        }
    }
}

/// The views of a list of links.
pub open spec fn links_view(links: Seq<Link>) -> Seq<LinkView> {
    Seq::new(links.len(), |i: int| links[i]@)
}

/// Whether the half filed under `a` of a link between `a` and `b` is
/// present.
pub open spec fn half_present(entries: Entries, a: Node, b: Node) -> bool {
    entries.contains_key((relations_tree(), link_key(a, b)))
}

/// Whether a stored half can be read and has its mirror: its key has the
/// shape of a link key, its value holds two policies, and the other half
/// of the link is present.
pub open spec fn sound_half(entries: Entries, key: Seq<u8>, value: Seq<u8>) -> bool {
    &&& is_link_key(key)
    &&& parse_link_value(value) is Some
    &&& entries.contains_key((relations_tree(), mirror_key(key)))
}

/// The link that a stored half records.
pub open spec fn link_of(key: Seq<u8>, value: Seq<u8>) -> LinkView {
    let policies = parse_link_value(value)->0;
    LinkView { target: link_target(key), on_delete: policies.0, target_on_delete: policies.1 }
}

/// What the database holds once `a` and `b` are linked with the given
/// policies: both halves, each with its own policy first.
pub open spec fn after_link(
    entries: Entries,
    a: Node,
    b: Node,
    a_on_delete: DeletionBehaviour,
    b_on_delete: DeletionBehaviour,
) -> Entries {
    entries.insert(
        (relations_tree(), link_key(a, b)),
        link_value(a_on_delete, b_on_delete),
    ).insert((relations_tree(), link_key(b, a)), link_value(b_on_delete, a_on_delete))
}

/// What the database holds once the link between `a` and `b` is dropped:
/// neither half.
pub open spec fn after_unlink(entries: Entries, a: Node, b: Node) -> Entries {
    entries.remove((relations_tree(), link_key(a, b))).remove((relations_tree(), link_key(b, a)))
}

/// Links `a` and `b`: writes the half filed under `a`, then the half filed
/// under `b`. A link that exists already is overwritten with the new
/// policies. A record that is linked to itself has one half only, which
/// holds `b_on_delete` first.
pub fn link(
    db: &mut sled::Db,
    a: &RecordId,
    b: &RecordId,
    a_on_delete: DeletionBehaviour,
    b_on_delete: DeletionBehaviour,
) -> (r: Result<()>)
    ensures
        match r {
            Ok(_) => db_entries(*final(db)) == after_link(
                db_entries(*old(db)),
                a@,
                b@,
                a_on_delete,
                b_on_delete,
            ),
            Err(e) => e.kind == ErrorKind::IoError,
        },
{
    let tree = relations_tree_name();
    let forth = link_key_bytes(a, b);
    let back = link_key_bytes(b, a);
    match put_raw(db, tree.as_slice(), forth.as_slice(), link_value_bytes(a_on_delete, b_on_delete)) {
        Ok(_) => {},
        Err(e) => {
            return Err(e);
        },
    }
    put_raw(db, tree.as_slice(), back.as_slice(), link_value_bytes(b_on_delete, a_on_delete))
}

/// Drops the link between `a` and `b`: removes the half filed under `a`,
/// then the half filed under `b`. Dropping a link that does not exist
/// changes nothing.
pub fn unlink(db: &mut sled::Db, a: &RecordId, b: &RecordId) -> (r: Result<()>)
    ensures
        match r {
            Ok(_) => db_entries(*final(db)) == after_unlink(db_entries(*old(db)), a@, b@),
            Err(e) => e.kind == ErrorKind::IoError,
        },
{
    let tree = relations_tree_name();
    let forth = link_key_bytes(a, b);
    let back = link_key_bytes(b, a);
    match remove_raw(db, tree.as_slice(), forth.as_slice()) {
        Ok(_) => {},
        Err(e) => {
            return Err(e);
        },
    }
    remove_raw(db, tree.as_slice(), back.as_slice())
}

/// Whether `links` are the links that the halves `raw` record, one for
/// one, each half being sound.
pub open spec fn reads_as(entries: Entries, raw: Seq<crate::model::Pair>, links: Seq<LinkView>) -> bool {
    &&& links.len() == raw.len()
    &&& forall|i: int|
        0 <= i < raw.len() ==> sound_half(entries, #[trigger] raw[i].0, raw[i].1) && links[i]
            == link_of(raw[i].0, raw[i].1)
}

/// Reads the halves that a scan of the links tree returned. Each must be
/// sound; the first that is not makes the whole an `IntegrityError`.
#[verifier::rlimit(40)]
pub fn read_halves(db: &sled::Db, raw: &Vec<(Vec<u8>, Vec<u8>)>) -> (r: Result<Vec<Link>>)
    ensures
        match r {
            Ok(links) => reads_as(db_entries(*db), pairs_view(raw@), links_view(links@)),
            Err(e) => e.kind == ErrorKind::IoError || (e.kind == ErrorKind::IntegrityError
                && exists|i: int|
                0 <= i < raw@.len() && !sound_half(
                    db_entries(*db),
                    #[trigger] pairs_view(raw@)[i].0,
                    pairs_view(raw@)[i].1,
                )),
        },
{
    let tree = relations_tree_name();
    let mut links: Vec<Link> = Vec::new();
    let mut i: usize = 0;
    while i < raw.len()
        invariant
            i <= raw@.len(),
            tree@ == relations_tree(),
            reads_as(db_entries(*db), pairs_view(raw@).take(i as int), links_view(links@)),
        decreases raw@.len() - i,
    {
        let ghost items = pairs_view(raw@);
        let key = raw[i].0.as_slice();
        let value = raw[i].1.as_slice();
        assert(items[i as int] == (key@, value@));
        let (source, target) = match read_link_key(key) {
            Some(found) => found,
            None => {
                assert(!sound_half(db_entries(*db), items[i as int].0, items[i as int].1));
                return Err(StoreError::new(ErrorKind::IntegrityError, "Could not read relation key"));
            },
        };
        let (on_delete, target_on_delete) = match read_link_value(value) {
            Some(found) => found,
            None => {
                assert(!sound_half(db_entries(*db), items[i as int].0, items[i as int].1));
                return Err(
                    StoreError::new(ErrorKind::IntegrityError, "Could not read relation policies"),
                );
            },
        };
        let mirror = link_key_bytes(&target, &source);
        match exists_raw(db, tree.as_slice(), mirror.as_slice()) {
            Err(e) => {
                return Err(e);
            },
            Ok(false) => {
                assert(!sound_half(db_entries(*db), items[i as int].0, items[i as int].1));
                return Err(
                    StoreError::new(ErrorKind::IntegrityError, "Relation lacks its other half"),
                );
            },
            Ok(true) => {},
        }
        let ghost before = links_view(links@);
        links.push(Link { target, on_delete, target_on_delete });
        proof {
            let link = link_of(key@, value@);
            assert(links_view(links@) =~= before.push(link));
            assert(items.take(i + 1) =~= items.take(i as int).push(items[i as int]));
        }
        i += 1;
    }
    assert(pairs_view(raw@).take(i as int) =~= pairs_view(raw@));
    Ok(links)
}

/// One of the halves whose keys begin with `prefix` is not sound.
pub open spec fn unsound_under(entries: Entries, prefix: Seq<u8>) -> bool {
    exists|key: Seq<u8>|
        has_prefix(key, prefix) && #[trigger] entries.contains_key((relations_tree(), key))
            && !sound_half(entries, key, entries[(relations_tree(), key)])
}

/// Where reading the halves of a scan fails for want of soundness, one of
/// the halves under the prefix of the scan is not sound; where it
/// succeeds, all of them are sound.
proof fn lemma_scan_soundness(entries: Entries, raw: Seq<crate::model::Pair>, prefix: Seq<u8>)
    requires
        is_scan(raw, entries, relations_tree(), Span::Prefix(prefix)),
    ensures
        (exists|i: int| 0 <= i < raw.len() && !sound_half(entries, #[trigger] raw[i].0, raw[i].1))
            <==> unsound_under(entries, prefix),
{
    if exists|i: int| 0 <= i < raw.len() && !sound_half(entries, #[trigger] raw[i].0, raw[i].1) {
        let i = choose|i: int| 0 <= i < raw.len() && !sound_half(entries, #[trigger] raw[i].0, raw[i].1);
        assert(Span::Prefix(prefix).holds(raw[i].0));
        assert(lookup(entries, relations_tree(), raw[i].0) == Some(raw[i].1));
        assert(entries.contains_key((relations_tree(), raw[i].0)));
    }
    if unsound_under(entries, prefix) {
        let key = choose|key: Seq<u8>|
            has_prefix(key, prefix) && #[trigger] entries.contains_key((relations_tree(), key))
                && !sound_half(entries, key, entries[(relations_tree(), key)]);
        assert(Span::Prefix(prefix).holds(key));
        let i = choose|i: int| 0 <= i < raw.len() && #[trigger] raw[i].0 == key;
        assert(lookup(entries, relations_tree(), raw[i].0) == Some(raw[i].1));
        assert(!sound_half(entries, raw[i].0, raw[i].1));
    }
}

/// The halves whose keys begin with `prefix`, read as links, in the order
/// of their keys.
pub fn links_under(db: &sled::Db, prefix: &[u8]) -> (r: Result<Vec<Link>>)
    ensures
        match r {
            Ok(links) => {
                &&& exists|raw: Seq<crate::model::Pair>|
                    {
                        &&& is_scan(raw, db_entries(*db), relations_tree(), Span::Prefix(prefix@))
                        &&& #[trigger] reads_as(db_entries(*db), raw, links_view(links@))
                    }
                &&& !unsound_under(db_entries(*db), prefix@)
            },
            Err(e) => e.kind == ErrorKind::IoError || (e.kind == ErrorKind::IntegrityError
                && unsound_under(db_entries(*db), prefix@)),
        },
{
    let tree = relations_tree_name();
    let raw = match scan_prefix(db, tree.as_slice(), prefix) {
        Ok(raw) => raw,
        Err(e) => {
            return Err(e);
        },
    };
    let r = read_halves(db, &raw);
    proof {
        lemma_scan_soundness(db_entries(*db), pairs_view(raw@), prefix@);
        if r is Ok {
            assert(reads_as(db_entries(*db), pairs_view(raw@), links_view(r->Ok_0@)));
        }
    }
    r
}

/// The links filed under `a`, in the order of their keys: by the store of
/// the other end, then by its key.
pub fn links_of(db: &sled::Db, a: &RecordId) -> (r: Result<Vec<Link>>)
    ensures
        match r {
            Ok(links) => {
                &&& exists|raw: Seq<crate::model::Pair>|
                    {
                        &&& is_scan(
                            raw,
                            db_entries(*db),
                            relations_tree(),
                            Span::Prefix(node_prefix(a@)),
                        )
                        &&& #[trigger] reads_as(db_entries(*db), raw, links_view(links@))
                    }
                &&& !unsound_under(db_entries(*db), node_prefix(a@))
            },
            Err(e) => e.kind == ErrorKind::IoError || (e.kind == ErrorKind::IntegrityError
                && unsound_under(db_entries(*db), node_prefix(a@))),
        },
{
    let prefix = node_prefix_bytes(a);
    links_under(db, prefix.as_slice())
}

/// Whether reading the links of a record gave at least one link. A read
/// that failed counts as one that gave none.
pub fn any_link(outcome: &Result<Vec<Link>>) -> (r: bool)
    ensures
        r == (outcome matches Ok(links) && links@.len() > 0),
{
    match outcome {
        Ok(links) => links.len() > 0,
        Err(_) => false,
    }
}

/// The links from `a` to records of `store`, in the order of the keys of
/// those records.
pub fn links_to_store(db: &sled::Db, a: &RecordId, store: &[u8]) -> (r: Result<Vec<Link>>)
    ensures
        match r {
            Ok(links) => {
                &&& exists|raw: Seq<crate::model::Pair>|
                    {
                        &&& is_scan(
                            raw,
                            db_entries(*db),
                            relations_tree(),
                            Span::Prefix(store_prefix(a@, store@)),
                        )
                        &&& #[trigger] reads_as(db_entries(*db), raw, links_view(links@))
                    }
                &&& !unsound_under(db_entries(*db), store_prefix(a@, store@))
            },
            Err(e) => e.kind == ErrorKind::IoError || (e.kind == ErrorKind::IntegrityError
                && unsound_under(db_entries(*db), store_prefix(a@, store@))),
        },
{
    let prefix = store_prefix_bytes(a, store);
    links_under(db, prefix.as_slice())
}

} // verus!
