//! The persisted catalog of declared relations.
//!
//! For each store the catalog holds a family descriptor: the sibling and
//! child stores of that store, each with the policy that applies when a
//! record of the store is deleted, and the store's schema version.

use vstd::prelude::*;
use vstd::slice::slice_to_vec;
use vstd::utf8::encode_utf8;
use crate::codec::{
    after_frame, copy_range, frame, frame_content, lemma_frame_read, lemma_frame_rebuild,
    push_frame, read_frame, same_bytes, starts_with_frame,
};
use crate::engine::db_entries;
use crate::error::{ErrorKind, Result, StoreError};
use crate::keys::{u32_be, u32_from_be_bytes, u32_to_be_bytes};
use crate::model::{Entries, lookup};
use crate::store::{exists_raw, get_raw, put_raw};

verus! {

/// What happens to a related record when a record is deleted.
#[derive(Clone, Copy, Debug, PartialEq, Eq, Structural)]
pub enum DeletionBehaviour {
    /// The related record is deleted too.
    Cascade,
    /// The deletion is refused while the related record exists.
    Error,
    /// The record is deleted and the link is dropped; the related record
    /// stays.
    BreakLink,
}

/// The byte that stands for a policy.
pub open spec fn policy_byte(policy: DeletionBehaviour) -> u8 {
    match policy {
        DeletionBehaviour::Cascade => 0,
        DeletionBehaviour::Error => 1,
        DeletionBehaviour::BreakLink => 2,
    }
}

/// The policy that a byte stands for, if any.
pub open spec fn policy_of(byte: u8) -> Option<DeletionBehaviour> {
    if byte == 0 {
        Some(DeletionBehaviour::Cascade)
    } else if byte == 1 {
        Some(DeletionBehaviour::Error)
    } else if byte == 2 {
        Some(DeletionBehaviour::BreakLink)
    } else {
        None
    }
}

impl DeletionBehaviour {
    /// The byte that stands for this policy.
    pub fn to_byte(self) -> (byte: u8)
        ensures
            byte == policy_byte(self),
            policy_of(byte) == Some(self),
    {
        match self {
            DeletionBehaviour::Cascade => 0,
            DeletionBehaviour::Error => 1,
            DeletionBehaviour::BreakLink => 2,
        }
    }

    /// The policy that `byte` stands for, if any.
    pub fn from_byte(byte: u8) -> (policy: Option<DeletionBehaviour>)
        ensures
            policy == policy_of(byte),
    {
        if byte == 0 {
            Some(DeletionBehaviour::Cascade)
        } else if byte == 1 {
            Some(DeletionBehaviour::Error)
        } else if byte == 2 {
            Some(DeletionBehaviour::BreakLink)
        } else {
            None
        }
    }
}

/// A declared relation: the name of the other store, and the policy.
pub type Declared = (Seq<u8>, DeletionBehaviour);

/// The mathematical content of a family descriptor.
pub struct Family {
    pub name: Seq<u8>,
    pub version: u32,
    pub siblings: Seq<Declared>,
    pub children: Seq<Declared>,
}

/// The name of the tree that holds the family descriptors: `__$families`.
pub open spec fn families_tree() -> Seq<u8> {
    seq![0x5f, 0x5f, 0x24, 0x66, 0x61, 0x6d, 0x69, 0x6c, 0x69, 0x65, 0x73]
}

/// The encoding of one declared relation: its policy byte, then the framed
/// store name.
pub open spec fn declared_bytes(declared: Declared) -> Seq<u8> {
    seq![policy_byte(declared.1)] + frame(declared.0)
}

/// The encoding of a list of declared relations, one after the other.
pub open spec fn list_bytes(list: Seq<Declared>) -> Seq<u8>
    decreases list.len(),
{
    if list.len() == 0 {
        Seq::empty()
    } else {
        list_bytes(list.drop_last()) + declared_bytes(list.last())
    }
}

/// The list that `bytes` encodes, if it encodes one.
pub open spec fn parse_list(bytes: Seq<u8>) -> Option<Seq<Declared>>
    decreases bytes.len(),
{
    if bytes.len() == 0 {
        Some(Seq::empty())
    } else {
        let rest = bytes.skip(1);
        if policy_of(bytes[0]) is None || !starts_with_frame(rest) {
            None
        } else {
            match parse_list(after_frame(rest)) {
                None => None,
                Some(tail) => Some(seq![(frame_content(rest), policy_of(bytes[0])->0)] + tail),
            }
        }
    }
}

/// The stored form of a family descriptor: the version, then the framed
/// name, the framed list of siblings and the framed list of children.
pub open spec fn family_bytes(family: Family) -> Seq<u8> {
    u32_be(family.version) + frame(family.name) + frame(list_bytes(family.siblings)) + frame(
        list_bytes(family.children),
    )
}

/// The family descriptor that `bytes` encodes, if it encodes one.
pub open spec fn parse_family(bytes: Seq<u8>) -> Option<Family> {
    if bytes.len() < 4 {
        None
    } else {
        let a = bytes.skip(4);
        if !starts_with_frame(a) {
            None
        } else {
            let b = after_frame(a);
            if !starts_with_frame(b) {
                None
            } else {
                let c = after_frame(b);
                if !starts_with_frame(c) || after_frame(c).len() != 0 {
                    None
                } else {
                    match (parse_list(frame_content(b)), parse_list(frame_content(c))) {
                        (Some(siblings), Some(children)) => Some(
                            Family {
                                name: frame_content(a),
                                version: crate::keys::u32_from_be(bytes.take(4)) as u32,
                                siblings,
                                children,
                            },
                        ),
                        _ => None,
                    }
                }
            }
        }
    }
}

/// The views of a list of declared relations.
pub open spec fn declared_view(list: Seq<(Vec<u8>, DeletionBehaviour)>) -> Seq<Declared> {
    Seq::new(list.len(), |i: int| (list[i].0@, list[i].1))
}

/// The sibling and child stores declared for one store, with the policy
/// that applies to each when a record of the store is deleted.
#[derive(Debug)]
pub struct FamilyDescriptor {
    pub tree_name: Vec<u8>,
    pub version: u32,
    pub sibling_trees: Vec<(Vec<u8>, DeletionBehaviour)>,
    pub child_trees: Vec<(Vec<u8>, DeletionBehaviour)>,
}

impl View for FamilyDescriptor {
    type V = Family;

    open spec fn view(&self) -> Family {
        Family {
            name: self.tree_name@,
            version: self.version,
            siblings: declared_view(self.sibling_trees@),
            children: declared_view(self.child_trees@),
        }
    }
}

/// Appending an entry to a list appends its encoding.
proof fn lemma_list_bytes_push(list: Seq<Declared>, entry: Declared)
    ensures
        list_bytes(list.push(entry)) == list_bytes(list) + declared_bytes(entry),
{
    assert(list.push(entry).drop_last() =~= list);
}

/// Encodes a list of declared relations.
pub fn encode_list(list: &Vec<(Vec<u8>, DeletionBehaviour)>) -> (out: Vec<u8>)
    ensures
        out@ == list_bytes(declared_view(list@)),
{
    let mut out: Vec<u8> = Vec::new();
    let mut i: usize = 0;
    while i < list.len()
        invariant
            i <= list@.len(),
            out@ == list_bytes(declared_view(list@).take(i as int)),
        decreases list@.len() - i,
    {
        let ghost before = out@;
        out.push(list[i].1.to_byte());
        push_frame(&mut out, list[i].0.as_slice());
        proof {
            let all = declared_view(list@);
            lemma_list_bytes_push(all.take(i as int), all[i as int]);
            assert(all.take(i + 1) =~= all.take(i as int).push(all[i as int]));
            assert(out@ =~= before + declared_bytes(all[i as int]));
        }
        i += 1;
    }
    assert(declared_view(list@).take(i as int) =~= declared_view(list@));
    out
}

/// Decodes a list of declared relations; `None` if `bytes` is not the
/// encoding of one.
#[verifier::rlimit(40)]
pub fn decode_list(bytes: &[u8]) -> (r: Option<Vec<(Vec<u8>, DeletionBehaviour)>>)
    ensures
        match r {
            Some(list) => parse_list(bytes@) == Some(declared_view(list@)),
            None => parse_list(bytes@) is None,
        },
{
    let mut out: Vec<(Vec<u8>, DeletionBehaviour)> = Vec::new();
    let mut pos: usize = 0;
    proof {
        assert(bytes@.skip(0) =~= bytes@);
        assert(declared_view(out@) =~= Seq::<Declared>::empty());
        match parse_list(bytes@) {
            None => {},
            Some(tail) => {
                assert(Seq::<Declared>::empty() + tail =~= tail);
            },
        }
    }
    while pos < bytes.len()
        invariant
            pos <= bytes@.len(),
            parse_list(bytes@) == match parse_list(bytes@.skip(pos as int)) {
                None => None::<Seq<Declared>>,
                Some(tail) => Some(declared_view(out@) + tail),
            },
        decreases bytes@.len() - pos,
    {
        let ghost here = bytes@.skip(pos as int);
        let ghost rest = here.skip(1);
        assert(here[0] == bytes@[pos as int]);
        assert(rest =~= bytes@.skip(pos + 1));
        let policy = match DeletionBehaviour::from_byte(bytes[pos]) {
            Some(policy) => policy,
            None => {
                return None;
            },
        };
        let (name, next) = match read_frame(bytes, pos + 1) {
            Some(found) => found,
            None => {
                return None;
            },
        };
        proof {
            assert(pos < next) by {
                assert(pos + 1 <= next);
            }
            let ghost shown = declared_view(out@);
            let ghost entry = (name@, policy);
            assert(declared_view(out@.push((name, policy))) =~= shown.push(entry));
            match parse_list(after_frame(rest)) {
                None => {},
                Some(tail) => {
                    assert(shown + (seq![entry] + tail) =~= shown.push(entry) + tail);
                },
            }
        }
        out.push((name, policy));
        pos = next;
    }
    proof {
        assert(bytes@.skip(pos as int).len() == 0);
        assert(declared_view(out@) + Seq::<Declared>::empty() =~= declared_view(out@));
    }
    Some(out)
}

impl FamilyDescriptor {
    /// The stored form of the descriptor.
    pub fn to_bytes(&self) -> (out: Vec<u8>)
        ensures
            out@ == family_bytes(self@),
    {
        let mut out = u32_to_be_bytes(self.version);
        push_frame(&mut out, self.tree_name.as_slice());
        let siblings = encode_list(&self.sibling_trees);
        push_frame(&mut out, siblings.as_slice());
        let children = encode_list(&self.child_trees);
        push_frame(&mut out, children.as_slice());
        out
    }

    /// Reads a descriptor back; `None` if `bytes` is not the stored form
    /// of one.
    pub fn from_bytes(bytes: &[u8]) -> (r: Option<FamilyDescriptor>)
        ensures
            match r {
                Some(d) => parse_family(bytes@) == Some(d@),
                None => parse_family(bytes@) is None,
            },
    {
        if bytes.len() < 4 {
            return None;
        }
        let head = copy_range(bytes, 0, 4);
        assert(head@ =~= bytes@.take(4));
        let version = match u32_from_be_bytes(head.as_slice()) {
            Some(version) => version,
            None => {
                return None;
            },
        };
        let (tree_name, p1) = match read_frame(bytes, 4) {
            Some(found) => found,
            None => {
                return None;
            },
        };
        let (siblings, p2) = match read_frame(bytes, p1) {
            Some(found) => found,
            None => {
                return None;
            },
        };
        let (children, p3) = match read_frame(bytes, p2) {
            Some(found) => found,
            None => {
                return None;
            },
        };
        if p3 != bytes.len() {
            return None;
        }
        let sibling_trees = match decode_list(siblings.as_slice()) {
            Some(list) => list,
            None => {
                return None;
            },
        };
        let child_trees = match decode_list(children.as_slice()) {
            Some(list) => list,
            None => {
                return None;
            },
        };
        Some(FamilyDescriptor { tree_name, version, sibling_trees, child_trees })
    }
}

/// What two lists are read from, one after the other, is read as the one
/// list followed by the other.
#[verifier::rlimit(40)]
proof fn lemma_parse_list_concat(x: Seq<u8>, y: Seq<u8>)
    requires
        parse_list(x) is Some,
        parse_list(y) is Some,
    ensures
        parse_list(x + y) == Some(parse_list(x)->0 + parse_list(y)->0),
    decreases x.len(),
{
    if x.len() == 0 {
        assert(x + y =~= y);
        assert(Seq::<Declared>::empty() + parse_list(y)->0 =~= parse_list(y)->0);
    } else {
        let rest = x.skip(1);
        let after = after_frame(rest);
        let name = frame_content(rest);
        let tail = parse_list(after)->0;
        assert(policy_of(x[0]) is Some && starts_with_frame(rest) && parse_list(after) is Some);
        lemma_frame_rebuild(rest);
        assert(rest == frame(name) + after);
        assert((x + y)[0] == x[0]);
        assert((x + y).skip(1) =~= rest + y);
        assert(rest + y =~= frame(name) + (after + y));
        lemma_frame_read(name, after + y);
        lemma_parse_list_concat(after, y);
        let entry = (name, policy_of(x[0])->0);
        assert(seq![entry] + (tail + parse_list(y)->0) =~= (seq![entry] + tail) + parse_list(y)->0);
    }
}

/// A list is read back from its encoding.
pub proof fn lemma_list_round_trip(list: Seq<Declared>)
    requires
        forall|i: int| 0 <= i < list.len() ==> (#[trigger] list[i]).0.len() <= u64::MAX,
    ensures
        parse_list(list_bytes(list)) == Some(list),
    decreases list.len(),
{
    if list.len() > 0 {
        let init = list.drop_last();
        let last = list.last();
        lemma_list_round_trip(init);
        let one = declared_bytes(last);
        assert(one.skip(1) =~= frame(last.0) + Seq::<u8>::empty());
        lemma_frame_read(last.0, Seq::<u8>::empty());
        assert(parse_list(Seq::<u8>::empty()) == Some(Seq::<Declared>::empty()));
        assert(seq![last] + Seq::<Declared>::empty() =~= seq![last]);
        assert(parse_list(one) == Some(seq![last]));
        lemma_parse_list_concat(list_bytes(init), one);
        assert(init + seq![last] =~= list);
    }
}

/// Whether a family descriptor is one that a program can hold: its names
/// and the encodings of its lists are no longer than a length prefix can
/// say.
pub open spec fn storable(family: Family) -> bool {
    &&& family.name.len() <= u64::MAX
    &&& list_bytes(family.siblings).len() <= u64::MAX
    &&& list_bytes(family.children).len() <= u64::MAX
    &&& forall|i: int| 0 <= i < family.siblings.len() ==> (#[trigger] family.siblings[i]).0.len() <= u64::MAX
    &&& forall|i: int| 0 <= i < family.children.len() ==> (#[trigger] family.children[i]).0.len() <= u64::MAX
}

/// A family descriptor is read back from its stored form.
#[verifier::rlimit(40)]
pub proof fn law_family_round_trip(family: Family)
    requires
        storable(family),
    ensures
        parse_family(family_bytes(family)) == Some(family),
{
    let bytes = family_bytes(family);
    let s = list_bytes(family.siblings);
    let c = list_bytes(family.children);
    let r2 = frame(c) + Seq::<u8>::empty();
    let r1 = frame(s) + r2;
    crate::keys::lemma_u32_round_trip(family.version);
    assert(bytes =~= u32_be(family.version) + (frame(family.name) + r1));
    assert(bytes.take(4) =~= u32_be(family.version));
    assert(bytes.skip(4) =~= frame(family.name) + r1);
    lemma_frame_read(family.name, r1);
    lemma_frame_read(s, r2);
    lemma_frame_read(c, Seq::<u8>::empty());
    lemma_list_round_trip(family.siblings);
    lemma_list_round_trip(family.children);
}

/// A family descriptor that was registered is the one that the catalog
/// then holds for its store.
pub proof fn law_registered_family_is_found(entries: Entries, family: Family)
    requires
        storable(family),
    ensures
        family_of(
            entries.insert((families_tree(), family.name), family_bytes(family)),
            family.name,
        ) == Some(family),
{
    law_family_round_trip(family);
}

/// Whether two lists declare the same relations in the same order.
pub fn same_declared(a: &Vec<(Vec<u8>, DeletionBehaviour)>, b: &Vec<(Vec<u8>, DeletionBehaviour)>) -> (r:
    bool)
    ensures
        r == (declared_view(a@) == declared_view(b@)),
{
    if a.len() != b.len() {
        assert(declared_view(a@).len() != declared_view(b@).len());
        return false;
    }
    let mut i: usize = 0;
    while i < a.len()
        invariant
            i <= a@.len(),
            a@.len() == b@.len(),
            forall|j: int| 0 <= j < i ==> declared_view(a@)[j] == declared_view(b@)[j],
        decreases a@.len() - i,
    {
        if !(a[i].1 == b[i].1) || !same_bytes(a[i].0.as_slice(), b[i].0.as_slice()) {
            assert(declared_view(a@)[i as int] != declared_view(b@)[i as int]);
            return false;
        }
        i += 1;
    }
    assert(declared_view(a@) =~= declared_view(b@));
    true
}

/// The relations that a list of store names and policies declares.
pub open spec fn named_view(list: Seq<(&'static str, DeletionBehaviour)>) -> Seq<Declared> {
    Seq::new(list.len(), |i: int| (encode_utf8(list[i].0@), list[i].1))
}

/// Turns store names into the bytes under which the catalog keeps them.
pub fn declare(list: &Vec<(&'static str, DeletionBehaviour)>) -> (out: Vec<(Vec<u8>, DeletionBehaviour)>)
    ensures
        declared_view(out@) == named_view(list@),
{
    let mut out: Vec<(Vec<u8>, DeletionBehaviour)> = Vec::new();
    let mut i: usize = 0;
    while i < list.len()
        invariant
            i <= list@.len(),
            out@.len() == i,
            forall|j: int| 0 <= j < i ==> declared_view(out@)[j] == named_view(list@)[j],
        decreases list@.len() - i,
    {
        let name = slice_to_vec(list[i].0.as_bytes());
        let policy = list[i].1;
        out.push((name, policy));
        i += 1;
    }
    assert(declared_view(out@) =~= named_view(list@));
    out
}

/// What registering a descriptor does, given what the catalog holds for
/// the store.
#[derive(Clone, Copy, Debug, PartialEq, Eq, Structural)]
pub enum Registration {
    /// The descriptor is written.
    Write,
    /// What the catalog holds is not a descriptor.
    Unreadable,
    /// The catalog holds a descriptor with other siblings or children.
    Drift,
    /// The catalog holds a descriptor with a higher version.
    Downgrade,
}

/// What registering `new` does when the catalog holds `stored` for its
/// store: a first registration is written; a repeated one is written if it
/// declares the same siblings and children, in the same order, and its
/// version is not lower than the recorded one.
pub open spec fn registration(stored: Option<Seq<u8>>, new: Family) -> Registration {
    match stored {
        None => Registration::Write,
        Some(bytes) => match parse_family(bytes) {
            None => Registration::Unreadable,
            Some(old) => if old.siblings != new.siblings || old.children != new.children {
                Registration::Drift
            } else if new.version < old.version {
                Registration::Downgrade
            } else {
                Registration::Write
            },
        },
    }
}

/// Decides a registration from what the catalog holds.
pub fn decide_registration(stored: &Option<Vec<u8>>, new: &FamilyDescriptor) -> (r: Registration)
    ensures
        r == registration(crate::model::opt_view(*stored), new@),
{
    match stored {
        None => Registration::Write,
        Some(bytes) => match FamilyDescriptor::from_bytes(bytes.as_slice()) {
            None => Registration::Unreadable,
            Some(old) => {
                if !same_declared(&old.sibling_trees, &new.sibling_trees) || !same_declared(
                    &old.child_trees,
                    &new.child_trees,
                ) {
                    Registration::Drift
                } else if new.version < old.version {
                    Registration::Downgrade
                } else {
                    Registration::Write
                }
            },
        },
    }
}

/// The descriptor recorded for `store`, read from what the catalog holds.
pub open spec fn family_of(entries: Entries, store: Seq<u8>) -> Option<Family> {
    match lookup(entries, families_tree(), store) {
        None => None,
        Some(bytes) => parse_family(bytes),
    }
}

/// The name of the tree that holds the family descriptors.
pub fn families_tree_name() -> (name: Vec<u8>)
    ensures
        name@ == families_tree(),
{
    let name: Vec<u8> = vec![0x5f, 0x5f, 0x24, 0x66, 0x61, 0x6d, 0x69, 0x6c, 0x69, 0x65, 0x73];
    assert(name@ =~= families_tree());
    name
}

impl FamilyDescriptor {
    /// A descriptor for the store `name`.
    pub fn new(
        name: &str,
        version: u32,
        siblings: &Vec<(&'static str, DeletionBehaviour)>,
        children: &Vec<(&'static str, DeletionBehaviour)>,
    ) -> (d: FamilyDescriptor)
        ensures
            d@ == (Family {
                name: encode_utf8(name@),
                version,
                siblings: named_view(siblings@),
                children: named_view(children@),
            }),
    {
        FamilyDescriptor {
            tree_name: slice_to_vec(name.as_bytes()),
            version,
            sibling_trees: declare(siblings),
            child_trees: declare(children),
        }
    }

    /// Whether the catalog holds an entry for `store_name`.
    pub fn is_registered(store_name: &str, db: &sled::Db) -> (r: Result<bool>)
        ensures
            match r {
                Ok(present) => present == db_entries(*db).contains_key(
                    (families_tree(), encode_utf8(store_name@)),
                ),
                Err(e) => e.kind == ErrorKind::IoError,
            },
    {
        let tree = families_tree_name();
        exists_raw(db, tree.as_slice(), store_name.as_bytes())
    }

    /// The descriptor recorded for `store_name`, or `None` if there is
    /// none. An entry that is not a descriptor is an `IntegrityError`.
    pub fn get(store_name: &str, db: &sled::Db) -> (r: Result<Option<FamilyDescriptor>>)
        ensures
            match r {
                Ok(Some(d)) => family_of(db_entries(*db), encode_utf8(store_name@)) == Some(d@),
                Ok(None) => !db_entries(*db).contains_key(
                    (families_tree(), encode_utf8(store_name@)),
                ),
                Err(e) => e.kind == ErrorKind::IoError || (e.kind == ErrorKind::IntegrityError
                    && db_entries(*db).contains_key((families_tree(), encode_utf8(store_name@)))
                    && family_of(db_entries(*db), encode_utf8(store_name@)) is None),
            },
    {
        Self::get_by_bytes(store_name.as_bytes(), db)
    }

    /// The descriptor recorded for the store whose name has the bytes
    /// `store`.
    pub fn get_by_bytes(store: &[u8], db: &sled::Db) -> (r: Result<Option<FamilyDescriptor>>)
        ensures
            match r {
                Ok(Some(d)) => family_of(db_entries(*db), store@) == Some(d@),
                Ok(None) => !db_entries(*db).contains_key((families_tree(), store@)),
                Err(e) => e.kind == ErrorKind::IoError || (e.kind == ErrorKind::IntegrityError
                    && db_entries(*db).contains_key((families_tree(), store@)) && family_of(
                    db_entries(*db),
                    store@,
                ) is None),
            },
    {
        let tree = families_tree_name();
        match get_raw(db, tree.as_slice(), store) {
            Err(e) => Err(e),
            Ok(None) => Ok(None),
            Ok(Some(bytes)) => match FamilyDescriptor::from_bytes(bytes.as_slice()) {
                Some(d) => Ok(Some(d)),
                None => Err(
                    StoreError::new(ErrorKind::IntegrityError, "Could not read family descriptor"),
                ),
            },
        }
    }

    /// Records this descriptor in the catalog, under the name it carries.
    ///
    /// A first registration is written. A repeated one must declare the
    /// same siblings and children, in the same order, and a version that
    /// is not lower than the recorded one; it then replaces the recorded
    /// descriptor. Anything else fails and writes nothing.
    pub fn register(&self, db: &mut sled::Db) -> (r: Result<()>)
        ensures
            match r {
                Ok(_) => {
                    &&& registration(
                        lookup(db_entries(*old(db)), families_tree(), self@.name),
                        self@,
                    ) == Registration::Write
                    &&& db_entries(*final(db)) == db_entries(*old(db)).insert(
                        (families_tree(), self@.name),
                        family_bytes(self@),
                    )
                },
                Err(e) => match e.kind {
                    ErrorKind::IoError => true,
                    ErrorKind::IntegrityError => {
                        &&& registration(
                            lookup(db_entries(*old(db)), families_tree(), self@.name),
                            self@,
                        ) == Registration::Unreadable
                        &&& db_entries(*final(db)) == db_entries(*old(db))
                    },
                    ErrorKind::SchemaError => {
                        &&& registration(
                            lookup(db_entries(*old(db)), families_tree(), self@.name),
                            self@,
                        ) is Drift || registration(
                            lookup(db_entries(*old(db)), families_tree(), self@.name),
                            self@,
                        ) is Downgrade
                        &&& db_entries(*final(db)) == db_entries(*old(db))
                    },
                    _ => false,
                },
            },
    {
        let tree = families_tree_name();
        let stored = match get_raw(db, tree.as_slice(), self.tree_name.as_slice()) {
            Ok(stored) => stored,
            Err(e) => {
                return Err(e);
            },
        };
        match decide_registration(&stored, self) {
            Registration::Write => put_raw(
                db,
                tree.as_slice(),
                self.tree_name.as_slice(),
                self.to_bytes(),
            ),
            Registration::Unreadable => Err(
                StoreError::new(ErrorKind::IntegrityError, "Could not read family descriptor"),
            ),
            Registration::Drift => Err(
                StoreError::new(
                    ErrorKind::SchemaError,
                    "Store registered with other siblings or children",
                ),
            ),
            Registration::Downgrade => Err(
                StoreError::new(ErrorKind::SchemaError, "Store registered with a lower version"),
            ),
        }
    }
}

} // verus!
