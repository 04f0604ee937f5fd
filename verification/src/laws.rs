//! Laws that relate the operations of the store to each other.

use vstd::prelude::*;
use crate::deletion::{after_removal, doomed, doomed_half};
use crate::edges::{edge, free_edge};
use crate::walk::{blocked, lemma_reaches_self, lemma_reaches_step, reaches};
use crate::entity::{Entity, Slot, after_save, node_of, slot_of, tree_of};
use crate::records::{decodes_to, lists};
use crate::family::DeletionBehaviour;
use crate::keys::AsBytes;
use crate::model::{Entries, Pair, Span, is_scan, law_scan_is_unique, lookup};
use crate::relation::{
    Node, after_link, after_unlink, is_link_key, lemma_link_key_parts, lemma_link_key_rebuild,
    link_key, link_source, link_target, link_value, mirror_key, parse_link_value, relations_tree,
    representable,
};

verus! {

/// A record that was saved is found under its key, provided that
/// decoding undoes encoding.
pub proof fn law_saved_record_is_found<E: Entity>(entries: Entries, record: E)
    requires
        E::decoded(record.encoded()) == Some(record),
    ensures
        slot_of::<E>(after_save(entries, record), record.key().bytes()) == Slot::Holds(record),
{
}

/// A record stays as it is while other slots are written or emptied:
/// until its own slot is written again or emptied, it is found as it was
/// saved.
pub proof fn law_record_outlives_other_writes<E: Entity>(
    entries: Entries,
    key: Seq<u8>,
    other: Node,
    value: Seq<u8>,
)
    requires
        other != node_of::<E>(key),
    ensures
        slot_of::<E>(entries.insert(other, value), key) == slot_of::<E>(entries, key),
        slot_of::<E>(entries.remove(other), key) == slot_of::<E>(entries, key),
{
}

/// A record whose slot is emptied is not found any more.
pub proof fn law_removed_record_is_absent<E: Entity>(entries: Entries, key: Seq<u8>)
    ensures
        slot_of::<E>(entries.remove(node_of::<E>(key)), key) is Absent,
{
}

/// The children of a record are what a scan of the child store under the
/// key of the record gives: whatever `get_children` returns for a parent
/// and `get_with_prefix` returns for the key of that parent, is the same
/// list.
pub proof fn law_children_are_prefix_scan<P: Entity, C: Entity>(
    entries: Entries,
    parent: P,
    children: Seq<C>,
    scanned: Seq<C>,
)
    requires
        lists::<C>(entries, Span::Prefix(parent.key().bytes()), children),
        lists::<C>(entries, Span::Prefix(parent.key().bytes()), scanned),
    ensures
        children == scanned,
{
    let span = Span::Prefix(parent.key().bytes());
    let a = choose|raw: Seq<Pair>|
        is_scan(raw, entries, tree_of::<C>(), span) && #[trigger] decodes_to::<C>(raw, children);
    let b = choose|raw: Seq<Pair>|
        is_scan(raw, entries, tree_of::<C>(), span) && #[trigger] decodes_to::<C>(raw, scanned);
    law_scan_is_unique(a, b, entries, tree_of::<C>(), span);
    assert forall|i: int| 0 <= i < children.len() implies children[i] == scanned[i] by {
        assert(C::decoded(a[i].1) == Some(children[i]));
        assert(C::decoded(b[i].1) == Some(scanned[i]));
    }
    assert(children =~= scanned);
}

/// Every link has both of its halves: where one half is present, so is
/// its mirror.
pub open spec fn halves_paired(entries: Entries) -> bool {
    forall|key: Seq<u8>|
        #[trigger] entries.contains_key((relations_tree(), key)) && is_link_key(key) && key.len()
            <= u64::MAX ==> entries.contains_key((relations_tree(), mirror_key(key)))
}

/// The mirror of a half is a half of the same length, filed under the
/// other end, and the mirror of the mirror is the half itself.
pub proof fn lemma_mirror_of_mirror(key: Seq<u8>)
    requires
        is_link_key(key),
        key.len() <= u64::MAX,
    ensures
        is_link_key(mirror_key(key)),
        mirror_key(key).len() == key.len(),
        link_source(mirror_key(key)) == link_target(key),
        link_target(mirror_key(key)) == link_source(key),
        mirror_key(mirror_key(key)) == key,
{
    let s = link_source(key);
    let t = link_target(key);
    lemma_link_key_rebuild(key);
    lemma_link_key_parts(t, s);
}

/// The two halves of a link are mirrors of each other.
pub proof fn lemma_halves_are_mirrors(a: Node, b: Node)
    requires
        representable(a),
        representable(b),
    ensures
        is_link_key(link_key(a, b)),
        mirror_key(link_key(a, b)) == link_key(b, a),
{
    lemma_link_key_parts(a, b);
}

/// Linking two records keeps every link in two halves.
#[verifier::rlimit(40)]
pub proof fn law_link_keeps_halves_paired(
    entries: Entries,
    a: Node,
    b: Node,
    a_on_delete: DeletionBehaviour,
    b_on_delete: DeletionBehaviour,
)
    requires
        halves_paired(entries),
        representable(a),
        representable(b),
    ensures
        halves_paired(after_link(entries, a, b, a_on_delete, b_on_delete)),
        after_link(entries, a, b, a_on_delete, b_on_delete).contains_key(
            (relations_tree(), link_key(a, b)),
        ),
        after_link(entries, a, b, a_on_delete, b_on_delete).contains_key(
            (relations_tree(), link_key(b, a)),
        ),
{
    let after = after_link(entries, a, b, a_on_delete, b_on_delete);
    let forth = link_key(a, b);
    let back = link_key(b, a);
    lemma_halves_are_mirrors(a, b);
    lemma_halves_are_mirrors(b, a);
    assert forall|key: Seq<u8>|
        #[trigger] after.contains_key((relations_tree(), key)) && is_link_key(key) && key.len()
            <= u64::MAX implies after.contains_key((relations_tree(), mirror_key(key))) by {
        if key == forth {
            assert(mirror_key(key) == back);
        } else if key == back {
            assert(mirror_key(key) == forth);
        } else {
            assert(entries.contains_key((relations_tree(), key)));
            assert(entries.contains_key((relations_tree(), mirror_key(key))));
        }
    }
}

/// Dropping the link between two records keeps every other link in two
/// halves, and leaves neither half of the dropped link.
#[verifier::rlimit(40)]
pub proof fn law_unlink_keeps_halves_paired(entries: Entries, a: Node, b: Node)
    requires
        halves_paired(entries),
        representable(a),
        representable(b),
    ensures
        halves_paired(after_unlink(entries, a, b)),
        !after_unlink(entries, a, b).contains_key((relations_tree(), link_key(a, b))),
        !after_unlink(entries, a, b).contains_key((relations_tree(), link_key(b, a))),
{
    let after = after_unlink(entries, a, b);
    let forth = link_key(a, b);
    let back = link_key(b, a);
    lemma_halves_are_mirrors(a, b);
    lemma_halves_are_mirrors(b, a);
    assert forall|key: Seq<u8>|
        #[trigger] after.contains_key((relations_tree(), key)) && is_link_key(key) && key.len()
            <= u64::MAX implies after.contains_key((relations_tree(), mirror_key(key))) by {
        let mirror = mirror_key(key);
        assert(entries.contains_key((relations_tree(), key)));
        assert(key != forth && key != back);
        assert(entries.contains_key((relations_tree(), mirror)));
        lemma_mirror_of_mirror(key);
        if mirror == forth {
            assert(mirror_key(mirror) == back);
        }
        if mirror == back {
            assert(mirror_key(mirror) == forth);
        }
        assert(mirror != forth && mirror != back);
    }
}

/// Deleting a record keeps every link in two halves, and leaves no half
/// that names a deleted record, provided that no deleted record lives in
/// the tree of the links.
#[verifier::rlimit(40)]
pub proof fn law_removal_keeps_halves_paired(entries: Entries, root: Node)
    requires
        halves_paired(entries),
        forall|n: Node| #[trigger] reaches(entries, root, n) ==> n.0 != relations_tree(),
    ensures
        halves_paired(after_removal(entries, root)),
        forall|key: Seq<u8>|
            #[trigger] after_removal(entries, root).contains_key((relations_tree(), key))
                && is_link_key(key) && key.len() <= u64::MAX ==> !reaches(
                entries,
                root,
                link_source(key),
            ) && !reaches(entries, root, link_target(key)),
{
    let after = after_removal(entries, root);
    assert forall|key: Seq<u8>|
        #[trigger] after.contains_key((relations_tree(), key)) && is_link_key(key) && key.len()
            <= u64::MAX implies after.contains_key((relations_tree(), mirror_key(key))) && !reaches(
        entries,
        root,
        link_source(key),
    ) && !reaches(entries, root, link_target(key)) by {
        let slot: Node = (relations_tree(), key);
        let mirror: Node = (relations_tree(), mirror_key(key));
        assert(entries.contains_key(slot));
        assert(!doomed(entries, root).contains(slot));
        assert(!doomed_half(entries, root, slot));
        assert(entries.contains_key(mirror));
        lemma_mirror_of_mirror(key);
        assert(!doomed_half(entries, root, mirror));
        assert(!reaches(entries, root, mirror));
        assert(!doomed(entries, root).contains(mirror));
    }
}

/// Two records that were linked have both halves of the link, each
/// holding the two policies with the policy of its own end first. A
/// record that was linked to itself has the one half that there is, which
/// holds the policy given last first.
pub proof fn law_link_files_both_halves(
    entries: Entries,
    a: Node,
    b: Node,
    a_on_delete: DeletionBehaviour,
    b_on_delete: DeletionBehaviour,
)
    requires
        representable(a),
        representable(b),
    ensures
        lookup(
            after_link(entries, a, b, a_on_delete, b_on_delete),
            relations_tree(),
            link_key(b, a),
        ) == Some(link_value(b_on_delete, a_on_delete)),
        a != b ==> lookup(
            after_link(entries, a, b, a_on_delete, b_on_delete),
            relations_tree(),
            link_key(a, b),
        ) == Some(link_value(a_on_delete, b_on_delete)),
{
    lemma_link_key_parts(a, b);
    lemma_link_key_parts(b, a);
}

/// Two records that were linked are joined by an edge in each direction,
/// each with the policy that was given for its source. A record that is
/// linked to itself has one policy only: the one given last.
pub proof fn law_link_makes_edges(
    entries: Entries,
    a: Node,
    b: Node,
    a_on_delete: DeletionBehaviour,
    b_on_delete: DeletionBehaviour,
)
    requires
        representable(a),
        representable(b),
        a != b || a_on_delete == b_on_delete,
    ensures
        free_edge(after_link(entries, a, b, a_on_delete, b_on_delete), a, b, a_on_delete),
        free_edge(after_link(entries, a, b, a_on_delete, b_on_delete), b, a, b_on_delete),
{
    let after = after_link(entries, a, b, a_on_delete, b_on_delete);
    assert(link_value(a_on_delete, b_on_delete)[0] == crate::family::policy_byte(a_on_delete));
    assert(link_value(b_on_delete, a_on_delete)[0] == crate::family::policy_byte(b_on_delete));
    assert(parse_link_value(link_value(a_on_delete, b_on_delete)) == Some((a_on_delete, b_on_delete)));
    assert(parse_link_value(link_value(b_on_delete, a_on_delete)) == Some((b_on_delete, a_on_delete)));
    if link_key(a, b) == link_key(b, a) {
        lemma_link_key_parts(a, b);
        lemma_link_key_parts(b, a);
    }
}

/// Two records whose link was dropped are joined by no edge of a link.
pub proof fn law_unlink_leaves_no_edge(entries: Entries, a: Node, b: Node, policy: DeletionBehaviour)
    ensures
        !free_edge(after_unlink(entries, a, b), a, b, policy),
        !free_edge(after_unlink(entries, a, b), b, a, policy),
{
}

/// A deletion removes every record that it cascades to, the record it
/// started from among them, and spares what it does not reach: every
/// entry outside the doomed slots is as it was.
pub proof fn law_removal_removes_what_it_reaches(entries: Entries, root: Node, n: Node, other: Node)
    requires
        reaches(entries, root, n),
        !doomed(entries, root).contains(other),
    ensures
        !after_removal(entries, root).contains_key(root),
        !after_removal(entries, root).contains_key(n),
        after_removal(entries, root).contains_key(other) == entries.contains_key(other),
        entries.contains_key(other) ==> after_removal(entries, root)[other] == entries[other],
{
    lemma_reaches_self(entries, root);
}

/// Where a record is bound to another by `Cascade`, deleting the one
/// removes the other.
pub proof fn law_cascade_removes_the_neighbour(entries: Entries, a: Node, b: Node)
    requires
        edge(entries, a, b, DeletionBehaviour::Cascade),
    ensures
        !after_removal(entries, a).contains_key(b),
{
    lemma_reaches_self(entries, a);
    lemma_reaches_step(entries, a, a, b);
}

/// Where a record is bound by `Error` to another that its deletion would
/// not delete, the deletion cannot go through: no walk from the record
/// gets done.
pub proof fn law_error_refuses_the_deletion(entries: Entries, a: Node, b: Node)
    requires
        edge(entries, a, b, DeletionBehaviour::Error),
        !reaches(entries, a, b),
    ensures
        blocked(entries, a),
{
    lemma_reaches_self(entries, a);
}

} // verus!
