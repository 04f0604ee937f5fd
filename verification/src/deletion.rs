//! Deletion under relation policies.
//!
//! Deleting a record first plans, reading only: a walk through the
//! relation graph finds the records that the deletion cascades to, or
//! refuses the deletion. Only then the plan is applied: the records that
//! were found are removed, and with them every link that one of them
//! took part in.

use vstd::prelude::*;
use crate::engine::db_entries;
use crate::error::{ErrorKind, Result};
use crate::model::Entries;
use crate::relation::{
    Node, RecordId, half_present, is_link_key, lemma_link_ends_representable,
    lemma_link_key_parts, lemma_link_key_rebuild,
    link_key, link_source, link_target, mirror_key, relations_tree, unlink,
};
use crate::store::remove_raw;
use crate::walk::{
    Plan, Walk, blocked, carries_out, ends_view, garbled, law_walk_has_one_outcome, nodes_view,
    plan_removal, reaches, refused, walked, walked_through,
};

verus! {

/// Whether the deletion of `root` removes the half stored in `slot`: the
/// half is filed under a record that the deletion deletes, or it is the
/// mirror of such a half.
pub open spec fn doomed_half(entries: Entries, root: Node, slot: Node) -> bool {
    &&& slot.0 == relations_tree()
    &&& is_link_key(slot.1)
    &&& (reaches(entries, root, link_source(slot.1)) || (reaches(
        entries,
        root,
        link_target(slot.1),
    ) && entries.contains_key((relations_tree(), mirror_key(slot.1)))))
}

/// Everything that the deletion of `root` removes: the records that it
/// deletes, the halves filed under them, and the mirrors of those halves.
pub open spec fn doomed(entries: Entries, root: Node) -> Set<Node> {
    Set::new(|slot: Node| reaches(entries, root, slot) || doomed_half(entries, root, slot))
}

/// What the database holds once `root` is deleted.
pub open spec fn after_removal(entries: Entries, root: Node) -> Entries {
    entries.remove_keys(doomed(entries, root))
}

/// The slots of the records of `records` from position `from` on, and of
/// both halves of the first `upto` links of `links`.
pub open spec fn slots_of(records: Seq<Node>, from: int, links: Seq<(Node, Node)>, upto: int) -> Set<Node> {
    Set::new(
        |slot: Node|
            (exists|i: int| from <= i < records.len() && 0 <= i && #[trigger] records[i] == slot) || (
            exists|j: int| 0 <= j < upto && j < links.len() && #[trigger] is_half_of(slot, links[j])),
    )
}

/// `slot` holds one of the two halves of the link between the two given
/// records.
pub open spec fn is_half_of(slot: Node, ends: (Node, Node)) -> bool {
    slot == (relations_tree(), link_key(ends.0, ends.1)) || slot == (
        relations_tree(),
        link_key(ends.1, ends.0),
    )
}

/// Carries a plan out: removes its records, the last found first and the
/// one the deletion started from last, then drops its links.
#[verifier::rlimit(40)]
pub fn apply(db: &mut sled::Db, plan: &Plan) -> (r: Result<()>)
    ensures
        match r {
            Ok(_) => db_entries(*final(db)) == db_entries(*old(db)).remove_keys(
                slots_of(
                    nodes_view(plan.records@),
                    0,
                    ends_view(plan.links@),
                    plan.links@.len() as int,
                ),
            ),
            Err(e) => e.kind == ErrorKind::IoError,
        },
{
    let ghost before = db_entries(*db);
    let ghost records = nodes_view(plan.records@);
    let ghost links = ends_view(plan.links@);
    let mut i: usize = plan.records.len();
    assert(before.remove_keys(slots_of(records, i as int, links, 0)) =~= before);
    while i > 0
        invariant
            i <= plan.records@.len(),
            records == nodes_view(plan.records@),
            links == ends_view(plan.links@),
            db_entries(*db) == before.remove_keys(slots_of(records, i as int, links, 0)),
        decreases i,
    {
        i -= 1;
        let ghost now = db_entries(*db);
        let record = &plan.records[i];
        assert(records[i as int] == record@);
        match remove_raw(db, record.store.as_slice(), record.key.as_slice()) {
            Ok(_) => {},
            Err(e) => {
                return Err(e);
            },
        }
        proof {
            let gone = slots_of(records, i + 1, links, 0);
            let next = slots_of(records, i as int, links, 0);
            assert(next =~= gone.insert(record@));
            assert(before.remove_keys(gone).remove(record@) =~= before.remove_keys(next));
        }
    }
    let mut j: usize = 0;
    while j < plan.links.len()
        invariant
            j <= plan.links@.len(),
            records == nodes_view(plan.records@),
            links == ends_view(plan.links@),
            db_entries(*db) == before.remove_keys(slots_of(records, 0, links, j as int)),
        decreases plan.links@.len() - j,
    {
        let ghost now = db_entries(*db);
        assert(links[j as int] == (plan.links@[j as int].0@, plan.links@[j as int].1@));
        match unlink(db, &plan.links[j].0, &plan.links[j].1) {
            Ok(_) => {},
            Err(e) => {
                return Err(e);
            },
        }
        proof {
            let gone = slots_of(records, 0, links, j as int);
            let next = slots_of(records, 0, links, j + 1);
            let forth: Node = (relations_tree(), link_key(links[j as int].0, links[j as int].1));
            let back: Node = (relations_tree(), link_key(links[j as int].1, links[j as int].0));
            assert(is_half_of(forth, links[j as int]));
            assert(is_half_of(back, links[j as int]));
            assert(next =~= gone.insert(forth).insert(back));
            assert(before.remove_keys(gone).remove(forth).remove(back) =~= before.remove_keys(next));
        }
        j += 1;
    }
    Ok(())
}

/// Carrying out a plan for the deletion of `root` removes exactly what
/// the deletion of `root` removes.
#[verifier::rlimit(40)]
pub proof fn lemma_plan_removes_doomed(
    entries: Entries,
    root: Node,
    records: Seq<Node>,
    links: Seq<(Node, Node)>,
)
    requires
        carries_out(entries, root, records, links),
    ensures
        entries.remove_keys(slots_of(records, 0, links, links.len() as int)) == after_removal(
            entries,
            root,
        ),
{
    let planned = slots_of(records, 0, links, links.len() as int);
    let fated = doomed(entries, root);
    assert forall|slot: Node| entries.contains_key(slot) implies (planned.contains(slot)
        <==> fated.contains(slot)) by {
        if planned.contains(slot) {
            if exists|i: int| 0 <= i < records.len() && #[trigger] records[i] == slot {
                let i = choose|i: int| 0 <= i < records.len() && #[trigger] records[i] == slot;
                assert(records.contains(slot));
            } else {
                let j = choose|j: int|
                    0 <= j < links.len() && #[trigger] is_half_of(slot, links[j]);
                let s = links[j].0;
                let t = links[j].1;
                assert(records.contains(s));
                assert(reaches(entries, root, s));
                lemma_link_key_parts(s, t);
                lemma_link_key_parts(t, s);
                assert(doomed_half(entries, root, slot));
            }
        }
        if fated.contains(slot) {
            if reaches(entries, root, slot) {
                assert(records.contains(slot));
                let i = choose|i: int| 0 <= i < records.len() && records[i] == slot;
                assert(records[i] == slot);
            } else {
                let key = slot.1;
                let s = link_source(key);
                let t = link_target(key);
                lemma_link_key_rebuild(key);
                lemma_link_ends_representable(key);
                if reaches(entries, root, s) {
                    assert(records.contains(s));
                    assert(half_present(entries, s, t));
                    assert(links.contains((s, t)));
                    let j = choose|j: int| 0 <= j < links.len() && links[j] == (s, t);
                    assert(is_half_of(slot, links[j]));
                } else {
                    assert(records.contains(t));
                    assert(half_present(entries, t, s));
                    assert(links.contains((t, s)));
                    let j = choose|j: int| 0 <= j < links.len() && links[j] == (t, s);
                    assert(is_half_of(slot, links[j]));
                }
            }
        }
    }
    assert(entries.remove_keys(planned) =~= entries.remove_keys(fated));
}

/// Deletes the record `root` under the relation policies.
///
/// The deletion walks from `root` along the edges of the relation graph,
/// depth first: for each record that it finds it looks at the sibling
/// edges, then at the child edges, then at the edges of the links. An
/// edge to a record that it has found already is passed over. Of the
/// others, a `Cascade` edge is followed, a `BreakLink` edge is passed
/// over, and an `Error` edge refuses the deletion. A deletion that is
/// refused, or that meets something that it cannot read, writes nothing.
/// Otherwise the records that were found are removed, the last found
/// first and `root` last, and then every link filed under one of them
/// with the mirror of each such link.
pub fn remove_record(db: &mut sled::Db, root: &RecordId) -> (r: Result<()>)
    ensures
        match r {
            Ok(_) => {
                &&& exists|found: Seq<Node>| #[trigger] walked_through(db_entries(*old(db)), root@, found)
                &&& !blocked(db_entries(*old(db)), root@)
                &&& !garbled(db_entries(*old(db)), root@)
                &&& db_entries(*final(db)) == after_removal(db_entries(*old(db)), root@)
            },
            Err(e) => match e.kind {
                ErrorKind::IoError => true,
                ErrorKind::IntegrityError => {
                    &&& walked(db_entries(*old(db)), root@, Walk::Unreadable)
                    &&& garbled(db_entries(*old(db)), root@)
                    &&& db_entries(*final(db)) == db_entries(*old(db))
                },
                ErrorKind::PolicyViolation => {
                    &&& refused(db_entries(*old(db)), root@)
                    &&& db_entries(*final(db)) == db_entries(*old(db))
                },
                _ => false,
            },
        },
        refused(db_entries(*old(db)), root@) || blocked(db_entries(*old(db)), root@) || garbled(
            db_entries(*old(db)),
            root@,
        ) ==> r is Err && db_entries(*final(db)) == db_entries(*old(db)),
{
    let ghost before = db_entries(*db);
    let plan = match plan_removal(db, root) {
        Ok(plan) => plan,
        Err(e) => {
            return Err(e);
        },
    };
    proof {
        lemma_plan_removes_doomed(before, root@, nodes_view(plan.records@), ends_view(plan.links@));
        assert(walked_through(before, root@, nodes_view(plan.records@)));
        if refused(before, root@) {
            law_walk_has_one_outcome(
                before,
                root@,
                seq![root@],
                Walk::Refused,
                Walk::Done(nodes_view(plan.records@)),
            );
        }
    }
    apply(db, &plan)
}

} // verus!
