//! The edges of the relation graph: which records a record is bound to,
//! and by which policy.
//!
//! Sibling and child edges lie in the keys of the records and in the
//! declarations of their stores; the edges of links are stored as such.

use vstd::prelude::*;
use crate::engine::db_entries;
use crate::error::{ErrorKind, Result};
use crate::family::{
    Declared, DeletionBehaviour, FamilyDescriptor, declared_view, families_tree, family_of,
};
use crate::keys::has_prefix;
use crate::model::{Entries, Pair, Span, is_scan, lemma_is_the_scan, lookup, pairs_view, the_scan};
use crate::relation::{
    LinkView, Node, RecordId, half_present, lemma_link_ends_representable,
    lemma_link_key_parts, lemma_link_key_rebuild, lemma_prefix_names_source, link_key, link_of, link_target, links_of,
    links_view, node_prefix, parse_link_value, reads_as, relations_tree, representable,
    sound_half, unsound_under,
};
use crate::store::{exists_raw, scan_prefix};

verus! {

/// An edge of the relation graph, seen from its source: the record it
/// leads to, and the policy that applies when the source is deleted.
pub type Edge = (Node, DeletionBehaviour);

/// `b` is a sibling of `a`: the store of `a` declares the store of `b` as
/// a sibling with the policy `policy`, and `b` exists under the key of
/// `a`.
pub open spec fn sibling_edge(entries: Entries, a: Node, b: Node, policy: DeletionBehaviour) -> bool {
    &&& family_of(entries, a.0) matches Some(family)
    &&& family.siblings.contains((b.0, policy))
    &&& b.1 == a.1
    &&& entries.contains_key(b)
}

/// `b` is a child of `a`: the store of `a` declares the store of `b` as a
/// child store with the policy `policy`, and `b` exists under a key that
/// begins with the key of `a`.
pub open spec fn child_edge(entries: Entries, a: Node, b: Node, policy: DeletionBehaviour) -> bool {
    &&& family_of(entries, a.0) matches Some(family)
    &&& family.children.contains((b.0, policy))
    &&& has_prefix(b.1, a.1)
    &&& entries.contains_key(b)
}

/// `a` is linked to `b`, and `policy` applies when `a` is deleted.
pub open spec fn free_edge(entries: Entries, a: Node, b: Node, policy: DeletionBehaviour) -> bool {
    &&& b.0.len() <= u64::MAX
    &&& lookup(entries, relations_tree(), link_key(a, b)) matches Some(value)
    &&& parse_link_value(value) matches Some(policies)
    &&& policies.0 == policy
}

/// There is an edge from `a` to `b` under which `policy` applies when `a`
/// is deleted.
pub open spec fn edge(entries: Entries, a: Node, b: Node, policy: DeletionBehaviour) -> bool {
    ||| sibling_edge(entries, a, b, policy)
    ||| child_edge(entries, a, b, policy)
    ||| free_edge(entries, a, b, policy)
}

/// The sibling edges of a record with the key `key` under the first
/// `upto` declarations of its store, in the order of the declarations.
pub open spec fn siblings_of(entries: Entries, declared: Seq<Declared>, upto: int, key: Seq<u8>) -> Seq<Edge>
    decreases upto,
{
    if upto <= 0 || upto > declared.len() {
        Seq::empty()
    } else {
        let before = siblings_of(entries, declared, upto - 1, key);
        let target: Node = (declared[upto - 1].0, key);
        if entries.contains_key(target) {
            before.push((target, declared[upto - 1].1))
        } else {
            before
        }
    }
}

/// One edge with the policy `policy` for each of `items`, leading to the
/// record of `store` with the key of the item.
pub open spec fn listed(items: Seq<Pair>, store: Seq<u8>, policy: DeletionBehaviour) -> Seq<Edge> {
    Seq::new(items.len(), |k: int| ((store, items[k].0), policy))
}

/// The child edges of a record with the key `key` under the first `upto`
/// declarations of its store: in the order of the declarations, and for
/// each declaration in ascending order of the keys of the children.
pub open spec fn children_of(entries: Entries, declared: Seq<Declared>, upto: int, key: Seq<u8>) -> Seq<Edge>
    decreases upto,
{
    if upto <= 0 || upto > declared.len() {
        Seq::empty()
    } else {
        children_of(entries, declared, upto - 1, key) + listed(
            the_scan(entries, declared[upto - 1].0, Span::Prefix(key)),
            declared[upto - 1].0,
            declared[upto - 1].1,
        )
    }
}

/// The edges that the store of `a` declares: the sibling edges, then the
/// child edges. A store without a family descriptor declares none.
pub open spec fn declared_of(entries: Entries, a: Node) -> Seq<Edge> {
    match family_of(entries, a.0) {
        Some(family) => siblings_of(entries, family.siblings, family.siblings.len() as int, a.1)
            + children_of(entries, family.children, family.children.len() as int, a.1),
        None => Seq::empty(),
    }
}

/// The edges of the links of `a`, in the order of the keys of their
/// halves: by the store of the other end, then by its key.
pub open spec fn linked_of(entries: Entries, a: Node) -> Seq<Edge> {
    let halves = the_scan(entries, relations_tree(), Span::Prefix(node_prefix(a)));
    Seq::new(
        halves.len(),
        |k: int| (link_target(halves[k].0), link_of(halves[k].0, halves[k].1).on_delete),
    )
}

/// The edges that leave `a`, in the order in which a deletion looks at
/// them: the declared ones, then those of its links.
pub open spec fn edges_of(entries: Entries, a: Node) -> Seq<Edge> {
    declared_of(entries, a) + linked_of(entries, a)
}

/// An edge as the traversal holds it.
#[derive(Debug)]
pub struct Outgoing {
    pub target: RecordId,
    pub policy: DeletionBehaviour,
}

impl View for Outgoing {
    type V = Edge;

    open spec fn view(&self) -> Edge {
        (self.target@, self.policy)
    }
}

/// The views of a list of edges.
pub open spec fn edges_view(edges: Seq<Outgoing>) -> Seq<Edge> {
    Seq::new(edges.len(), |i: int| edges[i]@)
}

/// One of the first `upto` declarations names the store of the edge `e`
/// with its policy.
pub open spec fn declared_among(declared: Seq<Declared>, upto: int, e: Edge) -> bool {
    exists|j: int| 0 <= j < upto && j < declared.len() && #[trigger] declared[j] == (e.0.0, e.1)
}

/// Pushing an edge adds exactly that edge to what a list contains.
proof fn lemma_push_contains(before: Seq<Edge>, added: Edge)
    ensures
        forall|e: Edge| #[trigger] before.push(added).contains(e) <==> (before.contains(e) || e == added),
{
    assert forall|e: Edge| #[trigger] before.push(added).contains(e) <==> (before.contains(e) || e
        == added) by {
        if before.contains(e) {
            let k = choose|k: int| 0 <= k < before.len() && before[k] == e;
            assert(before.push(added)[k] == e);
        }
        if e == added {
            assert(before.push(added)[before.len() as int] == e);
        }
    }
}

/// Appends to `out` the sibling edges of `a` under the declarations of
/// its store.
#[verifier::rlimit(40)]
fn sibling_edges(db: &sled::Db, a: &RecordId, family: &FamilyDescriptor, out: &mut Vec<Outgoing>) -> (r:
    Result<()>)
    ensures
        match r {
            Ok(_) => {
                &&& forall|e: Edge|
                    #[trigger] edges_view(final(out)@).contains(e) <==> edges_view(old(out)@).contains(e) || {
                        &&& family@.siblings.contains((e.0.0, e.1))
                        &&& e.0.1 == a@.1
                        &&& db_entries(*db).contains_key(e.0)
                    }
                &&& edges_view(final(out)@) == edges_view(old(out)@) + siblings_of(
                    db_entries(*db),
                    family@.siblings,
                    family@.siblings.len() as int,
                    a@.1,
                )
            },
            Err(e) => e.kind == ErrorKind::IoError,
        },
{
    let ghost start = edges_view(out@);
    let ghost declared = family@.siblings;
    let mut i: usize = 0;
    assert(start + Seq::<Edge>::empty() =~= start);
    while i < family.sibling_trees.len()
        invariant
            i <= family.sibling_trees@.len(),
            declared == declared_view(family.sibling_trees@),
            edges_view(out@) == start + siblings_of(db_entries(*db), declared, i as int, a@.1),
            forall|e: Edge|
                #[trigger] edges_view(out@).contains(e) <==> start.contains(e) || {
                    &&& declared_among(declared, i as int, e)
                    &&& e.0.1 == a@.1
                    &&& db_entries(*db).contains_key(e.0)
                },
        decreases family.sibling_trees@.len() - i,
    {
        let store = family.sibling_trees[i].0.as_slice();
        let policy = family.sibling_trees[i].1;
        assert(declared[i as int] == (store@, policy));
        let present = match exists_raw(db, store, a.key.as_slice()) {
            Ok(present) => present,
            Err(e) => {
                return Err(e);
            },
        };
        let ghost before = edges_view(out@);
        let ghost added: Edge = ((store@, a@.1), policy);
        if present {
            let target = RecordId::new(store, a.key.as_slice());
            out.push(Outgoing { target, policy });
            proof {
                assert(edges_view(out@) =~= before.push(added));
                lemma_push_contains(before, added);
                let so_far = siblings_of(db_entries(*db), declared, i as int, a@.1);
                assert((start + so_far).push(added) =~= start + so_far.push(added));
            }
        }
        proof {
            assert forall|e: Edge|
                #[trigger] edges_view(out@).contains(e) <==> start.contains(e) || {
                    &&& declared_among(declared, i + 1, e)
                    &&& e.0.1 == a@.1
                    &&& db_entries(*db).contains_key(e.0)
                } by {
                let hit_before = declared_among(declared, i as int, e) && e.0.1 == a@.1
                    && db_entries(*db).contains_key(e.0);
                let hit_after = declared_among(declared, i + 1, e) && e.0.1 == a@.1
                    && db_entries(*db).contains_key(e.0);
                assert(before.contains(e) <==> start.contains(e) || hit_before);
                if hit_before {
                    let j = choose|j: int|
                        0 <= j < i && j < declared.len() && #[trigger] declared[j] == (e.0.0, e.1);
                    assert(declared[j] == (e.0.0, e.1));
                    assert(hit_after);
                }
                if present && e == added {
                    assert(declared[i as int] == (e.0.0, e.1));
                    assert(hit_after);
                }
                if hit_after && !hit_before {
                    let j = choose|j: int|
                        0 <= j < i + 1 && j < declared.len() && #[trigger] declared[j] == (
                            e.0.0,
                            e.1,
                        );
                    assert(j == i);
                    assert(e.0 == (store@, a@.1));
                    assert(e == added);
                    assert(present);
                }
            }
        }
        i += 1;
    }
    proof {
        assert forall|e: Edge|
            #[trigger] edges_view(out@).contains(e) <==> start.contains(e) || {
                &&& declared.contains((e.0.0, e.1))
                &&& e.0.1 == a@.1
                &&& db_entries(*db).contains_key(e.0)
            } by {
            if declared.contains((e.0.0, e.1)) {
                let j = choose|j: int| 0 <= j < declared.len() && declared[j] == (e.0.0, e.1);
                assert(declared[j] == (e.0.0, e.1));
                assert(declared_among(declared, i as int, e));
            }
            if declared_among(declared, i as int, e) {
                let j = choose|j: int|
                    0 <= j < i && j < declared.len() && #[trigger] declared[j] == (e.0.0, e.1);
                assert(declared.contains((e.0.0, e.1)));
            }
        }
    }
    Ok(())
}

/// Appends to `out` one edge with the policy `policy` for each of
/// `items`, leading to the record of `store` with the key of the item.
fn add_children(
    items: &Vec<(Vec<u8>, Vec<u8>)>,
    store: &[u8],
    policy: DeletionBehaviour,
    out: &mut Vec<Outgoing>,
)
    ensures
        forall|e: Edge|
            #[trigger] edges_view(final(out)@).contains(e) <==> edges_view(old(out)@).contains(e) || {
                &&& e.0.0 == store@
                &&& e.1 == policy
                &&& exists|k: int| 0 <= k < items@.len() && #[trigger] pairs_view(items@)[k].0 == e.0.1
            },
        edges_view(final(out)@) == edges_view(old(out)@) + listed(pairs_view(items@), store@, policy),
{
    let ghost start = edges_view(out@);
    let ghost raw = pairs_view(items@);
    let mut k: usize = 0;
    assert(start + listed(raw, store@, policy).take(0) =~= start);
    while k < items.len()
        invariant
            k <= items@.len(),
            raw == pairs_view(items@),
            edges_view(out@) == start + listed(raw, store@, policy).take(k as int),
            forall|e: Edge|
                #[trigger] edges_view(out@).contains(e) <==> start.contains(e) || {
                    &&& e.0.0 == store@
                    &&& e.1 == policy
                    &&& exists|j: int| 0 <= j < k && #[trigger] raw[j].0 == e.0.1
                },
        decreases items@.len() - k,
    {
        let ghost before = edges_view(out@);
        let target = RecordId::new(store, items[k].0.as_slice());
        let ghost added: Edge = (target@, policy);
        out.push(Outgoing { target, policy });
        proof {
            assert(raw[k as int].0 == added.0.1);
            assert(edges_view(out@) =~= before.push(added));
            lemma_push_contains(before, added);
            let all = listed(raw, store@, policy);
            assert(all[k as int] == added);
            assert(all.take(k + 1) =~= all.take(k as int).push(added));
            assert((start + all.take(k as int)).push(added) =~= start + all.take(k + 1));
            assert forall|e: Edge|
                #[trigger] edges_view(out@).contains(e) <==> start.contains(e) || {
                    &&& e.0.0 == store@
                    &&& e.1 == policy
                    &&& exists|j: int| 0 <= j < k + 1 && #[trigger] raw[j].0 == e.0.1
                } by {
                let hit_before = e.0.0 == store@ && e.1 == policy && exists|j: int|
                    0 <= j < k && #[trigger] raw[j].0 == e.0.1;
                assert(before.contains(e) <==> start.contains(e) || hit_before);
                if hit_before {
                    let j = choose|j: int| 0 <= j < k && #[trigger] raw[j].0 == e.0.1;
                    assert(raw[j].0 == e.0.1);
                }
                if e.0.0 == store@ && e.1 == policy && (exists|j: int|
                    0 <= j < k + 1 && #[trigger] raw[j].0 == e.0.1) && !hit_before {
                    let j = choose|j: int| 0 <= j < k + 1 && #[trigger] raw[j].0 == e.0.1;
                    assert(j == k);
                    assert(e == added);
                }
            }
        }
        k += 1;
    }
    proof {
        let all = listed(raw, store@, policy);
        assert(all.take(k as int) =~= all);
    }
}

/// Appends to `out` the child edges of `a` under the declarations of its
/// store.
#[verifier::rlimit(40)]
fn child_edges(db: &sled::Db, a: &RecordId, family: &FamilyDescriptor, out: &mut Vec<Outgoing>) -> (r:
    Result<()>)
    ensures
        match r {
            Ok(_) => {
                &&& forall|e: Edge|
                    #[trigger] edges_view(final(out)@).contains(e) <==> edges_view(old(out)@).contains(e) || {
                        &&& family@.children.contains((e.0.0, e.1))
                        &&& has_prefix(e.0.1, a@.1)
                        &&& db_entries(*db).contains_key(e.0)
                    }
                &&& edges_view(final(out)@) == edges_view(old(out)@) + children_of(
                    db_entries(*db),
                    family@.children,
                    family@.children.len() as int,
                    a@.1,
                )
            },
            Err(e) => e.kind == ErrorKind::IoError,
        },
{
    let ghost start = edges_view(out@);
    let ghost declared = family@.children;
    let ghost entries = db_entries(*db);
    let mut i: usize = 0;
    assert(start + Seq::<Edge>::empty() =~= start);
    while i < family.child_trees.len()
        invariant
            i <= family.child_trees@.len(),
            declared == declared_view(family.child_trees@),
            entries == db_entries(*db),
            edges_view(out@) == start + children_of(entries, declared, i as int, a@.1),
            forall|e: Edge|
                #[trigger] edges_view(out@).contains(e) <==> start.contains(e) || {
                    &&& declared_among(declared, i as int, e)
                    &&& has_prefix(e.0.1, a@.1)
                    &&& entries.contains_key(e.0)
                },
        decreases family.child_trees@.len() - i,
    {
        let store = family.child_trees[i].0.as_slice();
        let policy = family.child_trees[i].1;
        assert(declared[i as int] == (store@, policy));
        let items = match scan_prefix(db, store, a.key.as_slice()) {
            Ok(items) => items,
            Err(e) => {
                return Err(e);
            },
        };
        let ghost before = edges_view(out@);
        let ghost raw = pairs_view(items@);
        add_children(&items, store, policy, out);
        proof {
            lemma_is_the_scan(raw, entries, store@, Span::Prefix(a@.1));
            let so_far = children_of(entries, declared, i as int, a@.1);
            assert((start + so_far) + listed(raw, store@, policy) =~= start + (so_far + listed(
                raw,
                store@,
                policy,
            )));
            assert forall|e: Edge|
                #[trigger] edges_view(out@).contains(e) <==> start.contains(e) || {
                    &&& declared_among(declared, i + 1, e)
                    &&& has_prefix(e.0.1, a@.1)
                    &&& entries.contains_key(e.0)
                } by {
                let hit_before = declared_among(declared, i as int, e) && has_prefix(e.0.1, a@.1)
                    && entries.contains_key(e.0);
                let hit_after = declared_among(declared, i + 1, e) && has_prefix(e.0.1, a@.1)
                    && entries.contains_key(e.0);
                let found = e.0.0 == store@ && e.1 == policy && exists|k: int|
                    0 <= k < raw.len() && #[trigger] raw[k].0 == e.0.1;
                assert(before.contains(e) <==> start.contains(e) || hit_before);
                assert(edges_view(out@).contains(e) <==> before.contains(e) || found);
                if hit_before {
                    let j = choose|j: int|
                        0 <= j < i && j < declared.len() && #[trigger] declared[j] == (e.0.0, e.1);
                    assert(declared[j] == (e.0.0, e.1));
                    assert(hit_after);
                }
                if found {
                    let k = choose|k: int| 0 <= k < raw.len() && #[trigger] raw[k].0 == e.0.1;
                    assert(raw[k].0 == e.0.1);
                    assert(e.0 == (store@, raw[k].0));
                    assert(declared[i as int] == (e.0.0, e.1));
                    assert(hit_after);
                }
                if hit_after && !hit_before {
                    let j = choose|j: int|
                        0 <= j < i + 1 && j < declared.len() && #[trigger] declared[j] == (
                            e.0.0,
                            e.1,
                        );
                    assert(j == i);
                    assert(e.0 == (store@, e.0.1));
                    assert(entries.contains_key((store@, e.0.1)));
                    assert(Span::Prefix(a@.1).holds(e.0.1));
                    assert(found);
                }
            }
        }
        i += 1;
    }
    proof {
        assert forall|e: Edge|
            #[trigger] edges_view(out@).contains(e) <==> start.contains(e) || {
                &&& declared.contains((e.0.0, e.1))
                &&& has_prefix(e.0.1, a@.1)
                &&& entries.contains_key(e.0)
            } by {
            if declared.contains((e.0.0, e.1)) {
                let j = choose|j: int| 0 <= j < declared.len() && declared[j] == (e.0.0, e.1);
                assert(declared[j] == (e.0.0, e.1));
                assert(declared_among(declared, i as int, e));
            }
            if declared_among(declared, i as int, e) {
                let j = choose|j: int|
                    0 <= j < i && j < declared.len() && #[trigger] declared[j] == (e.0.0, e.1);
                assert(declared.contains((e.0.0, e.1)));
            }
        }
    }
    Ok(())
}

/// Each half found under the prefix of `a` is an edge from `a`.
proof fn lemma_half_is_free_edge(
    entries: Entries,
    a: Node,
    raw: Seq<crate::model::Pair>,
    shown: Seq<LinkView>,
    j: int,
)
    requires
        representable(a),
        is_scan(raw, entries, relations_tree(), Span::Prefix(node_prefix(a))),
        reads_as(entries, raw, shown),
        0 <= j < raw.len(),
    ensures
        free_edge(entries, a, shown[j].target, shown[j].on_delete),
{
    let key = raw[j].0;
    let value = raw[j].1;
    assert(sound_half(entries, key, value));
    assert(shown[j] == link_of(key, value));
    assert(Span::Prefix(node_prefix(a)).holds(key));
    assert(lookup(entries, relations_tree(), key) == Some(value));
    lemma_prefix_names_source(a, key);
    lemma_link_key_rebuild(key);
    lemma_link_ends_representable(key);
}

/// Each edge from `a` by a link is among the halves found under the
/// prefix of `a`.
proof fn lemma_free_edge_is_read(
    entries: Entries,
    a: Node,
    raw: Seq<crate::model::Pair>,
    shown: Seq<LinkView>,
    e: Edge,
) -> (j: int)
    requires
        representable(a),
        is_scan(raw, entries, relations_tree(), Span::Prefix(node_prefix(a))),
        reads_as(entries, raw, shown),
        free_edge(entries, a, e.0, e.1),
    ensures
        0 <= j < raw.len(),
        shown[j].target == e.0,
        shown[j].on_delete == e.1,
{
    let key = link_key(a, e.0);
    lemma_link_key_parts(a, e.0);
    assert(key.take(node_prefix(a).len() as int) =~= node_prefix(a));
    assert(Span::Prefix(node_prefix(a)).holds(key));
    assert(entries.contains_key((relations_tree(), key)));
    let j = choose|j: int| 0 <= j < raw.len() && #[trigger] raw[j].0 == key;
    assert(sound_half(entries, raw[j].0, raw[j].1));
    assert(lookup(entries, relations_tree(), raw[j].0) == Some(raw[j].1));
    assert(shown[j] == link_of(key, raw[j].1));
    j
}

/// Each half filed under `a` holds two policies.
pub open spec fn halves_readable(entries: Entries, a: Node) -> bool {
    forall|t: Node|
        t.0.len() <= u64::MAX && #[trigger] half_present(entries, a, t) ==> parse_link_value(
            entries[(relations_tree(), link_key(a, t))],
        ) is Some
}

/// Where the scan under the prefix of `a` reads well, each half filed
/// under `a` holds two policies.
proof fn lemma_half_is_readable(
    entries: Entries,
    a: Node,
    raw: Seq<crate::model::Pair>,
    shown: Seq<LinkView>,
    t: Node,
)
    requires
        representable(a),
        is_scan(raw, entries, relations_tree(), Span::Prefix(node_prefix(a))),
        reads_as(entries, raw, shown),
        t.0.len() <= u64::MAX,
        half_present(entries, a, t),
    ensures
        parse_link_value(entries[(relations_tree(), link_key(a, t))]) is Some,
{
    let key = link_key(a, t);
    assert(key.take(node_prefix(a).len() as int) =~= node_prefix(a));
    assert(Span::Prefix(node_prefix(a)).holds(key));
    assert(entries.contains_key((relations_tree(), key)));
    let j = choose|j: int| 0 <= j < raw.len() && #[trigger] raw[j].0 == key;
    assert(sound_half(entries, raw[j].0, raw[j].1));
    assert(lookup(entries, relations_tree(), raw[j].0) == Some(raw[j].1));
}

/// The links of `a` as edges: one for each half filed under `a`, with the
/// policy that applies when `a` is deleted.
#[verifier::rlimit(40)]
fn free_edges(db: &sled::Db, a: &RecordId) -> (r: Result<Vec<Outgoing>>)
    ensures
        match r {
            Ok(out) => {
                &&& forall|e: Edge|
                    #[trigger] edges_view(out@).contains(e) <==> free_edge(
                        db_entries(*db),
                        a@,
                        e.0,
                        e.1,
                    )
                &&& halves_readable(db_entries(*db), a@)
                &&& !unsound_under(db_entries(*db), node_prefix(a@))
                &&& edges_view(out@) == linked_of(db_entries(*db), a@)
            },
            Err(e) => e.kind == ErrorKind::IoError || (e.kind == ErrorKind::IntegrityError
                && unsound_under(db_entries(*db), node_prefix(a@))),
        },
{
    let ghost entries = db_entries(*db);
    let links = match links_of(db, a) {
        Ok(links) => links,
        Err(e) => {
            return Err(e);
        },
    };
    let ghost raw = choose|raw: Seq<crate::model::Pair>|
        {
            &&& is_scan(raw, entries, relations_tree(), Span::Prefix(node_prefix(a@)))
            &&& #[trigger] reads_as(entries, raw, links_view(links@))
        };
    let ghost shown = links_view(links@);
    let mut out: Vec<Outgoing> = Vec::new();
    let mut k: usize = 0;
    while k < links.len()
        invariant
            k <= links@.len(),
            out@.len() == k,
            shown == links_view(links@),
            forall|j: int|
                0 <= j < k ==> #[trigger] edges_view(out@)[j] == (shown[j].target, shown[j].on_delete),
        decreases links@.len() - k,
    {
        let ghost before = edges_view(out@);
        let target = links[k].target.duplicate();
        let policy = links[k].on_delete;
        out.push(Outgoing { target, policy });
        proof {
            assert(shown[k as int] == links@[k as int]@);
            assert(edges_view(out@) =~= before.push((shown[k as int].target, shown[k as int].on_delete)));
        }
        k += 1;
    }
    a.note_representable();
    proof {
        let found = edges_view(out@);
        lemma_is_the_scan(raw, entries, relations_tree(), Span::Prefix(node_prefix(a@)));
        assert forall|j: int| 0 <= j < found.len() implies found[j] == linked_of(entries, a@)[j] by {
            assert(sound_half(entries, raw[j].0, raw[j].1));
            assert(shown[j] == link_of(raw[j].0, raw[j].1));
        }
        assert(found =~= linked_of(entries, a@));
        assert forall|e: Edge| #[trigger] found.contains(e) <==> free_edge(entries, a@, e.0, e.1) by {
            if found.contains(e) {
                let j = choose|j: int| 0 <= j < found.len() && found[j] == e;
                assert(found[j] == (shown[j].target, shown[j].on_delete));
                lemma_half_is_free_edge(entries, a@, raw, shown, j);
            }
            if free_edge(entries, a@, e.0, e.1) {
                let j = lemma_free_edge_is_read(entries, a@, raw, shown, e);
                assert(found[j] == e);
            }
        }
        assert forall|t: Node| t.0.len() <= u64::MAX && #[trigger] half_present(entries, a@, t) implies {
            &&& parse_link_value(entries[(relations_tree(), link_key(a@, t))]) is Some
        } by {
            lemma_half_is_readable(entries, a@, raw, shown, t);
        }
    }
    Ok(out)
}

/// What is stored about `a` cannot be read: the catalog holds something
/// for its store that is no family descriptor, or one of the halves filed
/// under it is not sound.
pub open spec fn unreadable_at(entries: Entries, a: Node) -> bool {
    ||| entries.contains_key((families_tree(), a.0)) && family_of(entries, a.0) is None
    ||| unsound_under(entries, node_prefix(a))
}

/// The edges that leave a record: those that its store declares, and
/// those of its links.
pub struct Outlook {
    /// The sibling edges, then the child edges.
    pub declared: Vec<Outgoing>,
    /// The edges of the links, in the order of their keys.
    pub linked: Vec<Outgoing>,
}

/// The edges that leave `a`. A store without a family descriptor declares
/// none.
pub fn expand(db: &sled::Db, a: &RecordId) -> (r: Result<Outlook>)
    ensures
        match r {
            Ok(found) => {
                &&& forall|e: Edge|
                    #[trigger] edges_view(found.declared@).contains(e) <==> sibling_edge(
                        db_entries(*db),
                        a@,
                        e.0,
                        e.1,
                    ) || child_edge(db_entries(*db), a@, e.0, e.1)
                &&& forall|e: Edge|
                    #[trigger] edges_view(found.linked@).contains(e) <==> free_edge(
                        db_entries(*db),
                        a@,
                        e.0,
                        e.1,
                    )
                &&& halves_readable(db_entries(*db), a@)
                &&& !unreadable_at(db_entries(*db), a@)
                &&& edges_view(found.declared@) == declared_of(db_entries(*db), a@)
                &&& edges_view(found.linked@) == linked_of(db_entries(*db), a@)
            },
            Err(e) => e.kind == ErrorKind::IoError || (e.kind == ErrorKind::IntegrityError
                && unreadable_at(db_entries(*db), a@)),
        },
{
    let mut declared: Vec<Outgoing> = Vec::new();
    assert(edges_view(declared@) =~= Seq::<Edge>::empty());
    match FamilyDescriptor::get_by_bytes(a.store.as_slice(), db) {
        Err(e) => {
            return Err(e);
        },
        Ok(None) => {},
        Ok(Some(family)) => {
            match sibling_edges(db, a, &family, &mut declared) {
                Ok(_) => {},
                Err(e) => {
                    return Err(e);
                },
            }
            match child_edges(db, a, &family, &mut declared) {
                Ok(_) => {},
                Err(e) => {
                    return Err(e);
                },
            }
        },
    }
    let linked = match free_edges(db, a) {
        Ok(linked) => linked,
        Err(e) => {
            return Err(e);
        },
    };
    Ok(Outlook { declared, linked })
}

} // verus!
