//! The walk of a deletion through the relation graph.
//!
//! A deletion walks from the record to delete along the edges of the
//! graph, depth first. [`walk_node`] says what the walk finds and when it
//! is refused; [`plan_removal`] carries the walk out.
//!
//! What the walk finds, where it is not refused, are the records that
//! chains of `Cascade` edges lead to, [`reaches`]; and it is refused at
//! the latest where one of them is bound by `Error` to a record that is
//! not among them, [`blocked`].

use vstd::prelude::*;
use crate::edges::{
    Edge, Outgoing, edge, edges_of, edges_view, expand, free_edge, unreadable_at,
};
use crate::engine::db_entries;
use crate::error::{ErrorKind, Result, StoreError};
use crate::family::DeletionBehaviour;
use crate::model::Entries;
use crate::relation::{
    Node, RecordId, half_present, link_key, parse_link_value, relations_tree, representable,
};

verus! {

/// Each record of `path` cascades to the next.
pub open spec fn cascade_path(entries: Entries, path: Seq<Node>) -> bool {
    forall|i: int|
        0 <= i < path.len() - 1 ==> edge(
            entries,
            #[trigger] path[i],
            path[i + 1],
            DeletionBehaviour::Cascade,
        )
}

/// Deleting `root` deletes `n`: `n` is `root`, or a chain of `Cascade`
/// edges leads from `root` to `n`.
pub open spec fn reaches(entries: Entries, root: Node, n: Node) -> bool {
    exists|path: Seq<Node>|
        path.len() > 0 && path[0] == root && path.last() == n && #[trigger] cascade_path(
            entries,
            path,
        )
}

/// The deletion of `root` cannot go through: a record that it would
/// delete is bound by an `Error` policy to a record that it would not
/// delete.
pub open spec fn blocked(entries: Entries, root: Node) -> bool {
    exists|a: Node, b: Node|
        reaches(entries, root, a) && #[trigger] edge(entries, a, b, DeletionBehaviour::Error)
            && !reaches(entries, root, b)
}

/// What is stored about a record that the deletion of `root` deletes
/// cannot be read.
pub open spec fn garbled(entries: Entries, root: Node) -> bool {
    exists|n: Node| reaches(entries, root, n) && #[trigger] unreadable_at(entries, n)
}

/// The views of a list of record identities.
pub open spec fn nodes_view(nodes: Seq<RecordId>) -> Seq<Node> {
    Seq::new(nodes.len(), |i: int| nodes[i]@)
}

/// The views of a list of links, each given by its two ends.
pub open spec fn ends_view(links: Seq<(RecordId, RecordId)>) -> Seq<(Node, Node)> {
    Seq::new(links.len(), |i: int| (links[i].0@, links[i].1@))
}

/// A record is deleted with itself.
pub proof fn lemma_reaches_self(entries: Entries, root: Node)
    ensures
        reaches(entries, root, root),
{
    let path = seq![root];
    assert(cascade_path(entries, path));
    assert(path[0] == root && path.last() == root);
}

/// What a deleted record cascades to is deleted too.
pub proof fn lemma_reaches_step(entries: Entries, root: Node, a: Node, b: Node)
    requires
        reaches(entries, root, a),
        edge(entries, a, b, DeletionBehaviour::Cascade),
    ensures
        reaches(entries, root, b),
{
    let path = choose|path: Seq<Node>|
        path.len() > 0 && path[0] == root && path.last() == a && #[trigger] cascade_path(
            entries,
            path,
        );
    let longer = path.push(b);
    assert forall|i: int| 0 <= i < longer.len() - 1 implies edge(
        entries,
        #[trigger] longer[i],
        longer[i + 1],
        DeletionBehaviour::Cascade,
    ) by {
        if i < path.len() - 1 {
            assert(edge(entries, path[i], path[i + 1], DeletionBehaviour::Cascade));
        }
    }
    assert(cascade_path(entries, longer));
    assert(longer[0] == root && longer.last() == b);
}

/// `nodes` holds everything that its first `upto` records cascade to.
pub open spec fn closed_upto(entries: Entries, nodes: Seq<Node>, upto: int) -> bool {
    forall|i: int, b: Node|
        0 <= i < upto && i < nodes.len() && #[trigger] edge(
            entries,
            nodes[i],
            b,
            DeletionBehaviour::Cascade,
        ) ==> nodes.contains(b)
}

/// A list that holds `root` and everything that its records cascade to
/// holds every record of a chain that starts at `root`.
proof fn lemma_closed_holds_path(entries: Entries, nodes: Seq<Node>, path: Seq<Node>, k: int)
    requires
        closed_upto(entries, nodes, nodes.len() as int),
        path.len() > 0,
        nodes.contains(path[0]),
        cascade_path(entries, path),
        0 <= k < path.len(),
    ensures
        nodes.contains(path[k]),
    decreases k,
{
    if k > 0 {
        lemma_closed_holds_path(entries, nodes, path, k - 1);
        let i = choose|i: int| 0 <= i < nodes.len() && nodes[i] == path[k - 1];
        assert(edge(entries, path[k - 1], path[k], DeletionBehaviour::Cascade));
        assert(edge(entries, nodes[i], path[k], DeletionBehaviour::Cascade));
    }
}

/// A list that holds `root` and everything that its records cascade to
/// holds everything that the deletion of `root` deletes.
pub proof fn lemma_closed_holds_reached(entries: Entries, root: Node, nodes: Seq<Node>, n: Node)
    requires
        closed_upto(entries, nodes, nodes.len() as int),
        nodes.contains(root),
        reaches(entries, root, n),
    ensures
        nodes.contains(n),
{
    let path = choose|path: Seq<Node>|
        path.len() > 0 && path[0] == root && path.last() == n && #[trigger] cascade_path(
            entries,
            path,
        );
    lemma_closed_holds_path(entries, nodes, path, path.len() - 1);
}

/// Whether `nodes` holds `n`.
pub fn holds(nodes: &Vec<RecordId>, n: &RecordId) -> (r: bool)
    ensures
        r == nodes_view(nodes@).contains(n@),
{
    let mut i: usize = 0;
    while i < nodes.len()
        invariant
            i <= nodes@.len(),
            forall|j: int| 0 <= j < i ==> nodes_view(nodes@)[j] != n@,
        decreases nodes@.len() - i,
    {
        if nodes[i].same(n) {
            assert(nodes_view(nodes@)[i as int] == n@);
            return true;
        }
        i += 1;
    }
    false
}

/// What the walk does at an edge.
#[derive(Clone, Copy, Debug, PartialEq, Eq, Structural)]
pub enum Step {
    /// The edge is passed over.
    PassOver,
    /// The edge refuses the deletion.
    Refuse,
    /// The walk goes on at the record that the edge leads to.
    Follow,
}

/// What the walk does at an edge with the policy `policy`, told from
/// whether the record that it leads to was found before: an edge to a
/// record found before is passed over whatever its policy; otherwise an
/// `Error` edge refuses the deletion, a `BreakLink` edge is passed over,
/// and a `Cascade` edge is followed.
pub open spec fn step_for(found: bool, policy: DeletionBehaviour) -> Step {
    if found {
        Step::PassOver
    } else {
        match policy {
            DeletionBehaviour::Error => Step::Refuse,
            DeletionBehaviour::BreakLink => Step::PassOver,
            DeletionBehaviour::Cascade => Step::Follow,
        }
    }
}

/// What the walk does at an edge with the policy `policy`, told from
/// whether the record that it leads to was found before.
pub fn step_at(found: bool, policy: DeletionBehaviour) -> (r: Step)
    ensures
        r == step_for(found, policy),
{
    if found {
        Step::PassOver
    } else {
        match policy {
            DeletionBehaviour::Error => Step::Refuse,
            DeletionBehaviour::BreakLink => Step::PassOver,
            DeletionBehaviour::Cascade => Step::Follow,
        }
    }
}

/// How the walk of a deletion ends.
pub enum Walk {
    /// Every edge was looked at and none refused the deletion; the
    /// records that were found, in the order in which they were found.
    Done(Seq<Node>),
    /// An `Error` edge led to a record that had not been found.
    Refused,
    /// What is stored about a record that was found cannot be read.
    Unreadable,
    /// The walk was cut short.
    Unfinished,
}

/// The walk along the edges `edges` from position `from` on, having
/// found `visited`, and going at most `fuel` records deep.
///
/// An edge to a record that was found already is passed over. Of the
/// others, an `Error` edge refuses the deletion, a `BreakLink` edge is
/// passed over, and a `Cascade` edge is followed: its target is found,
/// and the walk goes on from there before it comes back to the next
/// edge.
pub open spec fn walk_edges(entries: Entries, edges: Seq<Edge>, from: int, visited: Seq<Node>, fuel: nat) -> Walk
    decreases fuel, 1int, edges.len() - from,
{
    if from < 0 || from >= edges.len() {
        Walk::Done(visited)
    } else if visited.contains(edges[from].0) {
        walk_edges(entries, edges, from + 1, visited, fuel)
    } else {
        match edges[from].1 {
            DeletionBehaviour::Error => Walk::Refused,
            DeletionBehaviour::BreakLink => walk_edges(entries, edges, from + 1, visited, fuel),
            DeletionBehaviour::Cascade => if fuel == 0 {
                Walk::Unfinished
            } else {
                match walk_node(
                    entries,
                    edges[from].0,
                    visited.push(edges[from].0),
                    (fuel - 1) as nat,
                ) {
                    Walk::Done(found) => walk_edges(entries, edges, from + 1, found, fuel),
                    other => other,
                }
            },
        }
    }
}

/// The walk from the record `node`, having found `visited`, and going at
/// most `fuel` records deep: along the edges that leave `node`, in their
/// order.
pub open spec fn walk_node(entries: Entries, node: Node, visited: Seq<Node>, fuel: nat) -> Walk
    decreases fuel, 2int, 0int,
{
    if unreadable_at(entries, node) {
        Walk::Unreadable
    } else {
        walk_edges(entries, edges_of(entries, node), 0, visited, fuel)
    }
}

/// The walk from `node` ends as `outcome` whenever it may go `fuel`
/// records deep or deeper.
pub open spec fn settles(entries: Entries, node: Node, visited: Seq<Node>, fuel: nat, outcome: Walk) -> bool {
    forall|f: nat| f >= fuel ==> #[trigger] walk_node(entries, node, visited, f) == outcome
}

/// The walk from `node`, having found `visited`, ends as `outcome`.
pub open spec fn walks_to(entries: Entries, node: Node, visited: Seq<Node>, outcome: Walk) -> bool {
    exists|fuel: nat| #[trigger] settles(entries, node, visited, fuel, outcome)
}

/// The walk of the deletion of `root` ends as `outcome`.
pub open spec fn walked(entries: Entries, root: Node, outcome: Walk) -> bool {
    walks_to(entries, root, seq![root], outcome)
}

/// The walk of the deletion of `root` gets done: it finds `found`, which
/// are the records that chains of `Cascade` edges lead to from `root`.
pub open spec fn walked_through(entries: Entries, root: Node, found: Seq<Node>) -> bool {
    &&& walked(entries, root, Walk::Done(found))
    &&& forall|n: Node| #[trigger] found.contains(n) <==> reaches(entries, root, n)
}

/// The deletion of `root` is refused: its walk meets an `Error` edge to a
/// record that it has not found.
pub open spec fn refused(entries: Entries, root: Node) -> bool {
    walked(entries, root, Walk::Refused)
}

/// The walk along `all` from the start, having found `before`, ends as
/// the walk from position `k` on, having found `now`, whenever it may go
/// `fuel` records deep or deeper.
pub open spec fn carried(
    entries: Entries,
    all: Seq<Edge>,
    before: Seq<Node>,
    k: int,
    now: Seq<Node>,
    fuel: nat,
) -> bool {
    forall|f: nat|
        f >= fuel ==> #[trigger] walk_edges(entries, all, 0, before, f) == walk_edges(
            entries,
            all,
            k,
            now,
            f,
        )
}

/// Nothing is left to do about `n`: what is stored about it can be read,
/// every record that it is bound to by `Cascade` or by `Error` is among
/// `nodes`, and every link filed under it is among `links`.
pub open spec fn settled(entries: Entries, n: Node, nodes: Seq<Node>, links: Seq<(Node, Node)>) -> bool {
    &&& !unreadable_at(entries, n)
    &&& forall|b: Node| #[trigger] edge(entries, n, b, DeletionBehaviour::Cascade) ==> nodes.contains(b)
    &&& forall|b: Node| #[trigger] edge(entries, n, b, DeletionBehaviour::Error) ==> nodes.contains(b)
    &&& forall|t: Node|
        t.0.len() <= u64::MAX && #[trigger] half_present(entries, n, t) ==> links.contains((n, t))
}

/// Every link of `links` is filed under a record that the deletion of
/// `root` deletes, and is present.
pub open spec fn links_sound(entries: Entries, root: Node, links: Seq<(Node, Node)>) -> bool {
    forall|j: int|
        0 <= j < links.len() ==> {
            &&& reaches(entries, root, (#[trigger] links[j]).0)
            &&& half_present(entries, links[j].0, links[j].1)
            &&& representable(links[j].0)
            &&& representable(links[j].1)
        }
}

/// What is settled stays settled when more records are found and more
/// links are filed.
proof fn lemma_settled_grows(
    entries: Entries,
    n: Node,
    nodes: Seq<Node>,
    links: Seq<(Node, Node)>,
    more_nodes: Seq<Node>,
    more_links: Seq<(Node, Node)>,
)
    requires
        settled(entries, n, nodes, links),
        nodes.is_prefix_of(more_nodes),
        links.is_prefix_of(more_links),
    ensures
        settled(entries, n, more_nodes, more_links),
{
    assert forall|b: Node| nodes.contains(b) implies more_nodes.contains(b) by {
        let i = choose|i: int| 0 <= i < nodes.len() && nodes[i] == b;
        assert(more_nodes[i] == b);
    }
    assert forall|x: (Node, Node)| links.contains(x) implies more_links.contains(x) by {
        let i = choose|i: int| 0 <= i < links.len() && links[i] == x;
        assert(more_links[i] == x);
    }
}

/// An edge that is passed over leaves the walk as it is.
proof fn lemma_step_over(entries: Entries, all: Seq<Edge>, k: int, now: Seq<Node>, f: nat)
    requires
        0 <= k < all.len(),
        now.contains(all[k].0) || all[k].1 == DeletionBehaviour::BreakLink,
    ensures
        walk_edges(entries, all, k, now, f) == walk_edges(entries, all, k + 1, now, f),
{
}

/// An `Error` edge to a record that was not found refuses the deletion.
proof fn lemma_step_refused(entries: Entries, all: Seq<Edge>, k: int, now: Seq<Node>, f: nat)
    requires
        0 <= k < all.len(),
        !now.contains(all[k].0),
        all[k].1 == DeletionBehaviour::Error,
    ensures
        walk_edges(entries, all, k, now, f) == Walk::Refused,
{
}

/// A `Cascade` edge to a record that was not found is followed.
proof fn lemma_step_into(entries: Entries, all: Seq<Edge>, k: int, now: Seq<Node>, f: nat)
    requires
        0 <= k < all.len(),
        !now.contains(all[k].0),
        all[k].1 == DeletionBehaviour::Cascade,
        f > 0,
    ensures
        walk_edges(entries, all, k, now, f) == match walk_node(
            entries,
            all[k].0,
            now.push(all[k].0),
            (f - 1) as nat,
        ) {
            Walk::Done(found) => walk_edges(entries, all, k + 1, found, f),
            other => other,
        },
{
}

/// What a list of two parts holds is what one of the parts holds.
proof fn lemma_concat_contains(a: Seq<Edge>, b: Seq<Edge>, e: Edge)
    ensures
        (a + b).contains(e) <==> a.contains(e) || b.contains(e),
{
    if a.contains(e) {
        let i = choose|i: int| 0 <= i < a.len() && a[i] == e;
        assert((a + b)[i] == e);
    }
    if b.contains(e) {
        let i = choose|i: int| 0 <= i < b.len() && b[i] == e;
        assert((a + b)[a.len() + i] == e);
    }
    if (a + b).contains(e) {
        let i = choose|i: int| 0 <= i < (a + b).len() && (a + b)[i] == e;
        if i < a.len() {
            assert(a[i] == e);
        } else {
            assert(b[i - a.len()] == e);
        }
    }
}

/// What a deletion will remove.
pub struct Plan {
    /// The records to remove, in the order in which they were found; the
    /// record that the deletion started from comes first.
    pub records: Vec<RecordId>,
    /// The links to drop, each given by the record it was found under and
    /// the record at its other end.
    pub links: Vec<(RecordId, RecordId)>,
}

/// Whether `records` and `links` carry out the deletion of `root`:
/// `records` are the records that the deletion deletes, and `links` are
/// the links filed under them.
pub open spec fn carries_out(
    entries: Entries,
    root: Node,
    records: Seq<Node>,
    links: Seq<(Node, Node)>,
) -> bool {
    &&& forall|n: Node| #[trigger] records.contains(n) <==> reaches(entries, root, n)
    &&& forall|j: int|
        0 <= j < links.len() ==> {
            &&& records.contains((#[trigger] links[j]).0)
            &&& half_present(entries, links[j].0, links[j].1)
            &&& representable(links[j].0)
            &&& representable(links[j].1)
        }
    &&& forall|s: Node, t: Node|
        records.contains(s) && t.0.len() <= u64::MAX && #[trigger] half_present(entries, s, t)
            ==> links.contains((s, t))
}

/// Files one link under `node` for each of `edges`.
fn file_links(node: &RecordId, edges: &Vec<Outgoing>, links: &mut Vec<(RecordId, RecordId)>)
    ensures
        ends_view(old(links)@).is_prefix_of(ends_view(final(links)@)),
        final(links)@.len() == old(links)@.len() + edges@.len(),
        forall|k: int|
            0 <= k < edges@.len() ==> #[trigger] ends_view(final(links)@)[old(links)@.len() + k] == (
                node@,
                edges_view(edges@)[k].0,
            ),
        forall|j: int|
            old(links)@.len() <= j < final(links)@.len() ==> representable(
                (#[trigger] ends_view(final(links)@)[j]).0,
            ) && representable(ends_view(final(links)@)[j].1),
{
    let ghost start = ends_view(links@);
    let mut k: usize = 0;
    while k < edges.len()
        invariant
            k <= edges@.len(),
            start.is_prefix_of(ends_view(links@)),
            links@.len() == start.len() + k,
            forall|j: int|
                0 <= j < k ==> #[trigger] ends_view(links@)[start.len() + j] == (
                    node@,
                    edges_view(edges@)[j].0,
                ),
            forall|j: int|
                start.len() <= j < links@.len() ==> representable(
                    (#[trigger] ends_view(links@)[j]).0,
                ) && representable(ends_view(links@)[j].1),
        decreases edges@.len() - k,
    {
        let ghost before = ends_view(links@);
        let source = node.duplicate();
        let target = edges[k].target.duplicate();
        source.note_representable();
        target.note_representable();
        links.push((source, target));
        proof {
            assert(ends_view(links@) =~= before.push((node@, edges_view(edges@)[k as int].0)));
        }
        k += 1;
    }
}

/// Walks from `node`, which has been found, along the edges that leave
/// it: finds the records that the deletion cascades to and files the
/// links under them, until every edge was looked at or one refuses the
/// deletion.
#[verifier::rlimit(100)]
fn walk(
    db: &sled::Db,
    Ghost(root): Ghost<Node>,
    node: &RecordId,
    visited: &mut Vec<RecordId>,
    links: &mut Vec<(RecordId, RecordId)>,
) -> (r: Result<Ghost<nat>>)
    requires
        reaches(db_entries(*db), root, node@),
        nodes_view(old(visited)@).contains(node@),
        links_sound(db_entries(*db), root, ends_view(old(links)@)),
    ensures
        match r {
            Ok(fuel) => {
                &&& settles(
                    db_entries(*db),
                    node@,
                    nodes_view(old(visited)@),
                    fuel@,
                    Walk::Done(nodes_view(final(visited)@)),
                )
                &&& nodes_view(old(visited)@).is_prefix_of(nodes_view(final(visited)@))
                &&& ends_view(old(links)@).is_prefix_of(ends_view(final(links)@))
                &&& links_sound(db_entries(*db), root, ends_view(final(links)@))
                &&& settled(
                    db_entries(*db),
                    node@,
                    nodes_view(final(visited)@),
                    ends_view(final(links)@),
                )
                &&& forall|i: int|
                    old(visited)@.len() <= i < final(visited)@.len() ==> {
                        &&& reaches(db_entries(*db), root, #[trigger] nodes_view(final(visited)@)[i])
                        &&& settled(
                            db_entries(*db),
                            nodes_view(final(visited)@)[i],
                            nodes_view(final(visited)@),
                            ends_view(final(links)@),
                        )
                    }
            },
            Err(e) => match e.kind {
                ErrorKind::IoError => true,
                ErrorKind::IntegrityError => {
                    &&& walks_to(
                        db_entries(*db),
                        node@,
                        nodes_view(old(visited)@),
                        Walk::Unreadable,
                    )
                    &&& garbled(db_entries(*db), root)
                },
                ErrorKind::PolicyViolation => walks_to(
                    db_entries(*db),
                    node@,
                    nodes_view(old(visited)@),
                    Walk::Refused,
                ),
                _ => false,
            },
        },
    decreases usize::MAX - old(visited)@.len(),
{
    let ghost entries = db_entries(*db);
    let ghost v_old = nodes_view(visited@);
    let ghost l_old = ends_view(links@);
    let ghost entry_len = visited@.len();
    let found = match expand(db, node) {
        Ok(found) => found,
        Err(e) => {
            proof {
                if e.kind == ErrorKind::IntegrityError {
                    assert(settles(entries, node@, v_old, 0, Walk::Unreadable));
                    assert(unreadable_at(entries, node@));
                }
            }
            return Err(e);
        },
    };
    file_links(node, &found.linked, links);
    node.note_representable();
    let ghost declared = edges_view(found.declared@);
    let ghost linked = edges_view(found.linked@);
    let ghost all = edges_of(entries, node@);
    let ghost l_mid = ends_view(links@);
    let mut edges = found.declared;
    let mut rest = found.linked;
    edges.append(&mut rest);
    proof {
        assert(edges_view(edges@) =~= declared + linked);
        assert forall|e: Edge| all.contains(e) implies edge(entries, node@, e.0, e.1) by {
            lemma_concat_contains(declared, linked, e);
        }
        assert forall|b: Node, p: DeletionBehaviour| #[trigger]
            edge(entries, node@, b, p) implies all.contains((b, p)) by {
            lemma_concat_contains(declared, linked, (b, p));
        }
        assert forall|j: int| 0 <= j < l_mid.len() implies {
            &&& reaches(entries, root, (#[trigger] l_mid[j]).0)
            &&& half_present(entries, l_mid[j].0, l_mid[j].1)
            &&& representable(l_mid[j].0)
            &&& representable(l_mid[j].1)
        } by {
            if j < l_old.len() {
                assert(l_mid[j] == l_old[j]);
            } else {
                let k = j - l_old.len();
                assert(l_mid[l_old.len() + k] == (node@, linked[k].0));
                assert(linked.contains(linked[k]));
                assert(free_edge(entries, node@, linked[k].0, linked[k].1));
            }
        }
        assert forall|t: Node|
            t.0.len() <= u64::MAX && #[trigger] half_present(entries, node@, t) implies l_mid.contains(
            (node@, t),
        ) by {
            let value = entries[(relations_tree(), link_key(node@, t))];
            assert(parse_link_value(value) is Some);
            let policies = parse_link_value(value)->0;
            assert(free_edge(entries, node@, t, policies.0));
            assert(linked.contains((t, policies.0)));
            let k = choose|k: int| 0 <= k < linked.len() && linked[k] == (t, policies.0);
            assert(l_mid[l_old.len() + k] == (node@, linked[k].0));
        }
    }
    let ghost mut fuel: nat = 0;
    let mut k: usize = 0;
    while k < edges.len()
        invariant
            k <= edges@.len(),
            entries == db_entries(*db),
            all == edges_view(edges@),
            all == edges_of(entries, node@),
            entry_len == old(visited)@.len(),
            v_old == nodes_view(old(visited)@),
            v_old.is_prefix_of(nodes_view(visited@)),
            l_old.is_prefix_of(l_mid),
            l_mid.is_prefix_of(ends_view(links@)),
            links_sound(entries, root, ends_view(links@)),
            reaches(entries, root, node@),
            !unreadable_at(entries, node@),
            forall|e: Edge| all.contains(e) ==> #[trigger] edge(entries, node@, e.0, e.1),
            carried(entries, all, v_old, k as int, nodes_view(visited@), fuel),
            forall|j: int|
                0 <= j < k && (#[trigger] all[j]).1 != DeletionBehaviour::BreakLink ==> nodes_view(
                    visited@,
                ).contains(all[j].0),
            forall|i: int|
                entry_len <= i < visited@.len() ==> {
                    &&& reaches(entries, root, #[trigger] nodes_view(visited@)[i])
                    &&& settled(
                        entries,
                        nodes_view(visited@)[i],
                        nodes_view(visited@),
                        ends_view(links@),
                    )
                },
        decreases edges@.len() - k,
    {
        let ghost v_now = nodes_view(visited@);
        let ghost l_now = ends_view(links@);
        let ghost e = all[k as int];
        assert(e == edges@[k as int]@);
        assert(all.contains(e));
        match step_at(holds(visited, &edges[k].target), edges[k].policy) {
            Step::PassOver => {
                proof {
                    assert forall|f: nat| f >= fuel implies #[trigger] walk_edges(
                        entries,
                        all,
                        0,
                        v_old,
                        f,
                    ) == walk_edges(entries, all, k + 1, v_now, f) by {
                        lemma_step_over(entries, all, k as int, v_now, f);
                    }
                }
            },
            Step::Refuse => {
                proof {
                    assert forall|f: nat| f >= fuel implies #[trigger] walk_node(
                        entries,
                        node@,
                        v_old,
                        f,
                    ) == Walk::Refused by {
                        lemma_step_refused(entries, all, k as int, v_now, f);
                        assert(walk_edges(entries, all, 0, v_old, f) == walk_edges(
                            entries,
                            all,
                            k as int,
                            v_now,
                            f,
                        ));
                    }
                    assert(settles(entries, node@, v_old, fuel, Walk::Refused));
                }
                return Err(
                    StoreError::new(
                        ErrorKind::PolicyViolation,
                        "A related record forbids the deletion",
                    ),
                );
            },
            Step::Follow => {
                let target = edges[k].target.duplicate();
                visited.push(edges[k].target.duplicate());
                let _found = visited.len();
                let ghost v_in = nodes_view(visited@);
                proof {
                    assert(v_in =~= v_now.push(e.0));
                    assert(v_in[v_now.len() as int] == target@);
                    assert(edge(entries, node@, e.0, e.1));
                    lemma_reaches_step(entries, root, node@, target@);
                }
                match walk(db, Ghost(root), &target, visited, links) {
                    Ok(spent) => {
                        proof {
                            let used: nat = spent@;
                            let v_out = nodes_view(visited@);
                            let l_out = ends_view(links@);
                            let more: nat = if fuel >= used + 1 {
                                fuel
                            } else {
                                used + 1
                            };
                            assert forall|f: nat| f >= more implies #[trigger] walk_edges(
                                entries,
                                all,
                                0,
                                v_old,
                                f,
                            ) == walk_edges(entries, all, k + 1, v_out, f) by {
                                lemma_step_into(entries, all, k as int, v_now, f);
                                assert(walk_node(entries, e.0, v_in, (f - 1) as nat) == Walk::Done(
                                    v_out,
                                ));
                                assert(walk_edges(entries, all, 0, v_old, f) == walk_edges(
                                    entries,
                                    all,
                                    k as int,
                                    v_now,
                                    f,
                                ));
                            }
                            fuel = more;
                            assert forall|b: Node| v_now.contains(b) implies v_out.contains(b) by {
                                let i = choose|i: int| 0 <= i < v_now.len() && v_now[i] == b;
                                assert(v_in[i] == b);
                                assert(v_out[i] == b);
                            }
                            assert(v_out[v_now.len() as int] == target@);
                            assert(v_out.contains(e.0));
                            assert forall|i: int| entry_len <= i < v_out.len() implies {
                                &&& reaches(entries, root, #[trigger] v_out[i])
                                &&& settled(entries, v_out[i], v_out, l_out)
                            } by {
                                if i < v_now.len() {
                                    assert(v_out[i] == v_in[i] && v_in[i] == v_now[i]);
                                    lemma_settled_grows(entries, v_now[i], v_now, l_now, v_out, l_out);
                                } else if i == v_now.len() {
                                } else {
                                }
                            }
                        }
                    },
                    Err(e2) => {
                        proof {
                            if e2.kind == ErrorKind::PolicyViolation {
                                let below = choose|below: nat| #[trigger]
                                    settles(entries, e.0, v_in, below, Walk::Refused);
                                let more: nat = if fuel >= below + 1 {
                                    fuel
                                } else {
                                    below + 1
                                };
                                assert forall|f: nat| f >= more implies #[trigger] walk_node(
                                    entries,
                                    node@,
                                    v_old,
                                    f,
                                ) == Walk::Refused by {
                                    lemma_step_into(entries, all, k as int, v_now, f);
                                    assert(walk_node(entries, e.0, v_in, (f - 1) as nat)
                                        == Walk::Refused);
                                    assert(walk_edges(entries, all, 0, v_old, f) == walk_edges(
                                        entries,
                                        all,
                                        k as int,
                                        v_now,
                                        f,
                                    ));
                                }
                                assert(settles(entries, node@, v_old, more, Walk::Refused));
                            }
                            if e2.kind == ErrorKind::IntegrityError {
                                let below = choose|below: nat| #[trigger]
                                    settles(entries, e.0, v_in, below, Walk::Unreadable);
                                let more: nat = if fuel >= below + 1 {
                                    fuel
                                } else {
                                    below + 1
                                };
                                assert forall|f: nat| f >= more implies #[trigger] walk_node(
                                    entries,
                                    node@,
                                    v_old,
                                    f,
                                ) == Walk::Unreadable by {
                                    lemma_step_into(entries, all, k as int, v_now, f);
                                    assert(walk_node(entries, e.0, v_in, (f - 1) as nat)
                                        == Walk::Unreadable);
                                    assert(walk_edges(entries, all, 0, v_old, f) == walk_edges(
                                        entries,
                                        all,
                                        k as int,
                                        v_now,
                                        f,
                                    ));
                                }
                                assert(settles(entries, node@, v_old, more, Walk::Unreadable));
                            }
                        }
                        return Err(e2);
                    },
                }
            },
        }
        k += 1;
    }
    proof {
        let v_out = nodes_view(visited@);
        let l_out = ends_view(links@);
        assert forall|f: nat| f >= fuel implies #[trigger] walk_node(entries, node@, v_old, f)
            == Walk::Done(v_out) by {
            assert(walk_edges(entries, all, 0, v_old, f) == walk_edges(
                entries,
                all,
                k as int,
                v_out,
                f,
            ));
        }
        assert forall|b: Node| #[trigger]
            edge(entries, node@, b, DeletionBehaviour::Cascade) implies v_out.contains(b) by {
            assert(all.contains((b, DeletionBehaviour::Cascade)));
            let j = choose|j: int| 0 <= j < all.len() && all[j] == (b, DeletionBehaviour::Cascade);
            assert(all[j].1 != DeletionBehaviour::BreakLink);
        }
        assert forall|b: Node| #[trigger]
            edge(entries, node@, b, DeletionBehaviour::Error) implies v_out.contains(b) by {
            assert(all.contains((b, DeletionBehaviour::Error)));
            let j = choose|j: int| 0 <= j < all.len() && all[j] == (b, DeletionBehaviour::Error);
            assert(all[j].1 != DeletionBehaviour::BreakLink);
        }
        assert forall|t: Node|
            t.0.len() <= u64::MAX && #[trigger] half_present(entries, node@, t) implies l_out.contains(
            (node@, t),
        ) by {
            assert(l_mid.contains((node@, t)));
            let i = choose|i: int| 0 <= i < l_mid.len() && l_mid[i] == (node@, t);
            assert(l_out[i] == (node@, t));
        }
        assert(l_old.is_prefix_of(l_out));
    }
    Ok(Ghost(fuel))
}

/// Plans the deletion of `root`, reading only: walks from `root` along
/// the edges of the relation graph, and collects the records that the
/// deletion deletes and the links filed under them.
///
/// Planning fails with a `PolicyViolation` if the walk is refused, and
/// with an `IntegrityError` if it meets a family descriptor or a link
/// that cannot be read.
pub fn plan_removal(db: &sled::Db, root: &RecordId) -> (r: Result<Plan>)
    ensures
        match r {
            Ok(plan) => {
                &&& walked_through(db_entries(*db), root@, nodes_view(plan.records@))
                &&& carries_out(
                    db_entries(*db),
                    root@,
                    nodes_view(plan.records@),
                    ends_view(plan.links@),
                )
                &&& !blocked(db_entries(*db), root@)
                &&& !garbled(db_entries(*db), root@)
                &&& plan.records@.len() > 0
                &&& plan.records@[0]@ == root@
            },
            Err(e) => match e.kind {
                ErrorKind::IoError => true,
                ErrorKind::IntegrityError => walked(db_entries(*db), root@, Walk::Unreadable) && garbled(
                    db_entries(*db),
                    root@,
                ),
                ErrorKind::PolicyViolation => refused(db_entries(*db), root@),
                _ => false,
            },
        },
{
    let ghost entries = db_entries(*db);
    let ghost start = root@;
    let mut visited: Vec<RecordId> = Vec::new();
    let mut links: Vec<(RecordId, RecordId)> = Vec::new();
    visited.push(root.duplicate());
    proof {
        lemma_reaches_self(entries, start);
        assert(nodes_view(visited@) =~= seq![start]);
        assert(nodes_view(visited@)[0] == start);
    }
    let fuel = match walk(db, Ghost(start), root, &mut visited, &mut links) {
        Ok(fuel) => fuel,
        Err(e) => {
            return Err(e);
        },
    };
    proof {
        let nodes = nodes_view(visited@);
        let filed = ends_view(links@);
        assert(nodes[0] == start);
        assert(nodes.contains(start));
        assert forall|i: int| 0 <= i < nodes.len() implies reaches(entries, start, #[trigger] nodes[i])
            && settled(entries, nodes[i], nodes, filed) by {
            if i == 0 {
            }
        }
        assert forall|i: int, b: Node|
            0 <= i < nodes.len() && i < nodes.len() && #[trigger] edge(
                entries,
                nodes[i],
                b,
                DeletionBehaviour::Cascade,
            ) implies nodes.contains(b) by {
            assert(settled(entries, nodes[i], nodes, filed));
        }
        assert(closed_upto(entries, nodes, nodes.len() as int));
        assert forall|n: Node| #[trigger] nodes.contains(n) <==> reaches(entries, start, n) by {
            if nodes.contains(n) {
                let i = choose|i: int| 0 <= i < nodes.len() && nodes[i] == n;
                assert(reaches(entries, start, nodes[i]));
            }
            if reaches(entries, start, n) {
                lemma_closed_holds_reached(entries, start, nodes, n);
            }
        }
        assert forall|a: Node, b: Node|
            reaches(entries, start, a) && #[trigger] edge(entries, a, b, DeletionBehaviour::Error)
                implies reaches(entries, start, b) by {
            lemma_closed_holds_reached(entries, start, nodes, a);
            let i = choose|i: int| 0 <= i < nodes.len() && nodes[i] == a;
            assert(settled(entries, nodes[i], nodes, filed));
            assert(nodes.contains(b));
        }
        assert forall|n: Node| reaches(entries, start, n) implies !#[trigger] unreadable_at(
            entries,
            n,
        ) by {
            lemma_closed_holds_reached(entries, start, nodes, n);
            let i = choose|i: int| 0 <= i < nodes.len() && nodes[i] == n;
            assert(settled(entries, nodes[i], nodes, filed));
        }
        assert forall|k: int| 0 <= k < filed.len() implies nodes.contains((#[trigger] filed[k]).0) by {
            assert(reaches(entries, start, filed[k].0));
        }
        assert forall|s: Node, t: Node|
            nodes.contains(s) && t.0.len() <= u64::MAX && #[trigger] half_present(
                entries,
                s,
                t,
            ) implies filed.contains((s, t)) by {
            let i = choose|i: int| 0 <= i < nodes.len() && nodes[i] == s;
            assert(settled(entries, nodes[i], nodes, filed));
        }
        assert(settles(entries, start, seq![start], fuel@, Walk::Done(nodes)));
    }
    Ok(Plan { records: visited, links })
}

/// A walk has one end only.
pub proof fn law_walk_has_one_outcome(entries: Entries, node: Node, visited: Seq<Node>, one: Walk, other: Walk)
    requires
        walks_to(entries, node, visited, one),
        walks_to(entries, node, visited, other),
    ensures
        one == other,
{
    let f1 = choose|fuel: nat| #[trigger] settles(entries, node, visited, fuel, one);
    let f2 = choose|fuel: nat| #[trigger] settles(entries, node, visited, fuel, other);
    let f: nat = if f1 >= f2 {
        f1
    } else {
        f2
    };
    assert(walk_node(entries, node, visited, f) == one);
    assert(walk_node(entries, node, visited, f) == other);
}

} // verus!
