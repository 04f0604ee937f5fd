//! Records together with their links, for carrying both out of one
//! database and into another.
//!
//! Sibling and child relations lie in the keys of the records and need no
//! place of their own; what is carried beside each record are the links
//! filed under it.

use vstd::prelude::*;
use crate::engine::db_entries;
use crate::entity::{Entity, node_of, tree_of};
use crate::error::{ErrorKind, Result};
use crate::family::DeletionBehaviour;
use crate::keys::{AsBytes, has_prefix};
use crate::records::identity;
use crate::model::{Entries, Pair, Span, is_scan, lookup};
use crate::relation::{
    Link, LinkView, Node, RecordId, lemma_link_key_parts, lemma_link_key_rebuild,
    lemma_prefix_names_source, link_key, link_key_bytes, link_of, link_source, link_target,
    link_value, link_value_bytes,
    links_of, links_view, mirror_key, node_prefix, parse_link_value, reads_as, relations_tree,
    relations_tree_name, representable, sound_half, unsound_under,
};
use crate::store::put_raw;

verus! {

/// The links filed under one record.
#[derive(Debug)]
pub struct EntityRelations {
    pub related_entities: Vec<Link>,
}

impl View for EntityRelations {
    type V = Seq<LinkView>;

    open spec fn view(&self) -> Seq<LinkView> {
        links_view(self.related_entities@)
    }
}

/// The records of one store, each with the links filed under it, if it
/// has any.
pub struct JsonWrapper<T>(pub Vec<(T, Option<EntityRelations>)>);

/// The links that an exported record carries: none where the record has
/// no relations beside it.
pub open spec fn carried(relations: Option<EntityRelations>) -> Seq<LinkView> {
    match relations {
        Some(r) => r@,
        None => Seq::empty(),
    }
}

/// `links` are the links filed under `a`, in the order of their keys,
/// each being sound.
pub open spec fn links_from(entries: Entries, a: Node, links: Seq<LinkView>) -> bool {
    exists|raw: Seq<Pair>|
        {
            &&& is_scan(raw, entries, relations_tree(), Span::Prefix(node_prefix(a)))
            &&& #[trigger] reads_as(entries, raw, links)
        }
}

/// `pairs` is the export of `records`: the same records in the same
/// order, each with the links filed under it, and with relations beside
/// it exactly if it has a link.
pub open spec fn exports<T: Entity>(
    entries: Entries,
    records: Seq<T>,
    pairs: Seq<(T, Option<EntityRelations>)>,
) -> bool {
    &&& pairs.len() == records.len()
    &&& forall|i: int|
        0 <= i < pairs.len() ==> {
            &&& (#[trigger] pairs[i]).0 == records[i]
            &&& links_from(entries, node_of::<T>(records[i].key().bytes()), carried(pairs[i].1))
            &&& (pairs[i].1 is Some <==> carried(pairs[i].1).len() > 0)
        }
}

/// One write: a slot of the database and the value that it then holds.
pub type Write = (Node, Seq<u8>);

/// The write of the half of a link that is filed under `a`.
pub open spec fn half_write(a: Node, b: Node, own: DeletionBehaviour, other: DeletionBehaviour) -> Write {
    ((relations_tree(), link_key(a, b)), link_value(own, other))
}

/// The writes that file a carried link under `a` again: the half under
/// `a`, as it was carried, and then, where the other end is another
/// record, the half under that record with the policies in the other
/// order. A link of a record to itself has one half, which is written
/// once.
pub open spec fn restore_writes(a: Node, link: LinkView) -> Seq<Write> {
    if link.target == a {
        seq![half_write(a, a, link.on_delete, link.target_on_delete)]
    } else {
        seq![
            half_write(a, link.target, link.on_delete, link.target_on_delete),
            half_write(link.target, a, link.target_on_delete, link.on_delete),
        ]
    }
}

/// The writes that file the carried links `links` under `a`, one link
/// after the other.
pub open spec fn link_writes(a: Node, links: Seq<LinkView>) -> Seq<Write>
    decreases links.len(),
{
    if links.len() == 0 {
        Seq::empty()
    } else {
        link_writes(a, links.drop_last()) + restore_writes(a, links.last())
    }
}

/// The writes that bring one pair of an export in: the record is saved,
/// then the links beside it are filed.
pub open spec fn pair_writes<T: Entity>(pair: (T, Option<EntityRelations>)) -> Seq<Write> {
    seq![(node_of::<T>(pair.0.key().bytes()), pair.0.encoded())] + link_writes(
        node_of::<T>(pair.0.key().bytes()),
        carried(pair.1),
    )
}

/// The writes that bring the pairs of an export in, one pair after the
/// other.
pub open spec fn import_writes<T: Entity>(pairs: Seq<(T, Option<EntityRelations>)>) -> Seq<Write>
    decreases pairs.len(),
{
    if pairs.len() == 0 {
        Seq::empty()
    } else {
        import_writes(pairs.drop_last()) + pair_writes(pairs.last())
    }
}

/// What the database holds once `writes` are made, one after the other.
pub open spec fn after_writes(entries: Entries, writes: Seq<Write>) -> Entries
    decreases writes.len(),
{
    if writes.len() == 0 {
        entries
    } else {
        after_writes(entries, writes.drop_last()).insert(writes.last().0, writes.last().1)
    }
}

/// What the database holds once the pairs of an export are brought in.
pub open spec fn after_import<T: Entity>(entries: Entries, pairs: Seq<(T, Option<EntityRelations>)>) -> Entries {
    after_writes(entries, import_writes(pairs))
}

/// No two of `writes` put different values into one slot.
pub open spec fn agreeing(writes: Seq<Write>) -> bool {
    forall|i: int, j: int|
        0 <= i < j < writes.len() && (#[trigger] writes[i]).0 == (#[trigger] writes[j]).0
            ==> writes[i].1 == writes[j].1
}

/// Writes made in two runs are the writes of one run.
pub proof fn lemma_writes_in_turn(entries: Entries, first: Seq<Write>, then: Seq<Write>)
    ensures
        after_writes(entries, first + then) == after_writes(after_writes(entries, first), then),
    decreases then.len(),
{
    if then.len() == 0 {
        assert(first + then =~= first);
    } else {
        lemma_writes_in_turn(entries, first, then.drop_last());
        assert((first + then).drop_last() =~= first + then.drop_last());
        assert((first + then).last() == then.last());
    }
}

/// What one write and what two writes leave.
proof fn lemma_few_writes(entries: Entries, one: Write, other: Write)
    ensures
        after_writes(entries, seq![one]) == entries.insert(one.0, one.1),
        after_writes(entries, seq![one, other]) == entries.insert(one.0, one.1).insert(
            other.0,
            other.1,
        ),
{
    let none = Seq::<Write>::empty();
    assert(after_writes(entries, none) == entries);
    assert(seq![one].drop_last() =~= none);
    assert(seq![one].last() == one);
    assert(after_writes(entries, seq![one]) == after_writes(entries, seq![one].drop_last()).insert(
        one.0,
        one.1,
    ));
    assert(seq![one, other].drop_last() =~= seq![one]);
    assert(seq![one, other].last() == other);
    assert(after_writes(entries, seq![one, other]) == after_writes(
        entries,
        seq![one, other].drop_last(),
    ).insert(other.0, other.1));
}

/// Where no two writes put different values into one slot, every slot
/// that was written holds what any of its writes put there.
pub proof fn lemma_written_is_read(entries: Entries, writes: Seq<Write>, i: int)
    requires
        agreeing(writes),
        0 <= i < writes.len(),
    ensures
        lookup(after_writes(entries, writes), writes[i].0.0, writes[i].0.1) == Some(writes[i].1),
    decreases writes.len(),
{
    let last = writes.len() - 1;
    if writes[last].0 != writes[i].0 {
        let before = writes.drop_last();
        assert forall|j: int, k: int|
            0 <= j < k < before.len() && (#[trigger] before[j]).0 == (#[trigger] before[k]).0
                implies before[j].1 == before[k].1 by {
            assert(before[j] == writes[j] && before[k] == writes[k]);
        }
        assert(before[i] == writes[i]);
        lemma_written_is_read(entries, before, i);
    }
}

/// The half that a carried link files under `a` is among the writes that
/// file the links of `a`.
proof fn lemma_link_is_written(a: Node, links: Seq<LinkView>, k: int)
    requires
        0 <= k < links.len(),
    ensures
        link_writes(a, links).contains(
            half_write(a, links[k].target, links[k].on_delete, links[k].target_on_delete),
        ),
    decreases links.len(),
{
    let half = half_write(a, links[k].target, links[k].on_delete, links[k].target_on_delete);
    let before = link_writes(a, links.drop_last());
    let now = restore_writes(a, links.last());
    if k == links.len() - 1 {
        assert(now[0] == half);
        assert((before + now)[before.len() as int] == half);
    } else {
        assert(links.drop_last()[k] == links[k]);
        lemma_link_is_written(a, links.drop_last(), k);
        let n = choose|n: int| 0 <= n < before.len() && before[n] == half;
        assert((before + now)[n] == half);
    }
}

/// The half that a carried link of the pair at position `i` files under
/// the record of that pair is among the writes of the import.
proof fn lemma_carried_is_written<T: Entity>(pairs: Seq<(T, Option<EntityRelations>)>, i: int, k: int)
    requires
        0 <= i < pairs.len(),
        0 <= k < carried(pairs[i].1).len(),
    ensures
        import_writes(pairs).contains(
            half_write(
                node_of::<T>(pairs[i].0.key().bytes()),
                carried(pairs[i].1)[k].target,
                carried(pairs[i].1)[k].on_delete,
                carried(pairs[i].1)[k].target_on_delete,
            ),
        ),
    decreases pairs.len(),
{
    let a = node_of::<T>(pairs[i].0.key().bytes());
    let links = carried(pairs[i].1);
    let half = half_write(a, links[k].target, links[k].on_delete, links[k].target_on_delete);
    let before = import_writes(pairs.drop_last());
    let now = pair_writes(pairs.last());
    if i == pairs.len() - 1 {
        lemma_link_is_written(a, links, k);
        let filed = link_writes(a, links);
        let n = choose|n: int| 0 <= n < filed.len() && filed[n] == half;
        assert(now[n + 1] == half);
        assert((before + now)[before.len() + n + 1] == half);
    } else {
        assert(pairs.drop_last()[i] == pairs[i]);
        lemma_carried_is_written(pairs.drop_last(), i, k);
        let n = choose|n: int| 0 <= n < before.len() && before[n] == half;
        assert((before + now)[n] == half);
    }
}

/// An import whose writes agree leaves every carried link as it was
/// carried: the half filed under the record holds the carried policies,
/// the record's own first.
pub proof fn law_import_files_links_as_carried<T: Entity>(
    entries: Entries,
    pairs: Seq<(T, Option<EntityRelations>)>,
    i: int,
    k: int,
)
    requires
        agreeing(import_writes(pairs)),
        0 <= i < pairs.len(),
        0 <= k < carried(pairs[i].1).len(),
    ensures
        lookup(
            after_import(entries, pairs),
            relations_tree(),
            link_key(node_of::<T>(pairs[i].0.key().bytes()), carried(pairs[i].1)[k].target),
        ) == Some(
            link_value(carried(pairs[i].1)[k].on_delete, carried(pairs[i].1)[k].target_on_delete),
        ),
{
    let writes = import_writes(pairs);
    let link = carried(pairs[i].1)[k];
    let half = half_write(
        node_of::<T>(pairs[i].0.key().bytes()),
        link.target,
        link.on_delete,
        link.target_on_delete,
    );
    lemma_carried_is_written(pairs, i, k);
    let n = choose|n: int| 0 <= n < writes.len() && writes[n] == half;
    lemma_written_is_read(entries, writes, n);
}

/// Every half in `entries` that can be read and joins two different
/// records holds the two policies that its mirror holds, in the other
/// order. The half of a link of a record to itself is its own mirror and
/// may hold any two policies.
pub open spec fn mirrored(entries: Entries) -> bool {
    forall|key: Seq<u8>|
        #[trigger] entries.contains_key((relations_tree(), key)) && sound_half(
            entries,
            key,
            entries[(relations_tree(), key)],
        ) && link_source(key) != link_target(key) ==> parse_link_value(
            entries[(relations_tree(), mirror_key(key))],
        ) == Some(
            (
                policies_in(entries[(relations_tree(), key)]).1,
                policies_in(entries[(relations_tree(), key)]).0,
            ),
        )
}

/// The two policies that the value of a half holds.
pub open spec fn policies_in(value: Seq<u8>) -> (DeletionBehaviour, DeletionBehaviour) {
    parse_link_value(value)->0
}

/// `write` puts into a slot of the links tree what `entries` holds there.
pub open spec fn copies(entries: Entries, write: Write) -> bool {
    write.0.0 == relations_tree() && lookup(entries, write.0.0, write.0.1) == Some(write.1)
}

/// `write` saves the record of one of `pairs`.
pub open spec fn saves_one<T: Entity>(pairs: Seq<(T, Option<EntityRelations>)>, write: Write) -> bool {
    exists|i: int|
        0 <= i < pairs.len() && write == (
            node_of::<T>((#[trigger] pairs[i]).0.key().bytes()),
            pairs[i].0.encoded(),
        )
}

/// A value that holds two policies is the value of a half with these
/// policies.
proof fn lemma_value_is_its_policies(value: Seq<u8>)
    requires
        parse_link_value(value) is Some,
    ensures
        value == link_value(policies_in(value).0, policies_in(value).1),
{
    let policies = parse_link_value(value)->0;
    assert(value =~= link_value(policies.0, policies.1));
}

/// Filing a link again as it was read from a half of `entries` writes
/// what `entries` holds.
proof fn lemma_restore_copies(entries: Entries, a: Node, key: Seq<u8>, value: Seq<u8>, n: int)
    requires
        representable(a),
        mirrored(entries),
        has_prefix(key, node_prefix(a)),
        sound_half(entries, key, value),
        lookup(entries, relations_tree(), key) == Some(value),
        0 <= n < restore_writes(a, link_of(key, value)).len(),
    ensures
        copies(entries, restore_writes(a, link_of(key, value))[n]),
{
    let link = link_of(key, value);
    lemma_prefix_names_source(a, key);
    lemma_link_key_rebuild(key);
    lemma_value_is_its_policies(value);
    assert(key == link_key(a, link.target));
    assert(mirror_key(key) == link_key(link.target, a));
    assert(entries.contains_key((relations_tree(), key)));
    assert(entries[(relations_tree(), key)] == value);
    if n == 1 {
        let back = entries[(relations_tree(), mirror_key(key))];
        lemma_value_is_its_policies(back);
    }
}

/// Filing the links of a record again as they were read from `entries`
/// writes what `entries` holds.
proof fn lemma_link_writes_copy(
    entries: Entries,
    a: Node,
    raw: Seq<Pair>,
    links: Seq<LinkView>,
    upto: int,
    n: int,
)
    requires
        representable(a),
        mirrored(entries),
        is_scan(raw, entries, relations_tree(), Span::Prefix(node_prefix(a))),
        reads_as(entries, raw, links),
        0 <= upto <= links.len(),
        0 <= n < link_writes(a, links.take(upto)).len(),
    ensures
        copies(entries, link_writes(a, links.take(upto))[n]),
    decreases upto,
{
    let shown = links.take(upto);
    if upto > 0 {
        assert(shown.drop_last() =~= links.take(upto - 1));
        assert(shown.last() == links[upto - 1]);
        let before = link_writes(a, links.take(upto - 1));
        if n < before.len() {
            lemma_link_writes_copy(entries, a, raw, links, upto - 1, n);
        } else {
            let half = raw[upto - 1];
            assert(Span::Prefix(node_prefix(a)).holds(half.0));
            lemma_restore_copies(entries, a, half.0, half.1, n - before.len());
        }
    }
}

/// Every write of the import of an export of `entries` saves one of the
/// exported records or writes into the links tree what `entries` holds
/// there.
proof fn lemma_import_writes_kinds<T: Entity>(
    entries: Entries,
    records: Seq<T>,
    pairs: Seq<(T, Option<EntityRelations>)>,
    upto: int,
    n: int,
)
    requires
        exports(entries, records, pairs),
        mirrored(entries),
        forall|i: int|
            0 <= i < records.len() ==> representable(
                node_of::<T>((#[trigger] records[i]).key().bytes()),
            ),
        0 <= upto <= pairs.len(),
        0 <= n < import_writes(pairs.take(upto)).len(),
    ensures
        saves_one(pairs, import_writes(pairs.take(upto))[n]) || copies(
            entries,
            import_writes(pairs.take(upto))[n],
        ),
    decreases upto,
{
    let shown = pairs.take(upto);
    if upto > 0 {
        assert(shown.drop_last() =~= pairs.take(upto - 1));
        assert(shown.last() == pairs[upto - 1]);
        let before = import_writes(pairs.take(upto - 1));
        if n < before.len() {
            lemma_import_writes_kinds(entries, records, pairs, upto - 1, n);
        } else {
            let pair = pairs[upto - 1];
            let a = node_of::<T>(pair.0.key().bytes());
            let links = carried(pair.1);
            let m = n - before.len();
            assert(pair.0 == records[upto - 1]);
            if m == 0 {
                assert(saves_one(pairs, import_writes(shown)[n]));
            } else {
                let raw = choose|raw: Seq<Pair>|
                    {
                        &&& is_scan(raw, entries, relations_tree(), Span::Prefix(node_prefix(a)))
                        &&& #[trigger] reads_as(entries, raw, links)
                    };
                assert(links.take(links.len() as int) =~= links);
                lemma_link_writes_copy(entries, a, raw, links, links.len() as int, m - 1);
            }
        }
    }
}

/// An export comes back as it was: where every half of the exported
/// database that joins two different records holds the policies of its
/// mirror in the other order, and the exported records are not kept in
/// the links tree, the writes of the import agree, and after the import
/// every exported record is stored as it is and every half filed under
/// it holds what it held in the exported database. This includes the
/// half of a record that is linked to itself.
pub proof fn law_export_comes_back<T: Entity>(
    entries: Entries,
    into: Entries,
    records: Seq<T>,
    pairs: Seq<(T, Option<EntityRelations>)>,
)
    requires
        exports(entries, records, pairs),
        mirrored(entries),
        tree_of::<T>() != relations_tree(),
        forall|i: int|
            0 <= i < records.len() ==> representable(
                node_of::<T>((#[trigger] records[i]).key().bytes()),
            ),
        forall|i: int, j: int|
            0 <= i < records.len() && 0 <= j < records.len() && (#[trigger] records[i]).key().bytes()
                == (#[trigger] records[j]).key().bytes() ==> records[i].encoded()
                == records[j].encoded(),
    ensures
        agreeing(import_writes(pairs)),
        forall|i: int|
            0 <= i < pairs.len() ==> lookup(
                after_import(into, pairs),
                tree_of::<T>(),
                (#[trigger] pairs[i]).0.key().bytes(),
            ) == Some(pairs[i].0.encoded()),
        forall|i: int, k: int|
            0 <= i < pairs.len() && 0 <= k < carried(pairs[i].1).len() ==> lookup(
                after_import(into, pairs),
                relations_tree(),
                link_key(
                    node_of::<T>(pairs[i].0.key().bytes()),
                    (#[trigger] carried(pairs[i].1)[k]).target,
                ),
            ) == lookup(
                entries,
                relations_tree(),
                link_key(node_of::<T>(pairs[i].0.key().bytes()), carried(pairs[i].1)[k].target),
            ),
{
    let writes = import_writes(pairs);
    assert(pairs.take(pairs.len() as int) =~= pairs);
    assert forall|i: int, j: int|
        0 <= i < j < writes.len() && (#[trigger] writes[i]).0 == (#[trigger] writes[j]).0
            implies writes[i].1 == writes[j].1 by {
        lemma_import_writes_kinds(entries, records, pairs, pairs.len() as int, i);
        lemma_import_writes_kinds(entries, records, pairs, pairs.len() as int, j);
        if saves_one(pairs, writes[i]) && saves_one(pairs, writes[j]) {
            let x = choose|x: int|
                0 <= x < pairs.len() && writes[i] == (
                    node_of::<T>((#[trigger] pairs[x]).0.key().bytes()),
                    pairs[x].0.encoded(),
                );
            let y = choose|y: int|
                0 <= y < pairs.len() && writes[j] == (
                    node_of::<T>((#[trigger] pairs[y]).0.key().bytes()),
                    pairs[y].0.encoded(),
                );
            assert(pairs[x].0 == records[x] && pairs[y].0 == records[y]);
        }
    }
    assert forall|i: int| 0 <= i < pairs.len() implies lookup(
        after_import(into, pairs),
        tree_of::<T>(),
        (#[trigger] pairs[i]).0.key().bytes(),
    ) == Some(pairs[i].0.encoded()) by {
        lemma_record_is_written(pairs, i);
        let write = (node_of::<T>(pairs[i].0.key().bytes()), pairs[i].0.encoded());
        let n = choose|n: int| 0 <= n < writes.len() && writes[n] == write;
        lemma_written_is_read(into, writes, n);
    }
    assert forall|i: int, k: int|
        0 <= i < pairs.len() && 0 <= k < carried(pairs[i].1).len() implies lookup(
        after_import(into, pairs),
        relations_tree(),
        link_key(
            node_of::<T>(pairs[i].0.key().bytes()),
            (#[trigger] carried(pairs[i].1)[k]).target,
        ),
    ) == lookup(
        entries,
        relations_tree(),
        link_key(node_of::<T>(pairs[i].0.key().bytes()), carried(pairs[i].1)[k].target),
    ) by {
        let link = carried(pairs[i].1)[k];
        let half = half_write(
            node_of::<T>(pairs[i].0.key().bytes()),
            link.target,
            link.on_delete,
            link.target_on_delete,
        );
        lemma_carried_is_written(pairs, i, k);
        let n = choose|n: int| 0 <= n < writes.len() && writes[n] == half;
        lemma_import_writes_kinds(entries, records, pairs, pairs.len() as int, n);
        lemma_written_is_read(into, writes, n);
    }
}

/// The write that saves the record of the pair at position `i` is among
/// the writes of the import.
proof fn lemma_record_is_written<T: Entity>(pairs: Seq<(T, Option<EntityRelations>)>, i: int)
    requires
        0 <= i < pairs.len(),
    ensures
        import_writes(pairs).contains(
            (node_of::<T>(pairs[i].0.key().bytes()), pairs[i].0.encoded()),
        ),
    decreases pairs.len(),
{
    let write = (node_of::<T>(pairs[i].0.key().bytes()), pairs[i].0.encoded());
    let before = import_writes(pairs.drop_last());
    let now = pair_writes(pairs.last());
    if i == pairs.len() - 1 {
        assert(now[0] == write);
        assert((before + now)[before.len() as int] == write);
    } else {
        assert(pairs.drop_last()[i] == pairs[i]);
        lemma_record_is_written(pairs.drop_last(), i);
        let n = choose|n: int| 0 <= n < before.len() && before[n] == write;
        assert((before + now)[n] == write);
    }
}

/// Filing a carried link again leaves the half under the record as it
/// was carried, whether the other end is the record itself or another.
pub proof fn law_restored_half_is_as_carried(entries: Entries, a: Node, link: LinkView)
    requires
        representable(a),
        representable(link.target),
    ensures
        lookup(
            after_writes(entries, restore_writes(a, link)),
            relations_tree(),
            link_key(a, link.target),
        ) == Some(link_value(link.on_delete, link.target_on_delete)),
        link.target != a ==> lookup(
            after_writes(entries, restore_writes(a, link)),
            relations_tree(),
            link_key(link.target, a),
        ) == Some(link_value(link.target_on_delete, link.on_delete)),
{
    lemma_few_writes(
        entries,
        half_write(a, link.target, link.on_delete, link.target_on_delete),
        half_write(link.target, a, link.target_on_delete, link.on_delete),
    );
    lemma_link_key_parts(a, link.target);
    lemma_link_key_parts(link.target, a);
}

/// Files the carried link `link` under `a` again: writes the half under
/// `a` with the carried policies, and then, where the other end is
/// another record, the half under that record with the policies in the
/// other order.
pub fn restore(db: &mut sled::Db, a: &RecordId, link: &Link) -> (r: Result<()>)
    ensures
        match r {
            Ok(_) => db_entries(*final(db)) == after_writes(
                db_entries(*old(db)),
                restore_writes(a@, link@),
            ),
            Err(e) => e.kind == ErrorKind::IoError,
        },
{
    let tree = relations_tree_name();
    let forth = link_key_bytes(a, &link.target);
    proof {
        lemma_few_writes(
            db_entries(*db),
            half_write(a@, link@.target, link.on_delete, link.target_on_delete),
            half_write(link@.target, a@, link.target_on_delete, link.on_delete),
        );
    }
    match put_raw(
        db,
        tree.as_slice(),
        forth.as_slice(),
        link_value_bytes(link.on_delete, link.target_on_delete),
    ) {
        Ok(_) => {},
        Err(e) => {
            return Err(e);
        },
    }
    if a.same(&link.target) {
        return Ok(());
    }
    let back = link_key_bytes(&link.target, a);
    put_raw(
        db,
        tree.as_slice(),
        back.as_slice(),
        link_value_bytes(link.target_on_delete, link.on_delete),
    )
}

/// Files the carried links `links` under `a` again, one link after the
/// other. With no link to file the operation succeeds and changes
/// nothing. The first write that fails ends the operation.
pub fn link_all(a: &RecordId, links: &Vec<Link>, db: &mut sled::Db) -> (r: Result<()>)
    ensures
        match r {
            Ok(_) => db_entries(*final(db)) == after_writes(
                db_entries(*old(db)),
                link_writes(a@, links_view(links@)),
            ),
            Err(e) => e.kind == ErrorKind::IoError && links@.len() > 0,
        },
{
    let ghost before = db_entries(*db);
    let ghost all = links_view(links@);
    let mut i: usize = 0;
    while i < links.len()
        invariant
            i <= links@.len(),
            all == links_view(links@),
            db_entries(*db) == after_writes(before, link_writes(a@, all.take(i as int))),
        decreases links@.len() - i,
    {
        assert(all[i as int] == links@[i as int]@);
        match restore(db, a, &links[i]) {
            Ok(_) => {},
            Err(e) => {
                return Err(e);
            },
        }
        proof {
            assert(all.take(i + 1).drop_last() =~= all.take(i as int));
            assert(all.take(i + 1).last() == all[i as int]);
            lemma_writes_in_turn(
                before,
                link_writes(a@, all.take(i as int)),
                restore_writes(a@, all[i as int]),
            );
        }
        i += 1;
    }
    proof {
        assert(all.take(i as int) =~= all);
    }
    Ok(())
}

/// The relations that stand beside an exported record: the links filed
/// under it, or nothing where it has no link.
pub fn relations_beside(links: Vec<Link>) -> (r: Option<EntityRelations>)
    ensures
        carried(r) == links_view(links@),
        r is Some <==> links@.len() > 0,
        r matches Some(relations) ==> relations.related_entities == links,
{
    if links.len() > 0 {
        Some(EntityRelations { related_entities: links })
    } else {
        assert(links_view(links@) =~= Seq::<LinkView>::empty());
        None
    }
}

impl<T: Entity> JsonWrapper<T> {
    /// The export of `source_vec`: each record with the links filed under
    /// it in `db`.
    pub fn from(source_vec: Vec<T>, db: &sled::Db) -> (r: Result<Self>)
        ensures
            match r {
                Ok(wrapper) => exports(db_entries(*db), source_vec@, wrapper.0@),
                Err(e) => source_vec@.len() > 0 && (e.kind == ErrorKind::IoError || (e.kind
                    == ErrorKind::IntegrityError && exists|i: int|
                    0 <= i < source_vec@.len() && #[trigger] unsound_under(
                        db_entries(*db),
                        node_prefix(node_of::<T>(source_vec@[i].key().bytes())),
                    ))),
            },
    {
        let ghost entries = db_entries(*db);
        let ghost whole = source_vec@;
        let mut pairs: Vec<(T, Option<EntityRelations>)> = Vec::new();
        for source in it: source_vec
            invariant
                it.seq() == whole,
                entries == db_entries(*db),
                exports(entries, whole.take(it.index() as int), pairs@),
        {
            let ghost done = pairs@;
            let id = identity(&source);
            let links = match links_of(db, &id) {
                Ok(links) => links,
                Err(e) => {
                    assert(whole[it.index() as int] == source);
                    return Err(e);
                },
            };
            proof {
                assert(links_from(entries, id@, links_view(links@)));
            }
            let relations = relations_beside(links);
            pairs.push((source, relations));
            proof {
                let shown = whole.take(it.index() + 1);
                assert forall|i: int| 0 <= i < pairs@.len() implies {
                    &&& (#[trigger] pairs@[i]).0 == shown[i]
                    &&& links_from(
                        entries,
                        node_of::<T>(shown[i].key().bytes()),
                        carried(pairs@[i].1),
                    )
                    &&& (pairs@[i].1 is Some <==> carried(pairs@[i].1).len() > 0)
                } by {
                    if i < it.index() {
                        assert(pairs@[i] == done[i]);
                        assert(shown[i] == whole.take(it.index() as int)[i]);
                    }
                }
            }
        }
        proof {
            assert(whole.take(whole.len() as int) =~= whole);
        }
        Ok(JsonWrapper(pairs))
    }

    /// Brings the export into `db`: saves each record, then files the
    /// links beside it as they were carried. An empty export succeeds and
    /// changes nothing. The first write that fails ends the operation;
    /// what was written before stays written.
    pub fn save(self, db: &mut sled::Db) -> (r: Result<()>)
        ensures
            match r {
                Ok(_) => {
                    &&& db_entries(*final(db)) == after_import(db_entries(*old(db)), self.0@)
                    &&& agreeing(import_writes(self.0@)) ==> forall|i: int, k: int|
                        0 <= i < self.0@.len() && 0 <= k < carried(self.0@[i].1).len() ==> lookup(
                            db_entries(*final(db)),
                            relations_tree(),
                            link_key(
                                node_of::<T>(self.0@[i].0.key().bytes()),
                                (#[trigger] carried(self.0@[i].1)[k]).target,
                            ),
                        ) == Some(
                            link_value(
                                carried(self.0@[i].1)[k].on_delete,
                                carried(self.0@[i].1)[k].target_on_delete,
                            ),
                        )
                },
                Err(e) => e.kind == ErrorKind::IoError && self.0@.len() > 0,
            },
    {
        let ghost before = db_entries(*db);
        let ghost whole = self.0@;
        for pair in it: self.0
            invariant
                it.seq() == whole,
                whole == self.0@,
                db_entries(*db) == after_import(before, whole.take(it.index() as int)),
        {
            let (entity, relations) = pair;
            assert(whole[it.index() as int] == (entity, relations));
            let id = identity(&entity);
            let ghost start = db_entries(*db);
            match put_raw(db, id.store.as_slice(), id.key.as_slice(), entity.to_bytes()) {
                Ok(_) => {},
                Err(e) => {
                    return Err(e);
                },
            }
            let ghost saved = db_entries(*db);
            match relations {
                Some(relations) => {
                    match link_all(&id, &relations.related_entities, db) {
                        Ok(_) => {},
                        Err(e) => {
                            return Err(e);
                        },
                    }
                },
                None => {},
            }
            proof {
                let shown = whole.take(it.index() + 1);
                assert(shown.drop_last() =~= whole.take(it.index() as int));
                assert(shown.last() == whole[it.index() as int]);
                let write = (id@, entity.encoded());
                let filed = link_writes(id@, carried(relations));
                lemma_few_writes(start, write, write);
                assert(saved == after_writes(start, seq![write]));
                assert(db_entries(*db) == after_writes(saved, filed));
                lemma_writes_in_turn(start, seq![write], filed);
                lemma_writes_in_turn(
                    before,
                    import_writes(whole.take(it.index() as int)),
                    pair_writes(shown.last()),
                );
            }
        }
        proof {
            assert(whole.take(whole.len() as int) =~= whole);
            let after = db_entries(*db);
            if agreeing(import_writes(whole)) {
                assert forall|i: int, k: int|
                    0 <= i < whole.len() && 0 <= k < carried(whole[i].1).len() implies lookup(
                    after,
                    relations_tree(),
                    link_key(
                        node_of::<T>(whole[i].0.key().bytes()),
                        (#[trigger] carried(whole[i].1)[k]).target,
                    ),
                ) == Some(
                    link_value(
                        carried(whole[i].1)[k].on_delete,
                        carried(whole[i].1)[k].target_on_delete,
                    ),
                ) by {
                    law_import_files_links_as_carried(before, whole, i, k);
                }
            }
        }
        Ok(())
    }
}

} // verus!
