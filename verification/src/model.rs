//! The mathematical model of a database: one flat map from
//! `(tree name, key)` to value, and the vocabulary in which the contracts
//! of this crate speak about it.

use vstd::prelude::*;
use crate::keys::{has_prefix, lex_le, lex_lt};

verus! {

/// What a database holds: the value stored under each key of each tree.
pub type Entries = Map<(Seq<u8>, Seq<u8>), Seq<u8>>;

/// A stored key together with its value.
pub type Pair = (Seq<u8>, Seq<u8>);

/// The value stored under `key` in `tree`, if any.
pub open spec fn lookup(entries: Entries, tree: Seq<u8>, key: Seq<u8>) -> Option<Seq<u8>> {
    if entries.contains_key((tree, key)) {
        Some(entries[(tree, key)])
    } else {
        None
    }
}

/// The view of an optional byte vector.
pub open spec fn opt_view(value: Option<Vec<u8>>) -> Option<Seq<u8>> {
    match value {
        Some(v) => Some(v@),
        None => None,
    }
}

/// The view of an optional byte slice.
pub open spec fn slice_view(value: Option<&[u8]>) -> Option<Seq<u8>> {
    match value {
        Some(v) => Some(v@),
        None => None,
    }
}

/// The views of a list of key/value pairs.
pub open spec fn pairs_view(items: Seq<(Vec<u8>, Vec<u8>)>) -> Seq<Pair> {
    Seq::new(items.len(), |i: int| (items[i].0@, items[i].1@))
}

/// Which keys a scan asks for.
pub enum Span {
    /// Every key of the tree.
    All,
    /// The keys that begin with the given bytes.
    Prefix(Seq<u8>),
    /// The keys `k` with `lo <= k < hi`.
    Range(Seq<u8>, Seq<u8>),
}

impl Span {
    /// Whether `key` lies in the span.
    pub open spec fn holds(self, key: Seq<u8>) -> bool {
        match self {
            Span::All => true,
            Span::Prefix(prefix) => has_prefix(key, prefix),
            Span::Range(lo, hi) => lex_le(lo, key) && lex_lt(key, hi),
        }
    }
}

/// The keys of `items` ascend strictly.
pub open spec fn ascending(items: Seq<Pair>) -> bool {
    forall|i: int, j: int| 0 <= i < j < items.len() ==> lex_lt(#[trigger] items[i].0, #[trigger] items[j].0)
}

/// `items` lists, in ascending key order and without omission, the
/// entries of `tree` whose keys lie in `span`.
pub open spec fn is_scan(items: Seq<Pair>, entries: Entries, tree: Seq<u8>, span: Span) -> bool {
    &&& ascending(items)
    &&& forall|i: int|
        0 <= i < items.len() ==> {
            &&& span.holds(#[trigger] items[i].0)
            &&& lookup(entries, tree, items[i].0) == Some(items[i].1)
        }
    &&& forall|key: Seq<u8>|
        #[trigger] entries.contains_key((tree, key)) && span.holds(key) ==> exists|i: int|
            0 <= i < items.len() && #[trigger] items[i].0 == key
}

/// The keys present in `tree`.
pub open spec fn tree_keys(entries: Entries, tree: Seq<u8>) -> Set<Seq<u8>> {
    Set::new(|key: Seq<u8>| entries.contains_key((tree, key)))
}

/// `tree` holds no entry.
pub open spec fn tree_is_empty(entries: Entries, tree: Seq<u8>) -> bool {
    forall|key: Seq<u8>| !#[trigger] entries.contains_key((tree, key))
}

/// `key` is the greatest key present in `tree`.
pub open spec fn is_last_key(entries: Entries, tree: Seq<u8>, key: Seq<u8>) -> bool {
    &&& entries.contains_key((tree, key))
    &&& forall|other: Seq<u8>| #[trigger] entries.contains_key((tree, other)) ==> lex_le(other, key)
}

/// The keys of a list of entries.
pub open spec fn keys_of(items: Seq<Pair>) -> Seq<Seq<u8>> {
    Seq::new(items.len(), |i: int| items[i].0)
}

/// A scan of a whole tree has as many entries as the tree has keys.
pub proof fn lemma_scan_counts(items: Seq<Pair>, entries: Entries, tree: Seq<u8>)
    requires
        is_scan(items, entries, tree, Span::All),
    ensures
        tree_keys(entries, tree).finite(),
        tree_keys(entries, tree).len() == items.len(),
{
    let keys = keys_of(items);
    assert forall|i: int, j: int| 0 <= i < keys.len() && 0 <= j < keys.len() && i != j implies keys[i]
        != keys[j] by {
        if i < j {
            assert(lex_lt(items[i].0, items[j].0));
        } else {
            assert(lex_lt(items[j].0, items[i].0));
        }
        crate::keys::lemma_lex_lt_irreflexive(keys[i]);
    }
    assert(keys.no_duplicates());
    assert forall|key: Seq<u8>| keys.to_set().contains(key) <==> tree_keys(entries, tree).contains(
        key,
    ) by {
        if keys.to_set().contains(key) {
            let i = choose|i: int| 0 <= i < keys.len() && keys[i] == key;
            assert(lookup(entries, tree, items[i].0) == Some(items[i].1));
        }
        if tree_keys(entries, tree).contains(key) {
            assert(entries.contains_key((tree, key)));
            assert(Span::All.holds(key));
            let i = choose|i: int| 0 <= i < items.len() && #[trigger] items[i].0 == key;
            assert(keys[i] == key);
        }
    }
    assert(keys.to_set() =~= tree_keys(entries, tree));
    keys.unique_seq_to_set();
}

/// Two ascending lists that hold the same keys, with the same value for
/// each key, are the same list.
#[verifier::rlimit(40)]
pub proof fn lemma_ascending_unique(a: Seq<Pair>, b: Seq<Pair>)
    requires
        ascending(a),
        ascending(b),
        forall|i: int| 0 <= i < a.len() ==> b.contains(#[trigger] a[i]),
        forall|j: int| 0 <= j < b.len() ==> a.contains(#[trigger] b[j]),
    ensures
        a == b,
    decreases a.len(),
{
    if a.len() == 0 {
        if b.len() > 0 {
            assert(a.contains(b[0]));
        }
        assert(a =~= b);
    } else {
        assert(b.contains(a[0]));
        let j = choose|j: int| 0 <= j < b.len() && b[j] == a[0];
        if j > 0 {
            assert(a.contains(b[0]));
            let i = choose|i: int| 0 <= i < a.len() && a[i] == b[0];
            assert(lex_lt(b[0].0, b[j].0));
            if i == 0 {
                crate::keys::lemma_lex_lt_irreflexive(a[0].0);
            } else {
                assert(lex_lt(a[0].0, a[i].0));
                crate::keys::lemma_lex_lt_asymmetric(a[0].0, a[i].0);
            }
        }
        assert(b[0] == a[0]);
        let a1 = a.skip(1);
        let b1 = b.skip(1);
        assert forall|i: int, k: int| 0 <= i < k < a1.len() implies lex_lt(
            #[trigger] a1[i].0,
            #[trigger] a1[k].0,
        ) by {
            assert(lex_lt(a[i + 1].0, a[k + 1].0));
        }
        assert forall|i: int, k: int| 0 <= i < k < b1.len() implies lex_lt(
            #[trigger] b1[i].0,
            #[trigger] b1[k].0,
        ) by {
            assert(lex_lt(b[i + 1].0, b[k + 1].0));
        }
        assert forall|i: int| 0 <= i < a1.len() implies b1.contains(#[trigger] a1[i]) by {
            assert(b.contains(a[i + 1]));
            let j = choose|j: int| 0 <= j < b.len() && b[j] == a[i + 1];
            if j == 0 {
                assert(lex_lt(a[0].0, a[i + 1].0));
                crate::keys::lemma_lex_lt_irreflexive(a[0].0);
            }
            assert(b1[j - 1] == a1[i]);
        }
        assert forall|j: int| 0 <= j < b1.len() implies a1.contains(#[trigger] b1[j]) by {
            assert(a.contains(b[j + 1]));
            let i = choose|i: int| 0 <= i < a.len() && a[i] == b[j + 1];
            if i == 0 {
                assert(lex_lt(b[0].0, b[j + 1].0));
                crate::keys::lemma_lex_lt_irreflexive(b[0].0);
            }
            assert(a1[i - 1] == b1[j]);
        }
        lemma_ascending_unique(a1, b1);
        assert(a =~= seq![a[0]] + a1);
        assert(b =~= seq![b[0]] + b1);
    }
}

/// A scan has one result only.
#[verifier::rlimit(40)]
pub proof fn law_scan_is_unique(a: Seq<Pair>, b: Seq<Pair>, entries: Entries, tree: Seq<u8>, span: Span)
    requires
        is_scan(a, entries, tree, span),
        is_scan(b, entries, tree, span),
    ensures
        a == b,
{
    assert forall|i: int| 0 <= i < a.len() implies b.contains(#[trigger] a[i]) by {
        assert(lookup(entries, tree, a[i].0) == Some(a[i].1));
        assert(entries.contains_key((tree, a[i].0)) && span.holds(a[i].0));
        let j = choose|j: int| 0 <= j < b.len() && #[trigger] b[j].0 == a[i].0;
        assert(lookup(entries, tree, b[j].0) == Some(b[j].1));
        assert(b[j] == a[i]);
    }
    assert forall|j: int| 0 <= j < b.len() implies a.contains(#[trigger] b[j]) by {
        assert(lookup(entries, tree, b[j].0) == Some(b[j].1));
        assert(entries.contains_key((tree, b[j].0)) && span.holds(b[j].0));
        let i = choose|i: int| 0 <= i < a.len() && #[trigger] a[i].0 == b[j].0;
        assert(lookup(entries, tree, a[i].0) == Some(a[i].1));
        assert(a[i] == b[j]);
    }
    lemma_ascending_unique(a, b);
}

/// The scan of `tree` over `span`: the entries of `tree` whose keys lie
/// in `span`, in ascending key order.
pub open spec fn the_scan(entries: Entries, tree: Seq<u8>, span: Span) -> Seq<Pair> {
    choose|items: Seq<Pair>| is_scan(items, entries, tree, span)
}

/// What is a scan is the scan.
pub proof fn lemma_is_the_scan(items: Seq<Pair>, entries: Entries, tree: Seq<u8>, span: Span)
    requires
        is_scan(items, entries, tree, span),
    ensures
        the_scan(entries, tree, span) == items,
{
    law_scan_is_unique(the_scan(entries, tree, span), items, entries, tree, span);
}

} // verus!
