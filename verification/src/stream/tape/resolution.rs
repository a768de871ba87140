//! Resolving aliases in a tree.

use vstd::prelude::*;

use crate::event::{Event, EventKind};
use crate::stream::value::tree::Tree;

verus! {

/// The trees that the complete anchors stand for, their own aliases resolved.
pub type Anchored<'a> = Map<Seq<char>, Tree<'a>>;

/// The anchors once a tree that starts with this event is complete. A repeated name
/// replaces the earlier definition.
pub open spec fn defined<'a>(
    anchored: Anchored<'a>,
    event: Event<'a>,
    tree: Tree<'a>,
) -> Anchored<'a> {
    match event.kind {
        EventKind::Scalar { anchor: Some(name), .. } => anchored.insert(name@, tree),
        EventKind::SequenceStart { anchor: Some(name), .. } => anchored.insert(name@, tree),
        EventKind::MappingStart { anchor: Some(name), .. } => anchored.insert(name@, tree),
        _ => anchored,
    }
}

/// A tree with every alias replaced by a copy of the tree that its anchor stands for,
/// and the anchors once the tree is complete. None if an alias is undefined where it
/// stands, or if the tree does not group events as they nest.
pub open spec fn resolved<'a>(tree: Tree<'a>, anchored: Anchored<'a>) -> Option<
    (Tree<'a>, Anchored<'a>),
>
    decreases tree,
{
    match tree {
        Tree::Leaf(event) => match event.kind {
            EventKind::Alias { name } => if anchored.contains_key(name@) {
                Some((anchored[name@], anchored))
            } else {
                None
            },
            EventKind::Scalar { .. } => Some((tree, defined(anchored, event, tree))),
            _ => None,
        },
        Tree::List { start, items, end } => if start.kind is SequenceStart
            && end.kind is SequenceEnd {
            match resolved_items(items, anchored) {
                Some((inner, within)) => {
                    let whole = Tree::List { start, items: inner, end };
                    Some((whole, defined(within, start, whole)))
                },
                None => None,
            }
        } else {
            None
        },
        Tree::Table { opens, entries, closes } => if opens.kind is MappingStart
            && closes.kind is MappingEnd {
            match resolved_entries(entries, anchored) {
                Some((inner, within)) => {
                    let whole = Tree::Table { opens, entries: inner, closes };
                    Some((whole, defined(within, opens, whole)))
                },
                None => None,
            }
        } else {
            None
        },
    }
}

/// Items with every alias resolved, in order.
pub open spec fn resolved_items<'a>(items: Seq<Tree<'a>>, anchored: Anchored<'a>) -> Option<
    (Seq<Tree<'a>>, Anchored<'a>),
>
    decreases items,
{
    if items.len() == 0 {
        Some((Seq::empty(), anchored))
    } else {
        match resolved(items[0], anchored) {
            None => None,
            Some((first, next)) => match resolved_items(items.drop_first(), next) {
                None => None,
                Some((more, after)) => Some((seq![first] + more, after)),
            },
        }
    }
}

/// Entries with every alias resolved, in order.
pub open spec fn resolved_entries<'a>(
    entries: Seq<(Tree<'a>, Tree<'a>)>,
    anchored: Anchored<'a>,
) -> Option<(Seq<(Tree<'a>, Tree<'a>)>, Anchored<'a>)>
    decreases entries,
{
    if entries.len() == 0 {
        Some((Seq::empty(), anchored))
    } else {
        match resolved(entries[0].0, anchored) {
            None => None,
            Some((key, next)) => match resolved(entries[0].1, next) {
                None => None,
                Some((value, later)) => match resolved_entries(entries.drop_first(), later) {
                    None => None,
                    Some((more, after)) => Some((seq![(key, value)] + more, after)),
                },
            },
        }
    }
}

/// A document's value with every alias resolved.
pub open spec fn resolved_whole<'a>(tree: Tree<'a>) -> Option<Tree<'a>> {
    match resolved(tree, Map::empty()) {
        Some((whole, _)) => Some(whole),
        None => None,
    }
}

/// Whether a tree groups events as they nest: scalars and aliases at its leaves, and
/// matching starts and ends around its collections.
pub open spec fn grouped<'a>(tree: Tree<'a>) -> bool
    decreases tree,
{
    match tree {
        Tree::Leaf(event) => event.kind is Scalar || event.kind is Alias,
        Tree::List { start, items, end } => {
            &&& start.kind is SequenceStart
            &&& end.kind is SequenceEnd
            &&& all_grouped(items)
        },
        Tree::Table { opens, entries, closes } => {
            &&& opens.kind is MappingStart
            &&& closes.kind is MappingEnd
            &&& all_entries_grouped(entries)
        },
    }
}

/// Whether every one of these trees groups events as they nest.
pub open spec fn all_grouped<'a>(items: Seq<Tree<'a>>) -> bool
    decreases items,
{
    items.len() > 0 ==> grouped(items[0]) && all_grouped(items.drop_first())
}

/// Whether every one of these entries groups events as they nest.
pub open spec fn all_entries_grouped<'a>(entries: Seq<(Tree<'a>, Tree<'a>)>) -> bool
    decreases entries,
{
    entries.len() > 0 ==> grouped(entries[0].0) && grouped(entries[0].1) && all_entries_grouped(
        entries.drop_first(),
    )
}

/// Whether every anchor stands for a tree without aliases.
pub open spec fn anchors_nest<'a>(anchored: Anchored<'a>) -> bool {
    forall|name: Seq<char>| #[trigger]
        anchored.contains_key(name) ==> crate::stream::value::tree::nests(anchored[name])
}

/// A resolved tree has no aliases left.
pub proof fn lemma_resolved_nests<'a>(tree: Tree<'a>, anchored: Anchored<'a>)
    requires
        anchors_nest(anchored),
        resolved(tree, anchored) is Some,
    ensures
        crate::stream::value::tree::nests((resolved(tree, anchored)->0).0),
        anchors_nest((resolved(tree, anchored)->0).1),
    decreases tree,
{
    match tree {
        Tree::Leaf(_) => {
            assert(crate::stream::value::tree::nests((resolved(tree, anchored)->0).0));
        },
        Tree::List { start, items, end } => {
            lemma_resolved_items_nest(items, anchored);
        },
        Tree::Table { opens, entries, closes } => {
            lemma_resolved_entries_nest(entries, anchored);
        },
    }
}

proof fn lemma_resolved_items_nest<'a>(items: Seq<Tree<'a>>, anchored: Anchored<'a>)
    requires
        anchors_nest(anchored),
        resolved_items(items, anchored) is Some,
    ensures
        crate::stream::value::tree::all_nest((resolved_items(items, anchored)->0).0),
        anchors_nest((resolved_items(items, anchored)->0).1),
    decreases items,
{
    if items.len() > 0 {
        let (first, next) = resolved(items[0], anchored)->0;
        lemma_resolved_nests(items[0], anchored);
        lemma_resolved_items_nest(items.drop_first(), next);
        let more = (resolved_items(items.drop_first(), next)->0).0;
        assert((seq![first] + more).drop_first() =~= more);
    }
}

proof fn lemma_resolved_entries_nest<'a>(
    entries: Seq<(Tree<'a>, Tree<'a>)>,
    anchored: Anchored<'a>,
)
    requires
        anchors_nest(anchored),
        resolved_entries(entries, anchored) is Some,
    ensures
        crate::stream::value::tree::all_entries_nest((resolved_entries(entries, anchored)->0).0),
        anchors_nest((resolved_entries(entries, anchored)->0).1),
    decreases entries,
{
    if entries.len() > 0 {
        let (key, next) = resolved(entries[0].0, anchored)->0;
        lemma_resolved_nests(entries[0].0, anchored);
        let (value, later) = resolved(entries[0].1, next)->0;
        lemma_resolved_nests(entries[0].1, next);
        lemma_resolved_entries_nest(entries.drop_first(), later);
        let more = (resolved_entries(entries.drop_first(), later)->0).0;
        assert((seq![(key, value)] + more).drop_first() =~= more);
    }
}

} // verus!
