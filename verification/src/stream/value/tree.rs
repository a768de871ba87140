//! Reading a value off a stream, and reading it off a tree.

use vstd::prelude::*;

use super::{Coming, Start};
use crate::error::Failure;
use crate::event::{Event, EventKind};
use crate::node::Node;
use crate::stream::mapping::{KeyStep, MapState, ValueStep};
use crate::stream::scalar::Said;
use crate::types::YamlVersion;

verus! {

/// A value without spans, styles and storage.
pub enum Shape {
    /// A scalar.
    Leaf(Said),
    /// A sequence.
    List(Seq<Shape>),
    /// A mapping.
    Table(Seq<(Shape, Shape)>),
}

/// What a scalar says, wherever its text is stored.
pub open spec fn settled(said: Said) -> Said {
    match said {
        Said::Text(text, _) => Said::Text(text, false),
        other => other,
    }
}

// ---- off a tree --------------------------------------------------------

/// What a node says under a version, if every scalar in it says something.
pub open spec fn node_shape(node: Node<'_>, version: YamlVersion) -> Option<Shape>
    decreases node,
{
    match node {
        Node::Scalar(s) => match crate::stream::scalar::meaning(
            s.value@,
            false,
            s.style,
            crate::stream::scalar::core_tag_in(s.tag),
            version,
        ) {
            Ok(said) => Some(Shape::Leaf(said)),
            Err(_) => None,
        },
        Node::Sequence(s) => match node_shapes(s.items@, version) {
            Some(items) => Some(Shape::List(items)),
            None => None,
        },
        Node::Mapping(m) => match entry_shapes(m.entries@, version) {
            Some(entries) => Some(Shape::Table(entries)),
            None => None,
        },
    }
}

/// What the items of a sequence say.
pub open spec fn node_shapes(items: Seq<Node<'_>>, version: YamlVersion) -> Option<Seq<Shape>>
    decreases items,
{
    if items.len() == 0 {
        Some(Seq::empty())
    } else {
        match (node_shape(items[0], version), node_shapes(items.drop_first(), version)) {
            (Some(first), Some(more)) => Some(seq![first] + more),
            _ => None,
        }
    }
}

/// What the entries of a mapping say.
pub open spec fn entry_shapes(entries: Seq<(Node<'_>, Node<'_>)>, version: YamlVersion) -> Option<
    Seq<(Shape, Shape)>,
>
    decreases entries,
{
    if entries.len() == 0 {
        Some(Seq::empty())
    } else {
        match (
            node_shape(entries[0].0, version),
            node_shape(entries[0].1, version),
            entry_shapes(entries.drop_first(), version),
        ) {
            (Some(key), Some(value), Some(more)) => Some(seq![(key, value)] + more),
            _ => None,
        }
    }
}

// ---- off a stream ------------------------------------------------------

/// Reads one value, step by step: what it is and what is left of the stream. None if a
/// step fails, or if `fuel` steps are not enough.
pub open spec fn streamed<'de>(
    coming: Coming<'de>,
    version: YamlVersion,
    merge_keys: bool,
    fuel: nat,
) -> Option<(Shape, Coming<'de>)>
    decreases fuel, 0int,
{
    if fuel == 0 {
        None
    } else {
        let left = super::beyond(coming);
        let less = (fuel - 1) as nat;
        match super::started(coming, version) {
            Err(_) => None,
            Ok(Start::Scalar(scalar)) => match scalar.said() {
                Ok(said) => Some((Shape::Leaf(settled(said)), left)),
                Err(_) => None,
            },
            Ok(Start::Sequence) => match streamed_items(left, version, merge_keys, less) {
                Some((items, rest)) => Some((Shape::List(items), rest)),
                None => None,
            },
            Ok(Start::Mapping) => match streamed_entries(
                crate::stream::mapping::unread(),
                left,
                version,
                merge_keys,
                less,
            ) {
                Some((entries, rest)) => Some((Shape::Table(entries), rest)),
                None => None,
            },
        }
    }
}

/// Reads the items of a sequence to its end.
pub open spec fn streamed_items<'de>(
    coming: Coming<'de>,
    version: YamlVersion,
    merge_keys: bool,
    fuel: nat,
) -> Option<(Seq<Shape>, Coming<'de>)>
    decreases fuel, 0int,
{
    if fuel == 0 {
        None
    } else {
        let (left, follows) = super::element(coming);
        let less = (fuel - 1) as nat;
        match follows {
            Err(_) => None,
            Ok(false) => Some((Seq::empty(), left)),
            Ok(true) => match streamed(left, version, merge_keys, less) {
                None => None,
                Some((first, rest)) => match streamed_items(rest, version, merge_keys, less) {
                    None => None,
                    Some((more, end)) => Some((seq![first] + more, end)),
                },
            },
        }
    }
}

/// The recorded run that holds the next key, if it is not in the stream.
pub open spec fn key_run<'de>(step: KeyStep<'de>) -> Option<Seq<Event<'de>>> {
    match step {
        KeyStep::Recorded(run) => Some(run),
        _ => None,
    }
}

/// The recorded run that holds the next value, if it is not in the stream.
pub open spec fn value_run<'de>(step: ValueStep<'de>) -> Option<Seq<Event<'de>>> {
    match step {
        ValueStep::Recorded(run) => Some(run),
        ValueStep::Live => None,
    }
}

/// Reads one value where it is: from the start of a recorded run, or off the stream.
pub open spec fn streamed_at<'de>(
    run: Option<Seq<Event<'de>>>,
    coming: Coming<'de>,
    version: YamlVersion,
    merge_keys: bool,
    fuel: nat,
) -> Option<(Shape, Coming<'de>)>
    decreases fuel, 1int,
{
    match run {
        None => streamed(coming, version, merge_keys, fuel),
        Some(events) => match streamed(
            crate::stream::source::yields(events),
            version,
            merge_keys,
            fuel,
        ) {
            Some((shape, _)) => Some((shape, coming)),
            None => None,
        },
    }
}

/// Reads the entries of a mapping to its end, its merged entries included.
pub open spec fn streamed_entries<'de>(
    m: MapState<'de>,
    coming: Coming<'de>,
    version: YamlVersion,
    merge_keys: bool,
    fuel: nat,
) -> Option<(Seq<(Shape, Shape)>, Coming<'de>)>
    decreases fuel, 0int,
{
    if fuel == 0 {
        None
    } else {
        let (keyed, at_key, step) = crate::stream::mapping::next_key(m, coming, merge_keys);
        let less = (fuel - 1) as nat;
        match step {
            Err(_) => None,
            Ok(KeyStep::End) => Some((Seq::empty(), at_key)),
            Ok(found) => match streamed_at(key_run(found), at_key, version, merge_keys, less) {
                None => None,
                Some((key, left)) => {
                    let (valued, at_value, place) = crate::stream::mapping::next_value(keyed, left);
                    match place {
                        Err(_) => None,
                        Ok(place) => match streamed_at(
                            value_run(place),
                            at_value,
                            version,
                            merge_keys,
                            less,
                        ) {
                            None => None,
                            Some((value, rest)) => match streamed_entries(
                                valued,
                                rest,
                                version,
                                merge_keys,
                                less,
                            ) {
                                None => None,
                                Some((more, end)) => Some((seq![(key, value)] + more, end)),
                            },
                        },
                    }
                },
            },
        }
    }
}

// ---- the events of a tree ----------------------------------------------

/// Events grouped into values.
pub enum Tree<'de> {
    /// A scalar event.
    Leaf(Event<'de>),
    /// A sequence: its start, its items and its end.
    List { start: Event<'de>, items: Seq<Tree<'de>>, end: Event<'de> },
    /// A mapping: its start, its entries and its end.
    Table { opens: Event<'de>, entries: Seq<(Tree<'de>, Tree<'de>)>, closes: Event<'de> },
}

/// The events of a tree, in order.
pub open spec fn events_of<'de>(tree: Tree<'de>) -> Seq<Event<'de>>
    decreases tree,
{
    match tree {
        Tree::Leaf(event) => seq![event],
        Tree::List { start, items, end } => seq![start] + events_of_items(items) + seq![end],
        Tree::Table { opens, entries, closes } => seq![opens] + events_of_entries(entries) + seq![
            closes,
        ],
    }
}

/// The events of items, one after the other.
pub open spec fn events_of_items<'de>(items: Seq<Tree<'de>>) -> Seq<Event<'de>>
    decreases items,
{
    if items.len() == 0 {
        Seq::empty()
    } else {
        events_of(items[0]) + events_of_items(items.drop_first())
    }
}

/// The events of entries, one after the other.
pub open spec fn events_of_entries<'de>(entries: Seq<(Tree<'de>, Tree<'de>)>) -> Seq<Event<'de>>
    decreases entries,
{
    if entries.len() == 0 {
        Seq::empty()
    } else {
        events_of(entries[0].0) + events_of(entries[0].1) + events_of_entries(
            entries.drop_first(),
        )
    }
}

/// Whether a node is what a composer makes of a tree of events: the same texts, styles
/// and tags in the same places.
pub open spec fn composed(node: Node<'_>, tree: Tree<'_>) -> bool
    decreases node,
{
    match (node, tree) {
        (Node::Scalar(s), Tree::Leaf(event)) => {
            &&& event.kind matches EventKind::Scalar { value, style, anchor, tag }
            &&& value@ == s.value@
            &&& style == s.style
            &&& crate::stream::scalar::core_tag_in(tag) == crate::stream::scalar::core_tag_in(s.tag)
        },
        (Node::Sequence(s), Tree::List { start, items, end }) => {
            &&& start.kind is SequenceStart
            &&& end.kind is SequenceEnd
            &&& composed_items(s.items@, items)
        },
        (Node::Mapping(m), Tree::Table { opens, entries, closes }) => {
            &&& opens.kind is MappingStart
            &&& closes.kind is MappingEnd
            &&& composed_entries(m.entries@, entries)
        },
        _ => false,
    }
}

/// Whether nodes are what a composer makes of trees of events.
pub open spec fn composed_items(nodes: Seq<Node<'_>>, trees: Seq<Tree<'_>>) -> bool
    decreases nodes,
{
    &&& nodes.len() == trees.len()
    &&& nodes.len() > 0 ==> composed(nodes[0], trees[0]) && composed_items(
        nodes.drop_first(),
        trees.drop_first(),
    )
}

/// Whether entries are what a composer makes of trees of events.
pub open spec fn composed_entries(
    nodes: Seq<(Node<'_>, Node<'_>)>,
    trees: Seq<(Tree<'_>, Tree<'_>)>,
) -> bool
    decreases nodes,
{
    &&& nodes.len() == trees.len()
    &&& nodes.len() > 0 ==> composed(nodes[0].0, trees[0].0) && composed(nodes[0].1, trees[0].1)
        && composed_entries(nodes.drop_first(), trees.drop_first())
}

// ---- the two readings agree --------------------------------------------

/// How many steps are enough to read a tree.
pub open spec fn steps<'de>(tree: Tree<'de>) -> nat
    decreases tree,
{
    match tree {
        Tree::Leaf(_) => 1,
        Tree::List { start, items, end } => 1 + steps_of_items(items),
        Tree::Table { opens, entries, closes } => 1 + steps_of_entries(entries),
    }
}

/// How many steps are enough to read items to the end of a sequence.
pub open spec fn steps_of_items<'de>(items: Seq<Tree<'de>>) -> nat
    decreases items,
{
    if items.len() == 0 {
        1
    } else {
        1 + steps(items[0]) + steps_of_items(items.drop_first())
    }
}

/// How many steps are enough to read entries to the end of a mapping.
pub open spec fn steps_of_entries<'de>(entries: Seq<(Tree<'de>, Tree<'de>)>) -> nat
    decreases entries,
{
    if entries.len() == 0 {
        1
    } else {
        1 + steps(entries[0].0) + steps(entries[0].1) + steps_of_entries(entries.drop_first())
    }
}

/// Everything a tree can start with is the start of a value.
proof fn lemma_starts<'de>(tree: Tree<'de>)
    requires
        nests(tree),
    ensures
        events_of(tree).len() > 0,
        super::sort_of(events_of(tree)[0]) == super::Peek::Value,
{
}

/// What a node is composed of groups events as they nest.
pub proof fn lemma_composed_nests(node: Node<'_>, tree: Tree<'_>)
    requires
        composed(node, tree),
    ensures
        nests(tree),
    decreases node,
{
    match (node, tree) {
        (Node::Sequence(s), Tree::List { start, items, end }) => {
            lemma_composed_items_nest(s.items@, items);
        },
        (Node::Mapping(m), Tree::Table { opens, entries, closes }) => {
            lemma_composed_entries_nest(m.entries@, entries);
        },
        _ => {},
    }
}

proof fn lemma_composed_items_nest(nodes: Seq<Node<'_>>, trees: Seq<Tree<'_>>)
    requires
        composed_items(nodes, trees),
    ensures
        all_nest(trees),
    decreases nodes,
{
    if nodes.len() > 0 {
        lemma_composed_nests(nodes[0], trees[0]);
        lemma_composed_items_nest(nodes.drop_first(), trees.drop_first());
    }
}

proof fn lemma_composed_entries_nest(
    nodes: Seq<(Node<'_>, Node<'_>)>,
    trees: Seq<(Tree<'_>, Tree<'_>)>,
)
    requires
        composed_entries(nodes, trees),
    ensures
        all_entries_nest(trees),
    decreases nodes,
{
    if nodes.len() > 0 {
        lemma_composed_nests(nodes[0].0, trees[0].0);
        lemma_composed_nests(nodes[0].1, trees[0].1);
        lemma_composed_entries_nest(nodes.drop_first(), trees.drop_first());
    }
}

/// With merge keys off, reading the events of a tree gives what the node says that a
/// composer makes of it, and leaves what follows; it fails if the node does not say a
/// value.
pub proof fn law_streaming_agrees_with_the_tree<'a, 'de>(
    node: Node<'a>,
    tree: Tree<'de>,
    more: Coming<'de>,
    version: YamlVersion,
    fuel: nat,
)
    requires
        composed(node, tree),
        fuel >= steps(tree),
    ensures
        streamed(crate::stream::source::yields(events_of(tree)) + more, version, false, fuel) == (
        match node_shape(node, version) {
            Some(shape) => Some((shape, more)),
            None => None,
        }),
{
    lemma_composed_nests(node, tree);
    super::folding::law_nothing_is_folded_without_merge_keys(tree);
    law_streaming_agrees_with_the_folded_tree(node, tree, tree, more, version, false, fuel);
}

/// Reading the events of a tree gives what the node says that a composer makes of it
/// once its merge keys are folded, and leaves what follows; it fails if the node does
/// not say a value.
pub proof fn law_streaming_agrees_with_the_folded_tree<'a, 'de>(
    node: Node<'a>,
    tree: Tree<'de>,
    whole: Tree<'de>,
    more: Coming<'de>,
    version: YamlVersion,
    merge_keys: bool,
    fuel: nat,
)
    requires
        super::folding::folded(tree, merge_keys) == Some(whole),
        composed(node, whole),
        fuel >= steps(whole),
    ensures
        streamed(
            crate::stream::source::yields(events_of(tree)) + more,
            version,
            merge_keys,
            fuel,
        ) == (match node_shape(node, version) {
            Some(shape) => Some((shape, more)),
            None => None,
        }),
    decreases node, 0nat, 0nat,
{
    let events = events_of(tree);
    let coming = crate::stream::source::yields(events) + more;
    super::folding::lemma_folded_nests(tree, merge_keys);
    lemma_starts(tree);
    assert(coming[0] == Ok::<Event<'de>, Failure>(events[0]));
    match (node, tree) {
        (Node::Scalar(s), Tree::Leaf(event)) => {
            assert(super::beyond(coming) =~= more);
        },
        (Node::Sequence(s), Tree::List { start, items, end }) => {
            let rest = crate::stream::source::yields(events_of_items(items)) + (seq![Ok(end)]
                + more);
            assert(super::beyond(coming) =~= rest);
            lemma_items_agree(
                s.items@,
                items,
                end,
                more,
                version,
                merge_keys,
                (fuel - 1) as nat,
            );
        },
        (Node::Mapping(m), Tree::Table { opens, entries, closes }) => {
            let rest = crate::stream::source::yields(events_of_entries(entries)) + (seq![
                Ok(closes),
            ] + more);
            assert(super::beyond(coming) =~= rest);
            let own = super::folding::stated(entries, merge_keys)->0;
            let given = super::folding::inherited(entries, merge_keys)->0;
            let seen = Set::<Seq<char>>::empty().union(super::folding::claimed(own));
            let held = Seq::<(Tree<'de>, Tree<'de>)>::empty();
            super::folding::lemma_spread_inherited(entries, merge_keys);
            let spare = super::folding::spread_inherited(entries, merge_keys)->0;
            let folded = super::folding::all_folded(spare, merge_keys)->0;
            assert(seen =~= super::folding::claimed(own));
            assert(super::folding::kept(seen, folded) == super::folding::kept(seen, given));
            assert(held + spare =~= spare);
            assert(super::runs::runs(held) =~= Seq::empty());
            lemma_entries_agree(
                m.entries@,
                crate::stream::mapping::unread(),
                held,
                entries,
                closes,
                more,
                version,
                merge_keys,
                (fuel - 1) as nat,
            );
        },
        _ => {},
    }
}

proof fn lemma_items_agree<'a, 'de>(
    nodes: Seq<Node<'a>>,
    trees: Seq<Tree<'de>>,
    end: Event<'de>,
    more: Coming<'de>,
    version: YamlVersion,
    merge_keys: bool,
    fuel: nat,
)
    requires
        super::folding::folded_items(trees, merge_keys) is Some,
        composed_items(nodes, super::folding::folded_items(trees, merge_keys)->0),
        end.kind is SequenceEnd,
        fuel >= steps_of_items(super::folding::folded_items(trees, merge_keys)->0),
    ensures
        streamed_items(
            crate::stream::source::yields(events_of_items(trees)) + (seq![Ok(end)] + more),
            version,
            merge_keys,
            fuel,
        ) == (match node_shapes(nodes, version) {
            Some(items) => Some((items, more)),
            None => None,
        }),
    decreases nodes, 0nat, 0nat,
{
    let closing: Coming<'de> = seq![Ok(end)] + more;
    let coming = crate::stream::source::yields(events_of_items(trees)) + closing;
    if trees.len() == 0 {
        assert(coming =~= closing);
        assert(closing[0] == Ok::<Event<'de>, Failure>(end));
        assert(super::beyond(closing) =~= more);
    } else {
        let first = events_of(trees[0]);
        let rest: Coming<'de> = crate::stream::source::yields(
            events_of_items(trees.drop_first()),
        ) + closing;
        let whole = super::folding::folded(trees[0], merge_keys)->0;
        let later = super::folding::folded_items(trees.drop_first(), merge_keys)->0;
        assert((seq![whole] + later).drop_first() =~= later);
        super::folding::lemma_folded_nests(trees[0], merge_keys);
        lemma_starts(trees[0]);
        assert(coming =~= crate::stream::source::yields(first) + rest);
        assert(coming[0] == Ok::<Event<'de>, Failure>(first[0]));
        let less = (fuel - 1) as nat;
        law_streaming_agrees_with_the_folded_tree(
            nodes[0],
            trees[0],
            whole,
            rest,
            version,
            merge_keys,
            less,
        );
        lemma_items_agree(
            nodes.drop_first(),
            trees.drop_first(),
            end,
            more,
            version,
            merge_keys,
            less,
        );
    }
}

/// The entries still to come of a mapping that has put some by: those it states, and
/// then what is kept of those put by and of those it inherits.
spec fn due<'de>(
    seen: Set<Seq<char>>,
    held: Seq<(Tree<'de>, Tree<'de>)>,
    trees: Seq<(Tree<'de>, Tree<'de>)>,
    merge_keys: bool,
) -> Seq<(Tree<'de>, Tree<'de>)> {
    let own = super::folding::stated(trees, merge_keys)->0;
    let spare = held + super::folding::spread_inherited(trees, merge_keys)->0;
    own + super::folding::kept(
        seen.union(super::folding::claimed(own)),
        super::folding::all_folded(spare, merge_keys)->0,
    )
}

proof fn lemma_entries_agree<'a, 'de>(
    nodes: Seq<(Node<'a>, Node<'a>)>,
    m: MapState<'de>,
    held: Seq<(Tree<'de>, Tree<'de>)>,
    trees: Seq<(Tree<'de>, Tree<'de>)>,
    end: Event<'de>,
    more: Coming<'de>,
    version: YamlVersion,
    merge_keys: bool,
    fuel: nat,
)
    requires
        !m.draining,
        m.pending is None,
        m.merged == super::runs::runs(held),
        !merge_keys ==> held.len() == 0,
        super::folding::stated(trees, merge_keys) is Some,
        super::folding::inherited(trees, merge_keys) is Some,
        super::folding::all_folded(held, merge_keys) is Some,
        end.kind is MappingEnd,
        composed_entries(nodes, due(m.seen, held, trees, merge_keys)),
        fuel >= steps_of_entries(due(m.seen, held, trees, merge_keys)),
    ensures
        streamed_entries(
            m,
            crate::stream::source::yields(events_of_entries(trees)) + (seq![Ok(end)] + more),
            version,
            merge_keys,
            fuel,
        ) == (match entry_shapes(nodes, version) {
            Some(entries) => Some((entries, more)),
            None => None,
        }),
    decreases nodes, trees.len() + 1, 1nat,
{
    let closing: Coming<'de> = seq![Ok(end)] + more;
    let coming = crate::stream::source::yields(events_of_entries(trees)) + closing;
    let expected = due(m.seen, held, trees, merge_keys);
    if trees.len() == 0 {
        assert(coming =~= closing);
        assert(closing[0] == Ok::<Event<'de>, Failure>(end));
        assert(super::beyond(closing) =~= more);
        assert(held + Seq::empty() =~= held);
        assert(m.seen.union(Set::empty()) =~= m.seen);
        let rest = super::folding::kept(
            m.seen,
            super::folding::all_folded(held, merge_keys)->0,
        );
        assert(expected =~= rest);
        if held.len() > 0 {
            let turned = MapState { draining: true, ..m };
            assert(crate::stream::mapping::next_key(m, closing, merge_keys)
                == crate::stream::mapping::next_key(turned, more, merge_keys));
            lemma_merged_agree(nodes, turned, held, more, version, merge_keys, fuel);
        }
    } else {
        super::folding::lemma_spread_inherited(trees, merge_keys);
        if super::folding::merges(trees[0].0, merge_keys) {
            lemma_merge_agrees(nodes, m, held, trees, end, more, version, merge_keys, fuel);
        } else {
            lemma_stated_agrees(nodes, m, held, trees, end, more, version, merge_keys, fuel);
        }
    }
}

/// A merge key puts the entries of its value by.
proof fn lemma_merge_agrees<'a, 'de>(
    nodes: Seq<(Node<'a>, Node<'a>)>,
    m: MapState<'de>,
    held: Seq<(Tree<'de>, Tree<'de>)>,
    trees: Seq<(Tree<'de>, Tree<'de>)>,
    end: Event<'de>,
    more: Coming<'de>,
    version: YamlVersion,
    merge_keys: bool,
    fuel: nat,
)
    requires
        trees.len() > 0,
        super::folding::merges(trees[0].0, merge_keys),
        !m.draining,
        m.pending is None,
        m.merged == super::runs::runs(held),
        !merge_keys ==> held.len() == 0,
        super::folding::stated(trees, merge_keys) is Some,
        super::folding::inherited(trees, merge_keys) is Some,
        super::folding::all_folded(held, merge_keys) is Some,
        end.kind is MappingEnd,
        composed_entries(nodes, due(m.seen, held, trees, merge_keys)),
        fuel >= steps_of_entries(due(m.seen, held, trees, merge_keys)),
    ensures
        streamed_entries(
            m,
            crate::stream::source::yields(events_of_entries(trees)) + (seq![Ok(end)] + more),
            version,
            merge_keys,
            fuel,
        ) == (match entry_shapes(nodes, version) {
            Some(entries) => Some((entries, more)),
            None => None,
        }),
    decreases nodes, trees.len() + 1, 0nat,
{
    let closing: Coming<'de> = seq![Ok(end)] + more;
    let coming = crate::stream::source::yields(events_of_entries(trees)) + closing;
    let tail = trees.drop_first();
    let (key_tree, value_tree) = trees[0];
    let key = events_of(key_tree);
    let value = events_of(value_tree);
    let rest: Coming<'de> = crate::stream::source::yields(events_of_entries(tail)) + closing;
    assert(coming =~= crate::stream::mapping::laws::entry_ahead(key, value, rest));
    super::folding::lemma_spread_inherited(tail, merge_keys);
    super::folding::lemma_folded_nests(value_tree, merge_keys);
    super::runs::law_a_tree_is_one_value(value_tree);
    assert(nests(key_tree));
    super::runs::law_a_tree_is_one_value(key_tree);
    super::folding::lemma_spread(value_tree, merge_keys);
    super::runs::lemma_sources(value_tree, merge_keys);
    crate::stream::mapping::laws::lemma_merge_key(m, key, value, rest, merge_keys);
    let given = super::folding::spread(value_tree, merge_keys)->0;
    let longer = held + given;
    super::runs::lemma_runs_sum(held, given);
    super::folding::lemma_all_folded_sum(held, given, merge_keys);
    let next = MapState { merged: super::runs::runs(longer), ..m };
    let later = super::folding::spread_inherited(tail, merge_keys)->0;
    assert(longer + later =~= held + (given + later));
    lemma_entries_agree(nodes, next, longer, tail, end, more, version, merge_keys, fuel);
}

/// An entry that a mapping states is read off the stream.
proof fn lemma_stated_agrees<'a, 'de>(
    nodes: Seq<(Node<'a>, Node<'a>)>,
    m: MapState<'de>,
    held: Seq<(Tree<'de>, Tree<'de>)>,
    trees: Seq<(Tree<'de>, Tree<'de>)>,
    end: Event<'de>,
    more: Coming<'de>,
    version: YamlVersion,
    merge_keys: bool,
    fuel: nat,
)
    requires
        trees.len() > 0,
        !super::folding::merges(trees[0].0, merge_keys),
        !m.draining,
        m.pending is None,
        m.merged == super::runs::runs(held),
        !merge_keys ==> held.len() == 0,
        super::folding::stated(trees, merge_keys) is Some,
        super::folding::inherited(trees, merge_keys) is Some,
        super::folding::all_folded(held, merge_keys) is Some,
        end.kind is MappingEnd,
        composed_entries(nodes, due(m.seen, held, trees, merge_keys)),
        fuel >= steps_of_entries(due(m.seen, held, trees, merge_keys)),
    ensures
        streamed_entries(
            m,
            crate::stream::source::yields(events_of_entries(trees)) + (seq![Ok(end)] + more),
            version,
            merge_keys,
            fuel,
        ) == (match entry_shapes(nodes, version) {
            Some(entries) => Some((entries, more)),
            None => None,
        }),
    decreases nodes, trees.len() + 1, 0nat,
{
    let closing: Coming<'de> = seq![Ok(end)] + more;
    let coming = crate::stream::source::yields(events_of_entries(trees)) + closing;
    let expected = due(m.seen, held, trees, merge_keys);
    let tail = trees.drop_first();
    let (key_tree, value_tree) = trees[0];
    let key = events_of(key_tree);
    let value = events_of(value_tree);
    let rest: Coming<'de> = crate::stream::source::yields(events_of_entries(tail)) + closing;
    let from_value: Coming<'de> = crate::stream::source::yields(value) + rest;
    assert(coming =~= crate::stream::source::yields(key) + from_value);
    super::folding::lemma_folded_nests(value_tree, merge_keys);
    super::folding::lemma_folded_nests(key_tree, merge_keys);
    super::runs::lemma_merge_key(key_tree, merge_keys);
    super::runs::law_a_tree_is_one_value(key_tree);
    let next = crate::stream::mapping::laws::keyed(m, key, merge_keys);
    let key_whole = super::folding::folded(key_tree, merge_keys)->0;
    let value_whole = super::folding::folded(value_tree, merge_keys)->0;
    let later = due(next.seen, held, tail, merge_keys);
    lemma_due_first(m.seen, next.seen, held, trees, merge_keys);
    assert(expected.drop_first() =~= later);
    lemma_starts(value_tree);
    assert(from_value[0] == Ok::<Event<'de>, Failure>(value[0]));
    crate::stream::mapping::laws::lemma_ordinary_key(m, key, from_value, merge_keys);
    let less = (fuel - 1) as nat;
    law_streaming_agrees_with_the_folded_tree(
        nodes[0].0,
        key_tree,
        key_whole,
        from_value,
        version,
        merge_keys,
        less,
    );
    law_streaming_agrees_with_the_folded_tree(
        nodes[0].1,
        value_tree,
        value_whole,
        rest,
        version,
        merge_keys,
        less,
    );
    lemma_entries_agree(
        nodes.drop_first(),
        next,
        held,
        tail,
        end,
        more,
        version,
        merge_keys,
        less,
    );
    lemma_live_entry(m, next, coming, from_value, rest, version, merge_keys, fuel);
}

/// An entry in the stream is read there, key first.
proof fn lemma_live_entry<'de>(
    m: MapState<'de>,
    keyed: MapState<'de>,
    coming: Coming<'de>,
    from_value: Coming<'de>,
    rest: Coming<'de>,
    version: YamlVersion,
    merge_keys: bool,
    fuel: nat,
)
    requires
        fuel > 0,
        crate::stream::mapping::next_key(m, coming, merge_keys) == (
            keyed,
            coming,
            Ok::<KeyStep<'de>, crate::error::DeFailure>(KeyStep::Live),
        ),
        keyed.pending is None,
        from_value.len() > 0,
        from_value[0] is Ok,
        streamed(coming, version, merge_keys, (fuel - 1) as nat) matches Some((_, left)) ==> left
            == from_value,
        streamed(from_value, version, merge_keys, (fuel - 1) as nat) matches Some((_, left))
            ==> left == rest,
    ensures
        streamed_entries(m, coming, version, merge_keys, fuel) == (match (
            streamed(coming, version, merge_keys, (fuel - 1) as nat),
            streamed(from_value, version, merge_keys, (fuel - 1) as nat),
            streamed_entries(keyed, rest, version, merge_keys, (fuel - 1) as nat),
        ) {
            (Some((key, _)), Some((value, _)), Some((more, end))) => Some(
                (seq![(key, value)] + more, end),
            ),
            _ => None,
        }),
{
    let less = (fuel - 1) as nat;
    lemma_off_the_stream(coming, version, merge_keys, less);
    lemma_off_the_stream(from_value, version, merge_keys, less);
}

/// A value that no run holds is read off the stream.
proof fn lemma_off_the_stream<'de>(
    coming: Coming<'de>,
    version: YamlVersion,
    merge_keys: bool,
    fuel: nat,
)
    ensures
        streamed_at(None, coming, version, merge_keys, fuel) == streamed(
            coming,
            version,
            merge_keys,
            fuel,
        ),
{
}

/// A value that a run holds is read from it, and the stream stays as it is.
proof fn lemma_out_of_a_run<'de>(
    run: Seq<Event<'de>>,
    coming: Coming<'de>,
    version: YamlVersion,
    merge_keys: bool,
    fuel: nat,
)
    ensures
        streamed_at(Some(run), coming, version, merge_keys, fuel) == (match streamed(
            crate::stream::source::yields(run),
            version,
            merge_keys,
            fuel,
        ) {
            Some((shape, _)) => Some((shape, coming)),
            None => None,
        }),
{
}

/// An entry that a mapping states comes first, and claims its key.
proof fn lemma_due_first<'de>(
    seen: Set<Seq<char>>,
    after: Set<Seq<char>>,
    held: Seq<(Tree<'de>, Tree<'de>)>,
    trees: Seq<(Tree<'de>, Tree<'de>)>,
    merge_keys: bool,
)
    requires
        trees.len() > 0,
        !super::folding::merges(trees[0].0, merge_keys),
        super::folding::stated(trees, merge_keys) is Some,
        super::folding::inherited(trees, merge_keys) is Some,
        !merge_keys ==> held.len() == 0,
        after == (match super::folding::lone(trees[0].0) {
            Some(text) => if merge_keys {
                seen.insert(text)
            } else {
                seen
            },
            None => seen,
        }),
    ensures
        due(seen, held, trees, merge_keys) == seq![
            (
                super::folding::folded(trees[0].0, merge_keys)->0,
                super::folding::folded(trees[0].1, merge_keys)->0,
            ),
        ] + due(after, held, trees.drop_first(), merge_keys),
{
    let tail = trees.drop_first();
    let first = (
        super::folding::folded(trees[0].0, merge_keys)->0,
        super::folding::folded(trees[0].1, merge_keys)->0,
    );
    super::folding::lemma_folded_nests(trees[0].0, merge_keys);
    let own = super::folding::stated(tail, merge_keys)->0;
    let all = seq![first] + own;
    assert(all.drop_first() =~= own);
    let spare = held + super::folding::spread_inherited(tail, merge_keys)->0;
    if merge_keys {
        assert(seen.union(super::folding::claimed(all)) =~= after.union(
            super::folding::claimed(own),
        ));
    } else {
        lemma_nothing_spread(tail);
        assert(spare.len() == 0);
    }
    assert(due(seen, held, trees, merge_keys) =~= seq![first] + due(
        after,
        held,
        tail,
        merge_keys,
    ));
}

proof fn lemma_nothing_spread<'de>(entries: Seq<(Tree<'de>, Tree<'de>)>)
    ensures
        super::folding::spread_inherited(entries, false) == Some(
            Seq::<(Tree<'de>, Tree<'de>)>::empty(),
        ),
    decreases entries.len(),
{
    if entries.len() > 0 {
        lemma_nothing_spread(entries.drop_first());
    }
}

/// An entry in recorded runs is read from them, and the stream stays as it is.
proof fn lemma_recorded_entry<'de>(
    m: MapState<'de>,
    keyed: MapState<'de>,
    key: Seq<Event<'de>>,
    value: Seq<Event<'de>>,
    coming: Coming<'de>,
    version: YamlVersion,
    merge_keys: bool,
    fuel: nat,
)
    requires
        fuel > 0,
        m.draining,
        crate::stream::mapping::next_merged(m) == (keyed, KeyStep::Recorded(key)),
        keyed.pending == Some(value),
    ensures
        streamed_entries(m, coming, version, merge_keys, fuel) == (match (
            streamed(crate::stream::source::yields(key), version, merge_keys, (fuel - 1) as nat),
            streamed(crate::stream::source::yields(value), version, merge_keys, (fuel - 1) as nat),
            streamed_entries(
                MapState { pending: None, ..keyed },
                coming,
                version,
                merge_keys,
                (fuel - 1) as nat,
            ),
        ) {
            (Some((k, _)), Some((v, _)), Some((more, end))) => Some((seq![(k, v)] + more, end)),
            _ => None,
        }),
{
    let less = (fuel - 1) as nat;
    lemma_out_of_a_run(key, coming, version, merge_keys, less);
    lemma_out_of_a_run(value, coming, version, merge_keys, less);
}

proof fn lemma_merged_agree<'a, 'de>(
    nodes: Seq<(Node<'a>, Node<'a>)>,
    m: MapState<'de>,
    held: Seq<(Tree<'de>, Tree<'de>)>,
    coming: Coming<'de>,
    version: YamlVersion,
    merge_keys: bool,
    fuel: nat,
)
    requires
        m.draining,
        m.pending is None,
        m.merged == super::runs::runs(held),
        super::folding::all_folded(held, merge_keys) is Some,
        composed_entries(
            nodes,
            super::folding::kept(m.seen, super::folding::all_folded(held, merge_keys)->0),
        ),
        fuel >= steps_of_entries(
            super::folding::kept(m.seen, super::folding::all_folded(held, merge_keys)->0),
        ),
    ensures
        streamed_entries(m, coming, version, merge_keys, fuel) == (match entry_shapes(
            nodes,
            version,
        ) {
            Some(entries) => Some((entries, coming)),
            None => None,
        }),
    decreases nodes, 0nat, held.len(),
{
    let folded = super::folding::all_folded(held, merge_keys)->0;
    let expected = super::folding::kept(m.seen, folded);
    if held.len() > 0 {
        let tail = held.drop_first();
        let (key_tree, value_tree) = held[0];
        let key = events_of(key_tree);
        let value = events_of(value_tree);
        let later = super::folding::all_folded(tail, merge_keys)->0;
        assert(folded.drop_first() =~= later);
        super::runs::lemma_runs_first(held);
        super::folding::lemma_folded_nests(key_tree, merge_keys);
        super::runs::law_a_tree_is_one_value(key_tree);
        let text = super::folding::lone(key_tree);
        let left = MapState { merged: super::runs::runs(tail), ..m };
        if text is Some && m.seen.contains(text->0) {
            assert(crate::stream::mapping::next_merged(m) == crate::stream::mapping::next_merged(
                left,
            ));
            assert(crate::stream::mapping::next_key(m, coming, merge_keys)
                == crate::stream::mapping::next_key(left, coming, merge_keys));
            lemma_merged_agree(nodes, left, tail, coming, version, merge_keys, fuel);
        } else {
            let seen = match text {
                Some(t) => m.seen.insert(t),
                None => m.seen,
            };
            let next = MapState { seen, pending: Some(value), ..left };
            let after = MapState { seen, ..left };
            assert(crate::stream::mapping::next_merged(m).0 =~= next);
            assert(expected.drop_first() =~= super::folding::kept(seen, later));
            let none: Coming<'de> = Seq::empty();
            assert(crate::stream::source::yields(key) + none =~= crate::stream::source::yields(
                key,
            ));
            assert(crate::stream::source::yields(value) + none =~= crate::stream::source::yields(
                value,
            ));
            let less = (fuel - 1) as nat;
            law_streaming_agrees_with_the_folded_tree(
                nodes[0].0,
                key_tree,
                super::folding::folded(key_tree, merge_keys)->0,
                none,
                version,
                merge_keys,
                less,
            );
            law_streaming_agrees_with_the_folded_tree(
                nodes[0].1,
                value_tree,
                super::folding::folded(value_tree, merge_keys)->0,
                none,
                version,
                merge_keys,
                less,
            );
            lemma_merged_agree(
                nodes.drop_first(),
                after,
                tail,
                coming,
                version,
                merge_keys,
                less,
            );
            lemma_recorded_entry(m, next, key, value, coming, version, merge_keys, fuel);
        }
    }
}

// ---- only trees are accepted -------------------------------------------

/// Whether a tree groups events as they nest: scalars at its leaves, and matching starts
/// and ends around its collections.
pub open spec fn nests<'de>(tree: Tree<'de>) -> bool
    decreases tree,
{
    match tree {
        Tree::Leaf(event) => event.kind is Scalar,
        Tree::List { start, items, end } => {
            &&& start.kind is SequenceStart
            &&& end.kind is SequenceEnd
            &&& all_nest(items)
        },
        Tree::Table { opens, entries, closes } => {
            &&& opens.kind is MappingStart
            &&& closes.kind is MappingEnd
            &&& all_entries_nest(entries)
        },
    }
}

/// Whether every one of these trees groups events as they nest.
pub open spec fn all_nest<'de>(items: Seq<Tree<'de>>) -> bool
    decreases items,
{
    items.len() > 0 ==> nests(items[0]) && all_nest(items.drop_first())
}

/// Whether every one of these entries groups events as they nest.
pub open spec fn all_entries_nest<'de>(entries: Seq<(Tree<'de>, Tree<'de>)>) -> bool
    decreases entries,
{
    entries.len() > 0 ==> nests(entries[0].0) && nests(entries[0].1) && all_entries_nest(
        entries.drop_first(),
    )
}

proof fn lemma_ahead<'de>(coming: Coming<'de>, event: Event<'de>)
    requires
        super::ahead(coming) == Ok::<Option<Event<'de>>, crate::error::DeFailure>(Some(event)),
    ensures
        coming == seq![Ok::<Event<'de>, Failure>(event)] + super::beyond(coming),
{
    assert(coming =~= seq![Ok::<Event<'de>, Failure>(event)] + super::beyond(coming));
}

/// With merge keys off, what is read off a stream is always a tree of events at its front, and what is left
/// follows it: a stream that does not hold the events of a tree is refused.
pub proof fn law_streaming_accepts_only_trees<'de>(
    coming: Coming<'de>,
    version: YamlVersion,
    fuel: nat,
) -> (tree: Tree<'de>)
    requires
        streamed(coming, version, false, fuel) is Some,
    ensures
        nests(tree),
        coming == crate::stream::source::yields(events_of(tree)) + (streamed(
            coming,
            version,
            false,
            fuel,
        )->0).1,
    decreases fuel,
{
    let rest = (streamed(coming, version, false, fuel)->0).1;
    let left = super::beyond(coming);
    let event = super::ahead(coming)->Ok_0->0;
    lemma_ahead(coming, event);
    match super::started(coming, version) {
        Ok(Start::Scalar(scalar)) => {
            let tree = Tree::Leaf(event);
            assert(coming =~= crate::stream::source::yields(events_of(tree)) + rest);
            tree
        },
        Ok(Start::Sequence) => {
            let (items, end) = lemma_items_accepted(left, version, (fuel - 1) as nat);
            let tree = Tree::List { start: event, items, end };
            assert(coming =~= crate::stream::source::yields(events_of(tree)) + rest);
            tree
        },
        Ok(Start::Mapping) => {
            let (entries, end) = lemma_entries_accepted(left, version, (fuel - 1) as nat);
            let tree = Tree::Table { opens: event, entries, closes: end };
            assert(coming =~= crate::stream::source::yields(events_of(tree)) + rest);
            tree
        },
        Err(_) => Tree::Leaf(event),
    }
}

proof fn lemma_items_accepted<'de>(coming: Coming<'de>, version: YamlVersion, fuel: nat) -> (found: (
    Seq<Tree<'de>>,
    Event<'de>,
))
    requires
        streamed_items(coming, version, false, fuel) is Some,
    ensures
        all_nest(found.0),
        found.1.kind is SequenceEnd,
        coming == crate::stream::source::yields(events_of_items(found.0)) + (seq![Ok(found.1)]
            + (streamed_items(coming, version, false, fuel)->0).1),
    decreases fuel,
{
    let event = super::ahead(coming)->Ok_0->0;
    lemma_ahead(coming, event);
    let last = (streamed_items(coming, version, false, fuel)->0).1;
    if super::sort_of(event) == super::Peek::SequenceEnd {
        let items = Seq::<Tree<'de>>::empty();
        assert(coming =~= crate::stream::source::yields(events_of_items(items)) + (seq![Ok(event)]
            + last));
        (items, event)
    } else {
        let less = (fuel - 1) as nat;
        let first = law_streaming_accepts_only_trees(coming, version, less);
        let rest = (streamed(coming, version, false, less)->0).1;
        let (more, end) = lemma_items_accepted(rest, version, less);
        let items = seq![first] + more;
        assert(items.drop_first() =~= more);
        assert(coming =~= crate::stream::source::yields(events_of_items(items)) + (seq![Ok(end)]
            + last));
        (items, end)
    }
}

#[verifier::spinoff_prover]
#[verifier::rlimit(60)]
proof fn lemma_entries_accepted<'de>(
    coming: Coming<'de>,
    version: YamlVersion,
    fuel: nat,
) -> (found: (Seq<(Tree<'de>, Tree<'de>)>, Event<'de>))
    requires
        streamed_entries(
            crate::stream::mapping::unread(),
            coming,
            version,
            false,
            fuel,
        ) is Some,
    ensures
        all_entries_nest(found.0),
        found.1.kind is MappingEnd,
        coming == crate::stream::source::yields(events_of_entries(found.0)) + (seq![Ok(found.1)]
            + (streamed_entries(
            crate::stream::mapping::unread(),
            coming,
            version,
            false,
            fuel,
        )->0).1),
    decreases fuel,
{
    let event = super::ahead(coming)->Ok_0->0;
    lemma_ahead(coming, event);
    let last = (streamed_entries(
            crate::stream::mapping::unread(),
            coming,
            version,
            false,
            fuel,
        )->0).1;
    if super::sort_of(event) == super::Peek::MappingEnd {
        let entries = Seq::<(Tree<'de>, Tree<'de>)>::empty();
        assert(coming =~= crate::stream::source::yields(events_of_entries(entries)) + (seq![
            Ok(event),
        ] + last));
        (entries, event)
    } else {
        let less = (fuel - 1) as nat;
        lemma_off_the_stream(coming, version, false, less);
        let from_value = (streamed(coming, version, false, less)->0).1;
        lemma_off_the_stream(from_value, version, false, less);
        let key = law_streaming_accepts_only_trees(coming, version, less);
        let value = law_streaming_accepts_only_trees(from_value, version, less);
        let rest = (streamed(from_value, version, false, less)->0).1;
        let (more, end) = lemma_entries_accepted(rest, version, less);
        let entries = seq![(key, value)] + more;
        assert(entries.drop_first() =~= more);
        assert(coming =~= crate::stream::source::yields(events_of_entries(entries)) + (seq![
            Ok(end),
        ] + last));
        (entries, end)
    }
}

} // verus!
