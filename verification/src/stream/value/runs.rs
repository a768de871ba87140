//! Trees as the runs of events that a stream hands out.

use vstd::prelude::*;

use super::folding::Pair;
use super::tree::Tree;
use crate::event::Event;
use crate::stream::mapping::Entry;

verus! {

// ---- a tree is one value -----------------------------------------------

/// Whether a run of events never goes below the depth it begins at.
pub open spec fn stays_up(events: Seq<Event<'_>>) -> bool {
    forall|k: int|
        0 <= k <= events.len() ==> crate::stream::tape::model::depth_of(#[trigger] events.take(k))
            >= 0
}

/// Whether a run of events ends as deep as it begins, and never goes below that.
pub open spec fn level(events: Seq<Event<'_>>) -> bool {
    crate::stream::tape::model::depth_of(events) == 0 && stays_up(events)
}

/// A value is level.
pub proof fn lemma_value_is_level(events: Seq<Event<'_>>)
    requires
        crate::stream::tape::model::is_value(events),
    ensures
        level(events),
{
    assert forall|k: int| 0 <= k <= events.len() implies crate::stream::tape::model::depth_of(
        #[trigger] events.take(k),
    ) >= 0 by {
        if k == 0 {
            assert(events.take(k) =~= Seq::empty());
        } else if k == events.len() {
            assert(events.take(k) =~= events);
        }
    }
}

/// What follows a level run stays up if it does so by itself.
pub proof fn lemma_stays_up_sum<'a>(left: Seq<Event<'a>>, right: Seq<Event<'a>>)
    requires
        level(left),
        stays_up(right),
    ensures
        stays_up(left + right),
        level(right) ==> level(left + right),
{
    crate::stream::tape::laws::lemma_depth_sum(left, right);
    let both = left + right;
    assert forall|k: int| 0 <= k <= both.len() implies crate::stream::tape::model::depth_of(
        #[trigger] both.take(k),
    ) >= 0 by {
        if k <= left.len() {
            assert(both.take(k) =~= left.take(k));
        } else {
            assert(both.take(k) =~= left + right.take(k - left.len()));
            crate::stream::tape::laws::lemma_depth_sum(left, right.take(k - left.len()));
        }
    }
}

/// No events are level.
pub proof fn lemma_level_none<'a>()
    ensures
        level(Seq::<Event<'a>>::empty()),
{
    let none = Seq::<Event<'a>>::empty();
    assert(none.take(0) =~= none);
}

/// One event nests by what it opens or closes.
pub proof fn lemma_one_depth<'a>(event: Event<'a>)
    ensures
        crate::stream::tape::model::depth_of(seq![event]) == crate::event::net(event),
{
    let one = seq![event];
    crate::stream::tape::laws::lemma_depth_first(one);
    assert(one.skip(1) =~= Seq::empty());
}

/// A collection around a level run is one value.
pub proof fn lemma_collection_is_value<'a>(start: Event<'a>, inner: Seq<Event<'a>>, end: Event<'a>)
    requires
        level(inner),
        crate::event::net(start) == 1,
        crate::event::net(end) == -1,
    ensures
        crate::stream::tape::model::is_value(seq![start] + inner + seq![end]),
{
    let open = seq![start] + inner;
    let events = open + seq![end];
    lemma_one_depth(start);
    lemma_one_depth(end);
    crate::stream::tape::laws::lemma_depth_sum(seq![start], inner);
    crate::stream::tape::laws::lemma_depth_sum(open, seq![end]);
    assert forall|k: int| 0 < k < events.len() implies crate::stream::tape::model::depth_of(
        #[trigger] events.take(k),
    ) > 0 by {
        let part = inner.take(k - 1);
        assert(events.take(k) =~= seq![start] + part);
        crate::stream::tape::laws::lemma_depth_sum(seq![start], part);
    }
}

/// The events of a tree are one value.
pub proof fn law_a_tree_is_one_value<'de>(tree: Tree<'de>)
    requires
        super::tree::nests(tree),
    ensures
        crate::stream::tape::model::is_value(super::tree::events_of(tree)),
        crate::stream::merge::lone_text(super::tree::events_of(tree)) == super::folding::lone(tree),
    decreases tree,
{
    let events = super::tree::events_of(tree);
    match tree {
        Tree::Leaf(event) => {
            lemma_one_depth(event);
        },
        Tree::List { start, items, end } => {
            lemma_items_level(items);
            lemma_collection_is_value(start, super::tree::events_of_items(items), end);
            assert(events[0] == start);
            crate::stream::mapping::laws::lemma_value_starts(events);
        },
        Tree::Table { opens, entries, closes } => {
            lemma_entries_level(entries);
            lemma_collection_is_value(opens, super::tree::events_of_entries(entries), closes);
            assert(events[0] == opens);
            crate::stream::mapping::laws::lemma_value_starts(events);
        },
    }
}

proof fn lemma_items_level<'de>(items: Seq<Tree<'de>>)
    requires
        super::tree::all_nest(items),
    ensures
        level(super::tree::events_of_items(items)),
    decreases items,
{
    if items.len() == 0 {
        lemma_level_none();
    } else {
        law_a_tree_is_one_value(items[0]);
        lemma_value_is_level(super::tree::events_of(items[0]));
        lemma_items_level(items.drop_first());
        lemma_stays_up_sum(
            super::tree::events_of(items[0]),
            super::tree::events_of_items(items.drop_first()),
        );
    }
}

proof fn lemma_entries_level<'de>(entries: Seq<Pair<'de>>)
    requires
        super::tree::all_entries_nest(entries),
    ensures
        level(super::tree::events_of_entries(entries)),
    decreases entries,
{
    if entries.len() == 0 {
        lemma_level_none();
    } else {
        let key = super::tree::events_of(entries[0].0);
        let value = super::tree::events_of(entries[0].1);
        law_a_tree_is_one_value(entries[0].0);
        law_a_tree_is_one_value(entries[0].1);
        lemma_value_is_level(key);
        lemma_value_is_level(value);
        lemma_entries_level(entries.drop_first());
        lemma_stays_up_sum(key, value);
        lemma_stays_up_sum(key + value, super::tree::events_of_entries(entries.drop_first()));
    }
}

// ---- entries as runs ---------------------------------------------------

/// An entry as the runs of its key and its value.
pub open spec fn run_of<'de>(pair: Pair<'de>) -> Entry<'de> {
    (super::tree::events_of(pair.0), super::tree::events_of(pair.1))
}

/// Entries as the runs of their keys and values.
pub open spec fn runs<'de>(entries: Seq<Pair<'de>>) -> Seq<Entry<'de>> {
    entries.map_values(|pair: Pair<'de>| run_of(pair))
}

pub proof fn lemma_runs_sum<'de>(left: Seq<Pair<'de>>, right: Seq<Pair<'de>>)
    ensures
        runs(left + right) == runs(left) + runs(right),
{
    assert(runs(left + right) =~= runs(left) + runs(right));
}

pub proof fn lemma_runs_first<'de>(entries: Seq<Pair<'de>>)
    requires
        entries.len() > 0,
    ensures
        runs(entries).len() == entries.len(),
        runs(entries)[0] == run_of(entries[0]),
        runs(entries).skip(1) == runs(entries.drop_first()),
{
    assert(runs(entries).skip(1) =~= runs(entries.drop_first()));
}

proof fn lemma_laid_out<'de>(entries: Seq<Pair<'de>>)
    ensures
        crate::stream::mapping::laws::laid_out(runs(entries)) == super::tree::events_of_entries(
            entries,
        ),
    decreases entries.len(),
{
    if entries.len() > 0 {
        lemma_runs_first(entries);
        lemma_laid_out(entries.drop_first());
    }
}

/// A merge key is told by its text, in a tree as in a run.
pub proof fn lemma_merge_key<'de>(key: Tree<'de>, merge_keys: bool)
    requires
        super::tree::nests(key),
    ensures
        crate::stream::merge::is_merge_key(super::tree::events_of(key), merge_keys)
            == super::folding::merges(key, merge_keys),
{
    law_a_tree_is_one_value(key);
}

// ---- merge values as runs ----------------------------------------------

/// A merge value contributes, run by run, what it contributes as a tree.
pub proof fn lemma_sources<'de>(value: Tree<'de>, merge_keys: bool)
    requires
        super::tree::nests(value),
        super::folding::spread(value, merge_keys) is Some,
    ensures
        ({
            let given = crate::stream::merge::sources(super::tree::events_of(value), merge_keys);
            &&& given.refused is None
            &&& given.entries == runs(super::folding::spread(value, merge_keys)->0)
        }),
    decreases value, 0int,
{
    match value {
        Tree::Leaf(_) => {},
        Tree::List { start, items, end } => {
            lemma_item_sources(items, merge_keys);
            crate::stream::mapping::laws::law_a_sequence_merges_in_order(
                start,
                item_runs(items),
                end,
                merge_keys,
            );
        },
        Tree::Table { opens, entries, closes } => {
            lemma_entry_sources(entries, merge_keys);
            lemma_laid_out(entries);
            crate::stream::mapping::laws::law_a_source_states_then_inherits(
                opens,
                runs(entries),
                closes,
                merge_keys,
            );
            lemma_runs_sum(
                super::folding::written(entries, merge_keys),
                super::folding::spread_inherited(entries, merge_keys)->0,
            );
        },
    }
}

/// Items as their runs.
spec fn item_runs<'de>(items: Seq<Tree<'de>>) -> Seq<Seq<Event<'de>>> {
    items.map_values(|item: Tree<'de>| super::tree::events_of(item))
}

proof fn lemma_item_sources<'de>(items: Seq<Tree<'de>>, merge_keys: bool)
    requires
        super::tree::all_nest(items),
        super::folding::spread_items(items, merge_keys) is Some,
    ensures
        item_runs(items).flatten() == super::tree::events_of_items(items),
        crate::stream::mapping::laws::mergeable(item_runs(items), merge_keys),
        crate::stream::mapping::laws::all_contributed(item_runs(items), merge_keys) == runs(
            super::folding::spread_items(items, merge_keys)->0,
        ),
    decreases items, 0int,
{
    let all = item_runs(items);
    if items.len() == 0 {
        assert(all.flatten() =~= Seq::empty());
        assert(crate::stream::mapping::laws::all_contributed(all, merge_keys) =~= runs(
            super::folding::spread_items(items, merge_keys)->0,
        ));
    } else {
        let tail = items.drop_first();
        assert(all.drop_first() =~= item_runs(tail));
        assert(all[0] == super::tree::events_of(items[0]));
        lemma_item_sources(tail, merge_keys);
        lemma_sources(items[0], merge_keys);
        law_a_tree_is_one_value(items[0]);
        assert(all[0][0] == items[0]->opens);
        lemma_runs_sum(
            super::folding::spread(items[0], merge_keys)->0,
            super::folding::spread_items(tail, merge_keys)->0,
        );
        assert forall|i: int|
            #![trigger all[i]]
            0 <= i < all.len() implies crate::stream::tape::model::is_value(all[i])
            && crate::stream::merge::starts_mapping(all[i]) && crate::stream::merge::sources(
            all[i],
            merge_keys,
        ).refused is None by {
            if i > 0 {
                assert(all[i] == item_runs(tail)[i - 1]);
            }
        }
    }
}

/// What a mapping states and what its merge values contribute, run by run.
pub proof fn lemma_entry_sources<'de>(entries: Seq<Pair<'de>>, merge_keys: bool)
    requires
        super::tree::all_entries_nest(entries),
        super::folding::spread_inherited(entries, merge_keys) is Some,
    ensures
        crate::stream::mapping::laws::readable(runs(entries), merge_keys),
        crate::stream::mapping::laws::stated(runs(entries), merge_keys) == runs(
            super::folding::written(entries, merge_keys),
        ),
        crate::stream::mapping::laws::contributed(runs(entries), merge_keys) == runs(
            super::folding::spread_inherited(entries, merge_keys)->0,
        ),
    decreases entries, 0int,
{
    let all = runs(entries);
    if entries.len() == 0 {
        assert(crate::stream::mapping::laws::stated(all, merge_keys) =~= runs(
            super::folding::written(entries, merge_keys),
        ));
        assert(crate::stream::mapping::laws::contributed(all, merge_keys) =~= runs(
            super::folding::spread_inherited(entries, merge_keys)->0,
        ));
    } else {
        let tail = entries.drop_first();
        let (key, value) = entries[0];
        lemma_runs_first(entries);
        lemma_entry_sources(tail, merge_keys);
        law_a_tree_is_one_value(key);
        law_a_tree_is_one_value(value);
        lemma_merge_key(key, merge_keys);
        if super::folding::merges(key, merge_keys) {
            lemma_sources(value, merge_keys);
            lemma_runs_sum(
                super::folding::spread(value, merge_keys)->0,
                super::folding::spread_inherited(tail, merge_keys)->0,
            );
        } else {
            assert(runs(seq![entries[0]]) =~= seq![run_of(entries[0])]);
            lemma_runs_sum(seq![entries[0]], super::folding::written(tail, merge_keys));
        }
        assert forall|i: int|
            #![trigger all[i]]
            0 <= i < all.len() implies crate::stream::tape::model::is_value(all[i].0)
            && crate::stream::tape::model::is_value(all[i].1) && (
        crate::stream::merge::is_merge_key(all[i].0, merge_keys) ==> crate::stream::merge::sources(
            all[i].1,
            merge_keys,
        ).refused is None) by {
            if i > 0 {
                assert(all[i] == runs(tail)[i - 1]);
            }
        }
    }
}

} // verus!
