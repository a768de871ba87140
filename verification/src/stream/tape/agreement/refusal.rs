//! What refuses a value on the way.

use vstd::prelude::*;

use super::super::model::TapeState;
use super::super::resolution::Anchored;
use crate::error::Failure;
use crate::event::{Event, EventKind};
use crate::stream::value::tree::Tree;
use crate::types::YamlVersion;

verus! {

/// Whether every beginning of a run, the whole included, is inside an open collection.
pub open spec fn is_inside(events: Seq<Event<'_>>) -> bool {
    forall|k: int|
        0 < k <= events.len() ==> crate::stream::tape::model::depth_of(#[trigger] events.take(k))
            > 0
}

proof fn lemma_inside_stays_up(events: Seq<Event<'_>>)
    requires
        is_inside(events),
    ensures
        crate::stream::value::runs::stays_up(events),
{
    assert(events.take(0) =~= Seq::empty());
}

proof fn lemma_started_is_inside<'a>(start: Event<'a>, inner: Seq<Event<'a>>)
    requires
        crate::event::net(start) == 1,
        crate::stream::value::runs::stays_up(inner),
    ensures
        is_inside(seq![start] + inner),
{
    let events = seq![start] + inner;
    crate::stream::value::runs::lemma_one_depth(start);
    assert forall|k: int| 0 < k <= events.len() implies crate::stream::tape::model::depth_of(
        #[trigger] events.take(k),
    ) > 0 by {
        assert(events.take(k) =~= seq![start] + inner.take(k - 1));
        crate::stream::tape::laws::lemma_depth_sum(seq![start], inner.take(k - 1));
    }
}

/// Whether a value cannot be read to its end: an alias in it is undefined where it
/// stands, or the tape reports a failure before its end.
pub open spec fn falls_short<'a>(out: Option<Seq<Event<'a>>>, s: TapeState<'a>) -> bool {
    match out {
        Some(events) => !crate::stream::tape::expansion::calm(
            crate::stream::tape::model::delivered(s),
            events.len(),
        ),
        None => true,
    }
}

/// The events of a tree with its aliases resolved.
spec fn outcome<'a>(tree: Tree<'a>, anchored: Anchored<'a>) -> Option<Seq<Event<'a>>> {
    match crate::stream::tape::resolution::resolved(tree, anchored) {
        Some((whole, _)) => Some(crate::stream::value::tree::events_of(whole)),
        None => None,
    }
}

spec fn items_outcome<'a>(items: Seq<Tree<'a>>, anchored: Anchored<'a>) -> Option<
    Seq<Event<'a>>,
> {
    match crate::stream::tape::resolution::resolved_items(items, anchored) {
        Some((trees, _)) => Some(crate::stream::value::tree::events_of_items(trees)),
        None => None,
    }
}

spec fn entries_outcome<'a>(
    entries: Seq<(Tree<'a>, Tree<'a>)>,
    anchored: Anchored<'a>,
) -> Option<Seq<Event<'a>>> {
    match crate::stream::tape::resolution::resolved_entries(entries, anchored) {
        Some((trees, _)) => Some(crate::stream::value::tree::events_of_entries(trees)),
        None => None,
    }
}

proof fn lemma_alias_fails<'a>(
    s: TapeState<'a>,
    event: Event<'a>,
    rest: Seq<Result<Event<'a>, Failure>>,
    anchored: Anchored<'a>,
) -> (out: Seq<Event<'a>>)
    requires
        super::ready(s, seq![event], rest, anchored, 0),
        crate::stream::tape::resolution::anchors_nest(anchored),
        event.kind is Alias,
        falls_short(outcome(Tree::Leaf(event), anchored), s),
    ensures
        is_inside(out),
        crate::stream::tape::expansion::fails_after(crate::stream::tape::model::delivered(s), out),
{
    let name = event.kind->name@;
    let none = Seq::<Event<'a>>::empty();
    let all = crate::stream::tape::model::delivered(s);
    assert(s.input[0] == Ok::<Event<'a>, Failure>(event));
    crate::stream::tape::model::lemma_pulled(s);
    crate::stream::tape::model::lemma_next_keeps(s);
    assert(all.take(0) =~= crate::stream::source::yields(none));
    if !anchored.contains_key(name) {
        assert(!s.anchors.contains_key(name));
        crate::stream::tape::laws::law_an_undefined_alias_is_refused(s, event);
        assert(all[0] is Err);
        none
    } else {
        let whole = crate::stream::value::tree::events_of(anchored[name]);
        let taken = crate::stream::tape::model::pulled(s).0;
        let kept = crate::stream::tape::model::recorded(taken, event);
        crate::stream::tape::model::lemma_recorded(taken, event);
        let run = s.anchors[name];
        assert(s.anchors.contains_key(name));
        crate::stream::tape::model::lemma_expanded(kept, Some(run), name, event.span);
        crate::stream::tape::expansion::lemma_written_later(
            s,
            kept,
            run.start as int,
            run.end as int,
        );
        let (next, refused) = crate::stream::tape::model::expanded(
            kept,
            Some(run),
            name,
            event.span,
        );
        if refused is Some {
            assert(all[0] is Err);
            none
        } else {
            assert(crate::stream::tape::model::tape_next(s)
                == crate::stream::tape::model::tape_next(next));
            assert(crate::stream::tape::model::delivered(next) == all);
            assert(next.replaying.last() == run);
            let out = crate::stream::tape::expansion::law_a_failed_replay_stops_on_the_way(next);
            crate::stream::value::runs::law_a_tree_is_one_value(anchored[name]);
            assert forall|k: int| 0 < k <= out.len() implies crate::stream::tape::model::depth_of(
                #[trigger] out.take(k),
            ) > 0 by {
                assert(out.take(k) =~= whole.take(k));
            }
            out
        }
    }
}

/// A value that cannot be read to its end fails inside.
proof fn lemma_tree_fails<'a>(
    tree: Tree<'a>,
    anchored: Anchored<'a>,
    s: TapeState<'a>,
    rest: Seq<Result<Event<'a>, Failure>>,
) -> (out: Seq<Event<'a>>)
    requires
        crate::stream::tape::resolution::grouped(tree),
        crate::stream::tape::resolution::anchors_nest(anchored),
        super::ready(s, crate::stream::value::tree::events_of(tree), rest, anchored, 0),
        falls_short(outcome(tree, anchored), s),
    ensures
        is_inside(out),
        crate::stream::tape::expansion::fails_after(crate::stream::tape::model::delivered(s), out),
    decreases tree,
{
    let all = crate::stream::tape::model::delivered(s);
    match tree {
        Tree::Leaf(event) => match event.kind {
            EventKind::Alias { .. } => lemma_alias_fails(s, event, rest, anchored),
            _ => {
                let t = super::lemma_scalar_read(s, event, rest, anchored, 0);
                lemma_read_is_calm(s, t, seq![event]);
                Seq::empty()
            },
        },
        Tree::List { start, items, end } => {
            let raw = crate::stream::value::tree::events_of_items(items);
            let ending = seq![Ok::<Event<'a>, Failure>(end)] + rest;
            let t = lemma_start_taken(s, start, raw, end, rest, anchored);
            let later = crate::stream::tape::model::delivered(t);
            if !falls_short(items_outcome(items, anchored), t) {
                let (trees, within) = crate::stream::tape::resolution::resolved_items(
                    items,
                    anchored,
                )->0;
                let whole = Tree::List { start, items: trees, end };
                let out = crate::stream::value::tree::events_of_items(trees);
                let u = super::lemma_items_read(items, anchored, t, ending, out.len());
                let v = super::lemma_end_read(whole, within, s, start, t, out, u, end, rest);
                lemma_read_is_calm(s, v, crate::stream::value::tree::events_of(whole));
            }
            let inner = lemma_items_fail(items, anchored, t, ending);
            crate::stream::tape::expansion::lemma_fails_behind(all, seq![start], later, inner);
            lemma_started_is_inside(start, inner);
            seq![start] + inner
        },
        Tree::Table { opens, entries, closes } => {
            let raw = crate::stream::value::tree::events_of_entries(entries);
            let ending = seq![Ok::<Event<'a>, Failure>(closes)] + rest;
            let t = lemma_start_taken(s, opens, raw, closes, rest, anchored);
            let later = crate::stream::tape::model::delivered(t);
            if !falls_short(entries_outcome(entries, anchored), t) {
                let (trees, within) = crate::stream::tape::resolution::resolved_entries(
                    entries,
                    anchored,
                )->0;
                let whole = Tree::Table { opens, entries: trees, closes };
                let out = crate::stream::value::tree::events_of_entries(trees);
                let u = super::lemma_entries_read(entries, anchored, t, ending, out.len());
                let v = super::lemma_end_read(whole, within, s, opens, t, out, u, closes, rest);
                lemma_read_is_calm(s, v, crate::stream::value::tree::events_of(whole));
            }
            let inner = lemma_entries_fail(entries, anchored, t, ending);
            crate::stream::tape::expansion::lemma_fails_behind(all, seq![opens], later, inner);
            lemma_started_is_inside(opens, inner);
            seq![opens] + inner
        },
    }
}

/// What was read came without a failure.
proof fn lemma_read_is_calm<'a>(s: TapeState<'a>, t: TapeState<'a>, out: Seq<Event<'a>>)
    requires
        super::has_read(s, t, out),
    ensures
        crate::stream::tape::expansion::calm(crate::stream::tape::model::delivered(s), out.len()),
{
    crate::stream::tape::expansion::lemma_calm_sum(
        crate::stream::tape::model::delivered(s),
        out,
        crate::stream::tape::model::delivered(t),
        0,
    );
}

/// A collection start is always read.
proof fn lemma_start_taken<'a>(
    s: TapeState<'a>,
    start: Event<'a>,
    inner: Seq<Event<'a>>,
    end: Event<'a>,
    rest: Seq<Result<Event<'a>, Failure>>,
    anchored: Anchored<'a>,
) -> (t: TapeState<'a>)
    requires
        super::ready(s, seq![start] + inner + seq![end], rest, anchored, 0),
        crate::event::net(start) == 1,
    ensures
        super::ready(t, inner, seq![Ok::<Event<'a>, Failure>(end)] + rest, anchored, 0),
        t.depth == s.depth + 1,
        t.anchors == s.anchors,
        super::records(t, s),
        t.open == super::with_scope(s, start),
        t.buffer == (if t.open.len() > 0 {
            s.buffer.push(start)
        } else {
            s.buffer
        }),
        crate::stream::tape::model::delivered(s) == crate::stream::source::yields(seq![start])
            + crate::stream::tape::model::delivered(t),
{
    let later = crate::stream::source::yields(inner) + (seq![Ok::<Event<'a>, Failure>(end)]
        + rest);
    assert(s.input =~= seq![Ok::<Event<'a>, Failure>(start)] + later);
    super::lemma_passed_on(s, start, later);
    let t = crate::stream::tape::model::tape_next(s).0;
    crate::stream::tape::expansion::lemma_calm_sum(
        crate::stream::tape::model::delivered(s),
        seq![start],
        crate::stream::tape::model::delivered(t),
        0,
    );
    super::lemma_start_read(s, start, inner, end, rest, anchored, 0)
}

proof fn lemma_items_fail<'a>(
    items: Seq<Tree<'a>>,
    anchored: Anchored<'a>,
    s: TapeState<'a>,
    rest: Seq<Result<Event<'a>, Failure>>,
) -> (out: Seq<Event<'a>>)
    requires
        crate::stream::tape::resolution::all_grouped(items),
        crate::stream::tape::resolution::anchors_nest(anchored),
        super::ready(s, crate::stream::value::tree::events_of_items(items), rest, anchored, 0),
        falls_short(items_outcome(items, anchored), s),
    ensures
        crate::stream::value::runs::stays_up(out),
        crate::stream::tape::expansion::fails_after(crate::stream::tape::model::delivered(s), out),
    decreases items,
{
    if items.len() == 0 {
        Seq::empty()
    } else {
        let all = crate::stream::tape::model::delivered(s);
        let tail = items.drop_first();
        let raw = (
            crate::stream::value::tree::events_of(items[0]),
            crate::stream::value::tree::events_of_items(tail),
        );
        let later = crate::stream::source::yields(raw.1) + rest;
        super::lemma_ready_first(s, raw, rest, anchored, 0);
        if falls_short(outcome(items[0], anchored), s) {
            let out = lemma_tree_fails(items[0], anchored, s, later);
            lemma_inside_stays_up(out);
            out
        } else {
            let (t, first, next) = lemma_tree_taken(items[0], anchored, s, later);
            let behind = crate::stream::tape::model::delivered(t);
            if !falls_short(items_outcome(tail, next), t) {
                let (trees, _) = crate::stream::tape::resolution::resolved_items(tail, next)->0;
                let whole = (crate::stream::tape::resolution::resolved(items[0], anchored)->0).0;
                assert((seq![whole] + trees).drop_first() =~= trees);
                crate::stream::tape::expansion::lemma_calm_sum(
                    all,
                    first,
                    behind,
                    crate::stream::value::tree::events_of_items(trees).len(),
                );
            }
            let out = lemma_items_fail(tail, next, t, rest);
            crate::stream::tape::expansion::lemma_fails_behind(all, first, behind, out);
            crate::stream::value::runs::lemma_stays_up_sum(first, out);
            first + out
        }
    }
}

/// A value that does not fall short is read to its end.
proof fn lemma_tree_taken<'a>(
    tree: Tree<'a>,
    anchored: Anchored<'a>,
    s: TapeState<'a>,
    rest: Seq<Result<Event<'a>, Failure>>,
) -> (done: (TapeState<'a>, Seq<Event<'a>>, Anchored<'a>))
    requires
        crate::stream::tape::resolution::anchors_nest(anchored),
        super::ready(s, crate::stream::value::tree::events_of(tree), rest, anchored, 0),
        !falls_short(outcome(tree, anchored), s),
    ensures
        crate::stream::tape::resolution::resolved(tree, anchored) is Some,
        done.1 == crate::stream::value::tree::events_of(
            (crate::stream::tape::resolution::resolved(tree, anchored)->0).0,
        ),
        done.2 == (crate::stream::tape::resolution::resolved(tree, anchored)->0).1,
        crate::stream::tape::resolution::anchors_nest(done.2),
        crate::stream::value::runs::level(done.1),
        super::has_read(s, done.0, done.1),
        done.0.input == rest,
        super::knows(done.0, done.2),
{
    let (whole, next) = crate::stream::tape::resolution::resolved(tree, anchored)->0;
    let out = crate::stream::value::tree::events_of(whole);
    let t = super::lemma_tree_read(tree, anchored, s, rest, out.len());
    crate::stream::tape::resolution::lemma_resolved_nests(tree, anchored);
    crate::stream::value::runs::law_a_tree_is_one_value(whole);
    crate::stream::value::runs::lemma_value_is_level(out);
    (t, out, next)
}

proof fn lemma_entries_fail<'a>(
    entries: Seq<(Tree<'a>, Tree<'a>)>,
    anchored: Anchored<'a>,
    s: TapeState<'a>,
    rest: Seq<Result<Event<'a>, Failure>>,
) -> (out: Seq<Event<'a>>)
    requires
        crate::stream::tape::resolution::all_entries_grouped(entries),
        crate::stream::tape::resolution::anchors_nest(anchored),
        super::ready(s, crate::stream::value::tree::events_of_entries(entries), rest, anchored, 0),
        falls_short(entries_outcome(entries, anchored), s),
    ensures
        crate::stream::value::runs::stays_up(out),
        crate::stream::tape::expansion::fails_after(crate::stream::tape::model::delivered(s), out),
    decreases entries,
{
    if entries.len() == 0 {
        Seq::empty()
    } else {
        let all = crate::stream::tape::model::delivered(s);
        let tail = entries.drop_first();
        let keys = crate::stream::value::tree::events_of(entries[0].0);
        let values = crate::stream::value::tree::events_of(entries[0].1);
        let more = crate::stream::value::tree::events_of_entries(tail);
        assert(keys + values + more =~= keys + (values + more));
        super::lemma_ready_first(s, (keys, values + more), rest, anchored, 0);
        let from_value = crate::stream::source::yields(values + more) + rest;
        if falls_short(outcome(entries[0].0, anchored), s) {
            let out = lemma_tree_fails(entries[0].0, anchored, s, from_value);
            lemma_inside_stays_up(out);
            out
        } else {
            let (t, key, next) = lemma_tree_taken(entries[0].0, anchored, s, from_value);
            let after_key = crate::stream::tape::model::delivered(t);
            super::lemma_ready_first(t, (values, more), rest, next, 0);
            let from_tail = crate::stream::source::yields(more) + rest;
            if falls_short(outcome(entries[0].1, next), t) {
                let out = lemma_tree_fails(entries[0].1, next, t, from_tail);
                lemma_inside_stays_up(out);
                crate::stream::tape::expansion::lemma_fails_behind(all, key, after_key, out);
                crate::stream::value::runs::lemma_stays_up_sum(key, out);
                key + out
            } else {
                let (u, value, later) = lemma_tree_taken(entries[0].1, next, t, from_tail);
                super::lemma_read_both(s, t, u, (key, value));
                crate::stream::value::runs::lemma_stays_up_sum(key, value);
                let both = key + value;
                let behind = crate::stream::tape::model::delivered(u);
                if !falls_short(entries_outcome(tail, later), u) {
                    let (trees, _) = crate::stream::tape::resolution::resolved_entries(
                        tail,
                        later,
                    )->0;
                    let first = (
                        (crate::stream::tape::resolution::resolved(entries[0].0, anchored)->0).0,
                        (crate::stream::tape::resolution::resolved(entries[0].1, next)->0).0,
                    );
                    assert((seq![first] + trees).drop_first() =~= trees);
                    crate::stream::tape::expansion::lemma_calm_sum(
                        all,
                        both,
                        behind,
                        crate::stream::value::tree::events_of_entries(trees).len(),
                    );
                }
                let out = lemma_entries_fail(tail, later, u, rest);
                crate::stream::tape::expansion::lemma_fails_behind(all, both, behind, out);
                crate::stream::value::runs::lemma_stays_up_sum(both, out);
                both + out
            }
        }
    }
}

/// What the tree path refuses, the streaming path refuses: a value in which an alias is
/// undefined where it stands is not read, and neither is one before whose end the tape
/// reports a failure.
pub proof fn law_a_failure_refuses_the_value<'a>(
    tree: Tree<'a>,
    s: TapeState<'a>,
    rest: Seq<Result<Event<'a>, Failure>>,
    version: YamlVersion,
    merge_keys: bool,
    fuel: nat,
)
    requires
        crate::stream::tape::resolution::grouped(tree),
        super::about_to_read(s, crate::stream::value::tree::events_of(tree), rest),
        falls_short(
            match crate::stream::tape::resolution::resolved_whole(tree) {
                Some(plain) => Some(crate::stream::value::tree::events_of(plain)),
                None => None,
            },
            s,
        ),
    ensures
        crate::stream::value::tree::streamed(
            crate::stream::tape::model::delivered(s),
            version,
            merge_keys,
            fuel,
        ) is None,
{
    let all = crate::stream::tape::model::delivered(s);
    assert(super::knows(s, Map::empty()));
    let out = lemma_tree_fails(tree, Map::empty(), s, rest);
    if crate::stream::value::tree::streamed(all, version, merge_keys, fuel) is Some {
        let events = crate::stream::value::consumption::law_reading_takes_one_value(
            all,
            version,
            merge_keys,
            fuel,
        );
        if out.len() < events.len() {
            let at = out.len() as int;
            assert(all[at] == crate::stream::source::yields(events)[at]);
        }
        assert(events =~= out.take(events.len() as int)) by {
            assert forall|i: int| 0 <= i < events.len() implies events[i] == out[i] by {
                assert(all[i] == crate::stream::source::yields(events)[i]);
                assert(all.take(out.len() as int)[i] == crate::stream::source::yields(out)[i]);
            }
        }
    }
}

} // verus!
