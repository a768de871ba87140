//! How much of a stream reading a value takes.

use vstd::prelude::*;

use super::{Coming, Start};
use crate::error::DeFailure;
use crate::event::Event;
use crate::stream::mapping::{KeyStep, MapState};
use crate::types::YamlVersion;

verus! {

/// Whether these events stand at the front of a stream, and what follows them.
pub open spec fn leads<'de>(
    coming: Coming<'de>,
    events: Seq<Event<'de>>,
    rest: Coming<'de>,
) -> bool {
    coming == crate::stream::source::yields(events) + rest
}

proof fn lemma_leads_sum<'de>(
    coming: Coming<'de>,
    left: Seq<Event<'de>>,
    middle: Coming<'de>,
    right: Seq<Event<'de>>,
    rest: Coming<'de>,
)
    requires
        leads(coming, left, middle),
        leads(middle, right, rest),
    ensures
        leads(coming, left + right, rest),
{
    assert(coming =~= crate::stream::source::yields(left + right) + rest);
}

proof fn lemma_leads_one<'de>(coming: Coming<'de>, event: Event<'de>)
    requires
        super::ahead(coming) == Ok::<Option<Event<'de>>, DeFailure>(Some(event)),
    ensures
        leads(coming, seq![event], super::beyond(coming)),
{
    assert(coming =~= crate::stream::source::yields(seq![event]) + super::beyond(coming));
}

proof fn lemma_leads_none<'de>(coming: Coming<'de>)
    ensures
        leads(coming, Seq::empty(), coming),
{
    assert(coming =~= crate::stream::source::yields(Seq::empty()) + coming);
}

// ---- capturing ---------------------------------------------------------

proof fn lemma_captured_inside<'de>(coming: Coming<'de>, depth: int)
    requires
        depth > 0,
        super::captured(coming, depth).1 is Ok,
    ensures
        ({
            let (left, got) = super::captured(coming, depth);
            let run = got->Ok_0;
            &&& leads(coming, run, left)
            &&& run.len() > 0
            &&& depth + crate::stream::tape::model::depth_of(run) == 0
            &&& forall|k: int|
                0 <= k < run.len() ==> depth + crate::stream::tape::model::depth_of(
                    #[trigger] run.take(k),
                ) > 0
        }),
    decreases coming.len(),
{
    let (left, got) = super::captured(coming, depth);
    let run = got->Ok_0;
    let event = super::ahead(coming)->Ok_0->0;
    let next = crate::stream::tape::model::deeper(depth, event);
    let one = seq![event];
    lemma_leads_one(coming, event);
    super::runs::lemma_one_depth(event);
    assert(run.take(0) =~= Seq::empty());
    if next != 0 {
        lemma_captured_inside(super::beyond(coming), next);
        let more = super::captured(super::beyond(coming), next).1->Ok_0;
        lemma_leads_sum(coming, one, super::beyond(coming), more, left);
        crate::stream::tape::laws::lemma_depth_sum(one, more);
        assert forall|k: int| 0 <= k < run.len() implies depth
            + crate::stream::tape::model::depth_of(#[trigger] run.take(k)) > 0 by {
            if k > 0 {
                assert(run.take(k) =~= one + more.take(k - 1));
                crate::stream::tape::laws::lemma_depth_sum(one, more.take(k - 1));
            }
        }
    }
}

/// Capturing takes exactly one value off a stream, unless that starts with an end.
pub proof fn law_capturing_takes_one_value<'de>(coming: Coming<'de>)
    requires
        super::captured(coming, 0).1 is Ok,
        crate::event::net(super::captured(coming, 0).1->Ok_0[0]) >= 0,
    ensures
        leads(coming, super::captured(coming, 0).1->Ok_0, super::captured(coming, 0).0),
        crate::stream::tape::model::is_value(super::captured(coming, 0).1->Ok_0),
{
    let (left, got) = super::captured(coming, 0);
    let run = got->Ok_0;
    let event = super::ahead(coming)->Ok_0->0;
    let next = crate::stream::tape::model::deeper(0, event);
    let one = seq![event];
    lemma_leads_one(coming, event);
    super::runs::lemma_one_depth(event);
    if next != 0 {
        lemma_captured_inside(super::beyond(coming), next);
        let more = super::captured(super::beyond(coming), next).1->Ok_0;
        assert(run[0] == event);
        lemma_leads_sum(coming, one, super::beyond(coming), more, left);
        crate::stream::tape::laws::lemma_depth_sum(one, more);
        assert forall|k: int| 0 < k < run.len() implies crate::stream::tape::model::depth_of(
            #[trigger] run.take(k),
        ) > 0 by {
            assert(run.take(k) =~= one + more.take(k - 1));
            crate::stream::tape::laws::lemma_depth_sum(one, more.take(k - 1));
        }
    } else {
        assert(run =~= one);
    }
}

// ---- keys --------------------------------------------------------------

/// What finding a key takes off the stream: whole merge entries, and the mapping's end
/// if no key of its own is left.
proof fn lemma_key_takes<'de>(
    m: MapState<'de>,
    coming: Coming<'de>,
    merge_keys: bool,
) -> (events: Seq<Event<'de>>)
    requires
        !m.draining,
        m.pending is None,
        crate::stream::mapping::next_key(m, coming, merge_keys).2 is Ok,
    ensures
        ({
            let (keyed, at_key, step) = crate::stream::mapping::next_key(m, coming, merge_keys);
            match step->Ok_0 {
                KeyStep::Live => {
                    &&& super::runs::level(events)
                    &&& leads(coming, events, at_key)
                    &&& !keyed.draining
                    &&& keyed.pending is None
                },
                KeyStep::End => closes(coming, events, at_key),
                KeyStep::Recorded(_) => {
                    &&& closes(coming, events, at_key)
                    &&& keyed.draining
                    &&& keyed.pending is Some
                },
            }
        }),
    decreases coming.len(),
{
    let event = super::ahead(coming)->Ok_0->0;
    let after = super::beyond(coming);
    let none = Seq::<Event<'de>>::empty();
    lemma_leads_one(coming, event);
    lemma_leads_none(coming);
    super::runs::lemma_level_none();
    let text = super::event_text(event);
    if super::sort_of(event) == super::Peek::MappingEnd {
        if m.merged.len() > 0 {
            lemma_merged_step(MapState { draining: true, ..m });
        }
        assert(none + seq![event] =~= seq![event]);
        none
    } else if merge_keys && text == Some("<<"@) {
        let (left, got) = super::captured(after, 0);
        let run = got->Ok_0;
        let given = crate::stream::merge::sources(run, merge_keys);
        assert(crate::event::net(run[0]) >= 0);
        law_capturing_takes_one_value(after);
        super::runs::lemma_value_is_level(run);
        let next = MapState { merged: m.merged + given.entries, ..m };
        let more = lemma_key_takes(next, left, merge_keys);
        let (keyed, at_key, step) = crate::stream::mapping::next_key(m, coming, merge_keys);
        let entry = seq![event] + run;
        lemma_leads_sum(coming, seq![event], after, run, left);
        super::runs::lemma_one_depth(event);
        assert(crate::stream::tape::model::is_value(seq![event]));
        super::runs::lemma_value_is_level(seq![event]);
        super::runs::lemma_stays_up_sum(seq![event], run);
        super::runs::lemma_stays_up_sum(entry, more);
        match step->Ok_0 {
            KeyStep::Live => {
                lemma_leads_sum(coming, entry, left, more, at_key);
            },
            _ => {
                lemma_closes_behind(coming, entry, left, more, at_key);
            },
        }
        entry + more
    } else {
        none
    }
}

/// Whether a level run and the end of a mapping stand at the front of a stream.
pub open spec fn closes<'de>(
    coming: Coming<'de>,
    events: Seq<Event<'de>>,
    rest: Coming<'de>,
) -> bool {
    &&& super::runs::level(events)
    &&& exists|end: Event<'de>|
        crate::event::net(end) == -1 && #[trigger] leads(coming, events + seq![end], rest)
}

proof fn lemma_closes_behind<'de>(
    coming: Coming<'de>,
    left: Seq<Event<'de>>,
    middle: Coming<'de>,
    right: Seq<Event<'de>>,
    rest: Coming<'de>,
)
    requires
        super::runs::level(left),
        leads(coming, left, middle),
        closes(middle, right, rest),
    ensures
        closes(coming, left + right, rest),
{
    let end = choose|end: Event<'de>|
        crate::event::net(end) == -1 && #[trigger] leads(middle, right + seq![end], rest);
    lemma_leads_sum(coming, left, middle, right + seq![end], rest);
    super::runs::lemma_stays_up_sum(left, right);
    assert(left + (right + seq![end]) =~= (left + right) + seq![end]);
}

proof fn lemma_merged_step<'de>(m: MapState<'de>)
    requires
        m.draining,
    ensures
        ({
            let (next, step) = crate::stream::mapping::next_merged(m);
            &&& next.draining
            &&& step is Recorded ==> next.pending is Some
            &&& step !is Live
        }),
    decreases m.merged.len(),
{
    if m.merged.len() > 0 {
        lemma_merged_step(MapState { merged: m.merged.skip(1), ..m });
    }
}

// ---- values ------------------------------------------------------------

/// Reading a value takes exactly one value off a stream, and no failure with it.
pub proof fn law_reading_takes_one_value<'de>(
    coming: Coming<'de>,
    version: YamlVersion,
    merge_keys: bool,
    fuel: nat,
) -> (events: Seq<Event<'de>>)
    requires
        super::tree::streamed(coming, version, merge_keys, fuel) is Some,
    ensures
        crate::stream::tape::model::is_value(events),
        leads(coming, events, (super::tree::streamed(coming, version, merge_keys, fuel)->0).1),
    decreases fuel, 0int,
{
    let rest = (super::tree::streamed(coming, version, merge_keys, fuel)->0).1;
    let left = super::beyond(coming);
    let event = super::ahead(coming)->Ok_0->0;
    let one = seq![event];
    let less = (fuel - 1) as nat;
    lemma_leads_one(coming, event);
    super::runs::lemma_one_depth(event);
    match super::started(coming, version) {
        Ok(Start::Scalar(_)) => {
            assert(crate::stream::tape::model::is_value(one));
            one
        },
        Ok(Start::Sequence) => {
            let inner = lemma_items_take(left, version, merge_keys, less);
            lemma_collection_takes(coming, event, left, inner, rest)
        },
        Ok(Start::Mapping) => {
            let inner = lemma_entries_take(
                crate::stream::mapping::unread(),
                left,
                version,
                merge_keys,
                less,
            );
            lemma_collection_takes(coming, event, left, inner, rest)
        },
        Err(_) => one,
    }
}

proof fn lemma_collection_takes<'de>(
    coming: Coming<'de>,
    start: Event<'de>,
    left: Coming<'de>,
    inner: Seq<Event<'de>>,
    rest: Coming<'de>,
) -> (events: Seq<Event<'de>>)
    requires
        crate::event::net(start) == 1,
        leads(coming, seq![start], left),
        closes(left, inner, rest),
    ensures
        crate::stream::tape::model::is_value(events),
        leads(coming, events, rest),
{
    let end = choose|end: Event<'de>|
        crate::event::net(end) == -1 && #[trigger] leads(left, inner + seq![end], rest);
    let events = seq![start] + inner + seq![end];
    super::runs::lemma_collection_is_value(start, inner, end);
    lemma_leads_sum(coming, seq![start], left, inner + seq![end], rest);
    assert(seq![start] + (inner + seq![end]) =~= events);
    events
}

proof fn lemma_items_take<'de>(
    coming: Coming<'de>,
    version: YamlVersion,
    merge_keys: bool,
    fuel: nat,
) -> (events: Seq<Event<'de>>)
    requires
        super::tree::streamed_items(coming, version, merge_keys, fuel) is Some,
    ensures
        closes(
            coming,
            events,
            (super::tree::streamed_items(coming, version, merge_keys, fuel)->0).1,
        ),
    decreases fuel, 0int,
{
    let event = super::ahead(coming)->Ok_0->0;
    let end = (super::tree::streamed_items(coming, version, merge_keys, fuel)->0).1;
    let none = Seq::<Event<'de>>::empty();
    lemma_leads_one(coming, event);
    if super::sort_of(event) == super::Peek::SequenceEnd {
        super::runs::lemma_level_none();
        assert(none + seq![event] =~= seq![event]);
        none
    } else {
        let less = (fuel - 1) as nat;
        let first = law_reading_takes_one_value(coming, version, merge_keys, less);
        let rest = (super::tree::streamed(coming, version, merge_keys, less)->0).1;
        let more = lemma_items_take(rest, version, merge_keys, less);
        super::runs::lemma_value_is_level(first);
        lemma_closes_behind(coming, first, rest, more, end);
        first + more
    }
}

/// What is read where a step says it is takes one value off the stream, or nothing.
proof fn lemma_read_at<'de>(
    run: Option<Seq<Event<'de>>>,
    coming: Coming<'de>,
    version: YamlVersion,
    merge_keys: bool,
    fuel: nat,
) -> (events: Seq<Event<'de>>)
    requires
        super::tree::streamed_at(run, coming, version, merge_keys, fuel) is Some,
    ensures
        super::runs::level(events),
        leads(
            coming,
            events,
            (super::tree::streamed_at(run, coming, version, merge_keys, fuel)->0).1,
        ),
        run is Some ==> (super::tree::streamed_at(run, coming, version, merge_keys, fuel)->0).1
            == coming,
    decreases fuel, 1int,
{
    match run {
        Some(_) => {
            super::runs::lemma_level_none();
            lemma_leads_none(coming);
            Seq::empty()
        },
        None => {
            let events = law_reading_takes_one_value(coming, version, merge_keys, fuel);
            super::runs::lemma_value_is_level(events);
            events
        },
    }
}

proof fn lemma_entries_take<'de>(
    m: MapState<'de>,
    coming: Coming<'de>,
    version: YamlVersion,
    merge_keys: bool,
    fuel: nat,
) -> (events: Seq<Event<'de>>)
    requires
        m.pending is None,
        super::tree::streamed_entries(m, coming, version, merge_keys, fuel) is Some,
    ensures
        ({
            let rest = (super::tree::streamed_entries(
                m,
                coming,
                version,
                merge_keys,
                fuel,
            )->0).1;
            if m.draining {
                rest == coming
            } else {
                closes(coming, events, rest)
            }
        }),
    decreases fuel, 0int,
{
    let end = (super::tree::streamed_entries(m, coming, version, merge_keys, fuel)->0).1;
    let less = (fuel - 1) as nat;
    let (keyed, at_key, step) = crate::stream::mapping::next_key(m, coming, merge_keys);
    let none = Seq::<Event<'de>>::empty();
    let before = if m.draining {
        lemma_merged_step(m);
        none
    } else {
        lemma_key_takes(m, coming, merge_keys)
    };
    let found = step->Ok_0;
    if found is End {
        before
    } else {
        let run = super::tree::key_run(found);
        let key = lemma_read_at(run, at_key, version, merge_keys, less);
        let left = (super::tree::streamed_at(run, at_key, version, merge_keys, less)->0).1;
        let (valued, at_value, place) = crate::stream::mapping::next_value(keyed, left);
        let held = super::tree::value_run(place->Ok_0);
        let value = lemma_read_at(held, at_value, version, merge_keys, less);
        let rest = (super::tree::streamed_at(held, at_value, version, merge_keys, less)->0).1;
        let more = lemma_entries_take(valued, rest, version, merge_keys, less);
        if found is Live {
            lemma_leads_sum(coming, before, at_key, key, left);
            lemma_leads_sum(coming, before + key, left, value, rest);
            super::runs::lemma_stays_up_sum(before, key);
            super::runs::lemma_stays_up_sum(before + key, value);
            lemma_closes_behind(coming, before + key + value, rest, more, end);
            before + key + value + more
        } else {
            before
        }
    }
}

} // verus!
