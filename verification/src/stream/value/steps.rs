//! What each step of reading does with the next event, said over the kind of that event.

use vstd::prelude::*;

use super::{Coming, Peek, Start};
use crate::error::{DeFailure, Failure};
use crate::event::{Event, EventKind};
use crate::stream::mapping::{KeyStep, MapState, ValueStep};
use crate::stream::scalar::ScalarDeserializer;
use crate::types::YamlVersion;

verus! {

/// An end is an end, stream and document marks are framing, and everything else is a
/// value, whatever it carries.
pub proof fn law_events_are_sorted_by_kind(event: Event<'_>)
    ensures
        super::sort_of(event) == Peek::SequenceEnd <==> event.kind is SequenceEnd,
        super::sort_of(event) == Peek::MappingEnd <==> event.kind is MappingEnd,
        super::sort_of(event) == Peek::Framing <==> event.kind is StreamStart
            || event.kind is StreamEnd || event.kind is DocumentStart || event.kind is DocumentEnd,
        super::sort_of(event) == Peek::Value <==> event.kind is Scalar || event.kind is Alias
            || event.kind is SequenceStart || event.kind is MappingStart,
{
}

/// Looking at an event leaves it where it is, and consuming it leaves what follows.
pub proof fn law_looking_consumes_nothing<'de>(event: Event<'de>, more: Coming<'de>)
    ensures
        ({
            let coming: Coming<'de> = seq![Ok(event)] + more;
            &&& super::ahead(coming) == Ok::<Option<Event<'de>>, DeFailure>(Some(event))
            &&& super::beyond(coming) == more
            &&& super::looked(coming) == coming
        }),
        super::ahead(Seq::<Result<Event<'de>, Failure>>::empty()) == Ok::<
            Option<Event<'de>>,
            DeFailure,
        >(None),
        super::beyond(Seq::<Result<Event<'de>, Failure>>::empty()) == Seq::<
            Result<Event<'de>, Failure>,
        >::empty(),
        super::looked(Seq::<Result<Event<'de>, Failure>>::empty()) == Seq::<
            Result<Event<'de>, Failure>,
        >::empty(),
{
    let coming: Coming<'de> = seq![Ok(event)] + more;
    assert(coming.skip(1) =~= more);
}

/// A value starts as its first event says: a scalar is handed on with its value, its style
/// and its tag, and anything that starts no value is refused by its name.
pub proof fn law_a_value_starts_as_its_event_says<'de>(
    event: Event<'de>,
    more: Coming<'de>,
    version: YamlVersion,
)
    ensures
        super::started(seq![Ok(event)] + more, version) == (match event.kind {
            EventKind::Scalar { value, style, anchor, tag } => Ok::<Start<'de>, DeFailure>(
                Start::Scalar(ScalarDeserializer { value, style, tag, version }),
            ),
            EventKind::SequenceStart { .. } => Ok(Start::Sequence),
            EventKind::MappingStart { .. } => Ok(Start::Mapping),
            other => Err(DeFailure::Message("expected a value, found "@ + other.label())),
        }),
{
}

/// Inside a sequence its end ends it and is consumed; the end of a mapping is refused; any
/// other event is the start of an element and stays where it is.
pub proof fn law_a_sequence_goes_on_to_its_end<'de>(event: Event<'de>, more: Coming<'de>)
    ensures
        ({
            let coming: Coming<'de> = seq![Ok(event)] + more;
            super::element(coming) == if event.kind is SequenceEnd {
                (more, Ok::<bool, DeFailure>(false))
            } else if event.kind is MappingEnd {
                (
                    coming,
                    Err::<bool, DeFailure>(
                        DeFailure::Message(
                            "mapping end inside a sequence: the event stream is malformed"@,
                        ),
                    ),
                )
            } else {
                (coming, Ok::<bool, DeFailure>(true))
            }
        }),
{
    let coming: Coming<'de> = seq![Ok(event)] + more;
    assert(coming.skip(1) =~= more);
}

/// Inside a mapping its end ends it and is consumed, as long as nothing was merged; the end
/// of a sequence is refused; any other event is the start of a key. Without merge keys it
/// changes nothing of the mapping, and neither does a key that is no scalar.
pub proof fn law_a_mapping_goes_on_to_its_end<'de>(
    m: MapState<'de>,
    event: Event<'de>,
    more: Coming<'de>,
    merge_keys: bool,
)
    requires
        !m.draining,
        m.merged.len() == 0,
    ensures
        ({
            let coming: Coming<'de> = seq![Ok(event)] + more;
            let next = crate::stream::mapping::next_key(m, coming, merge_keys);
            &&& event.kind is MappingEnd ==> next == (
                m,
                more,
                Ok::<KeyStep<'de>, DeFailure>(KeyStep::End),
            )
            &&& event.kind is SequenceEnd ==> next == (
                m,
                coming,
                Err::<KeyStep<'de>, DeFailure>(
                    DeFailure::Message(
                        "sequence end inside a mapping: the event stream is malformed"@,
                    ),
                ),
            )
            &&& !(event.kind is MappingEnd || event.kind is SequenceEnd) && (!merge_keys
                || !(event.kind is Scalar)) ==> next == (
                m,
                coming,
                Ok::<KeyStep<'de>, DeFailure>(KeyStep::Live),
            )
            &&& merge_keys && (event.kind matches EventKind::Scalar { value, .. } && value@ != "<<"@)
                ==> next == (
                MapState { seen: m.seen.insert(event.kind->value@), ..m },
                coming,
                Ok::<KeyStep<'de>, DeFailure>(KeyStep::Live),
            )
        }),
{
    let coming: Coming<'de> = seq![Ok(event)] + more;
    assert(coming.skip(1) =~= more);
}

/// The value of a key that was handed out of a merge is the one put by with it; any other
/// stands in the stream, and stays there.
pub proof fn law_the_value_follows_its_key<'de>(
    m: MapState<'de>,
    event: Event<'de>,
    more: Coming<'de>,
)
    ensures
        ({
            let coming: Coming<'de> = seq![Ok(event)] + more;
            let next = crate::stream::mapping::next_value(m, coming);
            match m.pending {
                Some(run) => next == (
                    MapState { pending: None, ..m },
                    coming,
                    Ok::<ValueStep<'de>, DeFailure>(ValueStep::Recorded(run)),
                ),
                None => next == (m, coming, Ok::<ValueStep<'de>, DeFailure>(ValueStep::Live)),
            }
        }),
{
}

/// A failure of the source is reported by whatever step meets it, as it is, and once: it
/// is gone from the stream.
pub proof fn law_a_failure_is_reported_once<'de>(
    failure: Failure,
    more: Coming<'de>,
    m: MapState<'de>,
    version: YamlVersion,
    merge_keys: bool,
    depth: int,
)
    requires
        !m.draining,
        m.pending is None,
    ensures
        ({
            let coming: Coming<'de> = seq![Err(failure)] + more;
            let refusal = DeFailure::Core(failure);
            &&& super::looked(coming) == more
            &&& super::beyond(coming) == more
            &&& super::started(coming, version) == Err::<Start<'de>, DeFailure>(refusal)
            &&& super::element(coming) == (more, Err::<bool, DeFailure>(refusal))
            &&& super::captured(coming, depth) == (
                more,
                Err::<Seq<Event<'de>>, DeFailure>(refusal),
            )
            &&& super::past_framing(coming) == (more, Some(refusal))
            &&& crate::stream::mapping::next_key(m, coming, merge_keys) == (
                m,
                more,
                Err::<KeyStep<'de>, DeFailure>(refusal),
            )
            &&& crate::stream::mapping::next_value(m, coming) == (
                m,
                more,
                Err::<ValueStep<'de>, DeFailure>(refusal),
            )
        }),
{
    let coming: Coming<'de> = seq![Err(failure)] + more;
    assert(coming.skip(1) =~= more);
}

/// Where the stream ends too early, the step that meets the end says what was missing.
pub proof fn law_an_early_end_says_what_was_missing<'de>(
    m: MapState<'de>,
    version: YamlVersion,
    merge_keys: bool,
    depth: int,
)
    requires
        !m.draining,
        m.pending is None,
    ensures
        ({
            let end = "unexpected end of input: "@;
            let none = Seq::<Result<Event<'de>, Failure>>::empty();
            &&& super::started(none, version) == Err::<Start<'de>, DeFailure>(
                DeFailure::Message(end + "expected a value"@),
            )
            &&& super::element(none) == (
                none,
                Err::<bool, DeFailure>(DeFailure::Message(end + "sequence not terminated"@)),
            )
            &&& super::captured(none, depth) == (
                none,
                Err::<Seq<Event<'de>>, DeFailure>(
                    DeFailure::Message(end + "merge value is incomplete"@),
                ),
            )
            &&& super::past_framing(none) == (none, None::<DeFailure>)
            &&& crate::stream::mapping::next_key(m, none, merge_keys) == (
                m,
                none,
                Err::<KeyStep<'de>, DeFailure>(
                    DeFailure::Message(end + "mapping not terminated"@),
                ),
            )
            &&& crate::stream::mapping::next_value(m, none) == (
                m,
                none,
                Err::<ValueStep<'de>, DeFailure>(
                    DeFailure::Message(end + "mapping key has no value"@),
                ),
            )
        }),
{
    reveal_strlit("unexpected end of input: ");
    reveal_strlit("expected a value");
    reveal_strlit("unexpected end of input: expected a value");
    reveal_strlit("sequence not terminated");
    reveal_strlit("unexpected end of input: sequence not terminated");
    reveal_strlit("merge value is incomplete");
    reveal_strlit("unexpected end of input: merge value is incomplete");
    reveal_strlit("mapping not terminated");
    reveal_strlit("unexpected end of input: mapping not terminated");
    reveal_strlit("mapping key has no value");
    reveal_strlit("unexpected end of input: mapping key has no value");
    let end = "unexpected end of input: "@;
    assert("unexpected end of input: expected a value"@ =~= end + "expected a value"@);
    assert("unexpected end of input: sequence not terminated"@ =~= end
        + "sequence not terminated"@);
    assert("unexpected end of input: merge value is incomplete"@ =~= end
        + "merge value is incomplete"@);
    assert("unexpected end of input: mapping not terminated"@ =~= end + "mapping not terminated"@);
    assert("unexpected end of input: mapping key has no value"@ =~= end
        + "mapping key has no value"@);
}

/// Skipping steps over stream and document marks, one by one, and stays before anything
/// else, whatever comes behind.
pub proof fn law_skipping_goes_mark_by_mark<'de>(event: Event<'de>, more: Coming<'de>)
    ensures
        super::past_framing(seq![Ok(event)] + more) == if event.kind is StreamStart
            || event.kind is StreamEnd || event.kind is DocumentStart
            || event.kind is DocumentEnd {
            super::past_framing(more)
        } else {
            (seq![Ok::<Event<'de>, Failure>(event)] + more, None::<DeFailure>)
        },
{
    let coming: Coming<'de> = seq![Ok(event)] + more;
    assert(coming[0] == Ok::<Event<'de>, Failure>(event));
    assert(coming.skip(1) =~= more);
}

// ---- whole values ------------------------------------------------------

/// A start goes one level deeper and an end one level up, but never above the top; any
/// other event stays on its level.
pub proof fn law_depth_follows_starts_and_ends(depth: int, event: Event<'_>)
    requires
        0 <= depth,
    ensures
        crate::stream::tape::model::deeper(depth, event) == if event.kind is SequenceStart
            || event.kind is MappingStart {
            depth + 1
        } else if (event.kind is SequenceEnd || event.kind is MappingEnd) && depth > 0 {
            depth - 1
        } else {
            depth
        },
{
}

/// Capturing a value takes its first event, and all that follows up to where the nesting is
/// back at the top; a failure or an early end on the way takes its place. An event that
/// starts no collection is a value by itself.
pub proof fn law_capturing_goes_event_by_event<'de>(
    event: Event<'de>,
    more: Coming<'de>,
    depth: int,
)
    requires
        0 <= depth,
    ensures
        ({
            let coming: Coming<'de> = seq![Ok(event)] + more;
            let next = crate::stream::tape::model::deeper(depth, event);
            super::captured(coming, depth) == if next == 0 {
                (more, Ok::<Seq<Event<'de>>, DeFailure>(seq![event]))
            } else {
                (
                    super::captured(more, next).0,
                    match super::captured(more, next).1 {
                        Ok(events) => Ok::<Seq<Event<'de>>, DeFailure>(seq![event] + events),
                        Err(f) => Err::<Seq<Event<'de>>, DeFailure>(f),
                    },
                )
            }
        }),
        !(event.kind is SequenceStart || event.kind is MappingStart) ==> super::captured(
            seq![Ok(event)] + more,
            0,
        ) == (more, Ok::<Seq<Event<'de>>, DeFailure>(seq![event])),
{
    let coming: Coming<'de> = seq![Ok(event)] + more;
    assert(coming.skip(1) =~= more);
}

/// Measuring a value counts its first event, and all that follows up to where the nesting is
/// back at the top. An event that starts no collection is a value by itself, and nothing is
/// no value.
pub proof fn law_measuring_goes_event_by_event<'de>(
    event: Event<'de>,
    more: Seq<Event<'de>>,
    depth: int,
)
    requires
        0 <= depth,
    ensures
        ({
            let next = crate::stream::tape::model::deeper(depth, event);
            crate::stream::merge::extent_from(seq![event] + more, depth) == if next == 0 {
                1
            } else {
                1 + crate::stream::merge::extent_from(more, next)
            }
        }),
        crate::stream::merge::extent_from(Seq::<Event<'de>>::empty(), depth) == 0,
        !(event.kind is SequenceStart || event.kind is MappingStart)
            ==> crate::stream::merge::extent(seq![event] + more) == 1,
        crate::stream::merge::head(more) + crate::stream::merge::rest(more) == more,
        crate::stream::merge::head(more).len() == crate::stream::merge::extent(more),
{
    assert((seq![event] + more).skip(1) =~= more);
    crate::stream::merge::lemma_extent(more, 0);
    assert(crate::stream::merge::head(more) + crate::stream::merge::rest(more) =~= more);
}

/// A run whose nesting never comes back to the top is one unfinished value: measuring it
/// finds all of it.
pub proof fn law_an_unfinished_value_is_the_whole_run(events: Seq<Event<'_>>)
    requires
        forall|k: int|
            0 < k <= events.len() ==> crate::stream::tape::model::depth_of(
                #[trigger] events.take(k),
            ) > 0,
    ensures
        crate::stream::merge::extent(events) == events.len(),
        crate::stream::merge::rest(events).len() == 0,
{
    assert(events.skip(0) =~= events);
    assert(events.take(0) =~= Seq::empty());
    lemma_unfinished(events, 0);
}

proof fn lemma_unfinished(events: Seq<Event<'_>>, k: int)
    requires
        0 <= k <= events.len(),
        forall|j: int|
            0 < j <= events.len() ==> crate::stream::tape::model::depth_of(
                #[trigger] events.take(j),
            ) > 0,
    ensures
        crate::stream::merge::extent_from(
            events.skip(k),
            crate::stream::tape::model::depth_of(events.take(k)),
        ) == events.len() - k,
    decreases events.len() - k,
{
    if k == 0 {
        assert(events.take(0) =~= Seq::empty());
    }
    if k < events.len() {
        let left = events.skip(k);
        assert(left[0] == events[k]);
        assert(left.skip(1) =~= events.skip(k + 1));
        assert(events.take(k + 1).drop_last() =~= events.take(k));
        assert(events.take(k + 1).last() == events[k]);
        assert(crate::stream::tape::model::depth_of(events.take(k + 1)) > 0);
        lemma_unfinished(events, k + 1);
    }
}

} // verus!
