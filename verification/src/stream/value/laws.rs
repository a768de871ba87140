//! What reading values off a stream promises as a whole.

use vstd::prelude::*;

use super::{Coming, Peek};
use crate::error::{DeFailure, Failure};
use crate::event::Event;
use crate::types::YamlVersion;

verus! {

/// A stream that ends inside a value is an error wherever it ends: it never passes for
/// a complete collection, nor for a value.
pub proof fn law_truncation_is_an_error<'de>(
    version: YamlVersion,
    map: crate::stream::mapping::MapState<'de>,
    merge_keys: bool,
)
    requires
        !map.draining,
        map.pending is None,
    ensures
        super::started(Seq::<Result<Event<'de>, Failure>>::empty(), version) is Err,
        super::element(Seq::<Result<Event<'de>, Failure>>::empty()).1 is Err,
        super::captured(Seq::<Result<Event<'de>, Failure>>::empty(), 0).1 is Err,
        crate::stream::mapping::next_key(map, Seq::empty(), merge_keys).2 is Err,
        crate::stream::mapping::next_value(map, Seq::empty()).2 is Err,
{
}

/// Skipping steps over framing and stops at the first event that is not framing.
pub proof fn law_skipping_stops_at_the_first_value<'de>(
    framing: Seq<Event<'de>>,
    value: Event<'de>,
    more: Coming<'de>,
)
    requires
        forall|i: int|
            0 <= i < framing.len() ==> super::sort_of(#[trigger] framing[i]) == Peek::Framing,
        super::sort_of(value) != Peek::Framing,
    ensures
        super::past_framing(
            crate::stream::source::yields(framing) + (seq![Ok(value)] + more),
        ) == (seq![Ok::<Event<'de>, Failure>(value)] + more, None::<DeFailure>),
    decreases framing.len(),
{
    let rest: Coming<'de> = seq![Ok(value)] + more;
    let coming = crate::stream::source::yields(framing) + rest;
    if framing.len() == 0 {
        assert(coming =~= rest);
        assert(rest[0] == Ok::<Event<'de>, Failure>(value));
    } else {
        let tail = framing.skip(1);
        assert(coming[0] == Ok::<Event<'de>, Failure>(framing[0]));
        assert(super::beyond(coming) =~= crate::stream::source::yields(tail) + rest);
        assert forall|i: int| 0 <= i < tail.len() implies super::sort_of(#[trigger] tail[i])
            == Peek::Framing by {
            assert(tail[i] == framing[i + 1]);
        }
        law_skipping_stops_at_the_first_value(tail, value, more);
    }
}

/// A stream of nothing but framing is skipped to its end.
pub proof fn law_skipping_reaches_the_end<'de>(framing: Seq<Event<'de>>)
    requires
        forall|i: int|
            0 <= i < framing.len() ==> super::sort_of(#[trigger] framing[i]) == Peek::Framing,
    ensures
        super::past_framing(crate::stream::source::yields(framing)) == (
            Seq::<Result<Event<'de>, Failure>>::empty(),
            None::<DeFailure>,
        ),
    decreases framing.len(),
{
    let coming = crate::stream::source::yields(framing);
    if framing.len() == 0 {
        assert(coming =~= Seq::empty());
    } else {
        let tail = framing.skip(1);
        assert(coming[0] == Ok::<Event<'de>, Failure>(framing[0]));
        assert(super::beyond(coming) =~= crate::stream::source::yields(tail));
        assert forall|i: int| 0 <= i < tail.len() implies super::sort_of(#[trigger] tail[i])
            == Peek::Framing by {
            assert(tail[i] == framing[i + 1]);
        }
        law_skipping_reaches_the_end(tail);
    }
}

/// The elements of a sequence, read to its end by a consumer that takes every element
/// whole; none if a step fails or `fuel` elements are not enough.
pub open spec fn read_elements<'de>(coming: Coming<'de>, fuel: nat) -> Option<
    (Seq<Seq<Event<'de>>>, Coming<'de>),
>
    decreases fuel,
{
    let (left, follows) = super::element(coming);
    match follows {
        Err(_) => None,
        Ok(false) => Some((Seq::empty(), left)),
        Ok(true) => if fuel == 0 {
            None
        } else {
            let (rest, first) = super::captured(left, 0);
            match (first, read_elements(rest, (fuel - 1) as nat)) {
                (Ok(run), Some((more, end))) => Some((seq![run] + more, end)),
                _ => None,
            }
        },
    }
}

/// A sequence has exactly the elements that are written, in order, and reading it
/// leaves what follows its end.
pub proof fn law_a_sequence_has_the_elements_written<'de>(
    elements: Seq<Seq<Event<'de>>>,
    end: Event<'de>,
    more: Coming<'de>,
    fuel: nat,
)
    requires
        end.kind is SequenceEnd,
        forall|i: int|
            0 <= i < elements.len() ==> crate::stream::tape::model::is_value(
                #[trigger] elements[i],
            ),
        fuel >= elements.len(),
    ensures
        read_elements(
            crate::stream::source::yields(elements.flatten()) + (seq![Ok(end)] + more),
            fuel,
        ) == Some((elements, more)),
    decreases elements.len(),
{
    let closing: Coming<'de> = seq![Ok(end)] + more;
    let coming = crate::stream::source::yields(elements.flatten()) + closing;
    if elements.len() == 0 {
        assert(coming =~= closing);
        assert(closing[0] == Ok::<Event<'de>, Failure>(end));
        assert(super::beyond(closing) =~= more);
        assert(elements =~= Seq::empty());
    } else {
        let first = elements[0];
        let tail = elements.drop_first();
        let rest: Coming<'de> = crate::stream::source::yields(tail.flatten()) + closing;
        assert(elements.flatten() == first + tail.flatten());
        assert(coming =~= crate::stream::source::yields(first) + rest);
        assert(coming[0] == Ok::<Event<'de>, Failure>(first[0]));
        crate::stream::mapping::laws::lemma_value_starts(first);
        crate::stream::mapping::laws::law_capturing_reads_one_value(first, rest);
        assert forall|i: int| 0 <= i < tail.len() implies crate::stream::tape::model::is_value(
            #[trigger] tail[i],
        ) by {
            assert(tail[i] == elements[i + 1]);
        }
        law_a_sequence_has_the_elements_written(tail, end, more, (fuel - 1) as nat);
        assert(seq![first] + tail =~= elements);
    }
}

} // verus!
