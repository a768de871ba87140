//! What every source yields.

use vstd::prelude::*;

use crate::error::{Error, Failure};
use crate::event::Event;

verus! {

/// An event is yielded as it is, and an error with its reason and its place.
pub proof fn law_items_are_yielded_as_they_are<'a>(event: Event<'a>, error: Error)
    ensures
        super::outcome(Ok::<Event<'a>, Error>(event)) == Ok::<Event<'a>, Failure>(event),
        super::outcome(Err::<Event<'a>, Error>(error)) == Err::<Event<'a>, Failure>(
            Failure { reason: error.kind@, span: error.span },
        ),
{
}

/// A run of events is yielded one by one, in order, and so is what a parser says.
pub proof fn law_runs_are_yielded_in_order<'a>(
    events: Seq<Event<'a>>,
    items: Seq<Result<Event<'a>, Error>>,
    i: int,
)
    ensures
        super::yields(events).len() == events.len(),
        super::outcomes(items).len() == items.len(),
        0 <= i < events.len() ==> super::yields(events)[i] == Ok::<Event<'a>, Failure>(events[i]),
        0 <= i < items.len() ==> super::outcomes(items)[i] == super::outcome(items[i]),
{
}

} // verus!
