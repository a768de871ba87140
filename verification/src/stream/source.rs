//! Where events come from.

use vstd::prelude::*;

use crate::error::{Error, Failure};
use crate::event::Event;

pub mod laws;

verus! {

/// One item of an event stream, wherever an error's text is stored.
pub open spec fn outcome<'a>(item: Result<Event<'a>, Error>) -> Result<Event<'a>, Failure> {
    match item {
        Ok(event) => Ok(event),
        Err(error) => Err(error@),
    }
}

/// Somewhere events come from.
///
/// An anchored value is read a second time by replaying recorded events, and a
/// merged entry is read out of the mapping it came from: the same traversal over
/// different sources.
pub trait EventSource<'de> {
    /// Whether the source is in working order.
    spec fn inv(&self) -> bool;

    /// Everything the source will still yield.
    spec fn remaining(&self) -> Seq<Result<Event<'de>, Failure>>;

    /// Yields the next event, or `None` once the source is exhausted.
    fn next_event(&mut self) -> (item: Option<Result<Event<'de>, Error>>)
        requires
            old(self).inv(),
        ensures
            final(self).inv(),
            match item {
                None => old(self).remaining().len() == 0 && final(self).remaining().len() == 0,
                Some(i) => old(self).remaining() == seq![outcome(i)] + final(self).remaining(),
            },
    ;
}

/// Turns a list round, so that its first item can be popped off its end.
fn turned<T>(items: Vec<T>) -> (back: Vec<T>)
    ensures
        back@ == items@.reverse(),
{
    let ghost all = items@;
    let mut rest = items;
    let mut back: Vec<T> = Vec::new();
    while rest.len() > 0
        invariant
            rest@.len() + back@.len() == all.len(),
            rest@ == all.take(rest@.len() as int),
            forall|i: int|
                0 <= i < back@.len() ==> #[trigger] back@[i] == all[all.len() - 1 - i],
        decreases rest@.len(),
    {
        if let Some(item) = rest.pop() {
            back.push(item);
        }
    }
    back
}

/// An event source over an already-recorded run of events.
pub struct SliceSource<'de> {
    /// The events still to come, the next one last.
    events: Vec<Event<'de>>,
}

/// A run of events as a source yields it.
pub open spec fn yields<'de>(events: Seq<Event<'de>>) -> Seq<Result<Event<'de>, Failure>> {
    Seq::new(events.len(), |i: int| Ok(events[i]))
}

impl<'de> SliceSource<'de> {
    /// A source over `events`.
    pub fn new(events: Vec<Event<'de>>) -> (source: Self)
        ensures
            source.inv(),
            source.remaining() == yields(events@),
    {
        let ghost all = events@;
        let source = SliceSource { events: turned(events) };
        assert(source.remaining() =~= yields(all));
        source
    }
}

impl<'de> EventSource<'de> for SliceSource<'de> {
    open spec fn inv(&self) -> bool {
        true
    }

    closed spec fn remaining(&self) -> Seq<Result<Event<'de>, Failure>> {
        yields(self.events@.reverse())
    }

    fn next_event(&mut self) -> (item: Option<Result<Event<'de>, Error>>) {
        let ghost before = *self;
        match self.events.pop() {
            Some(event) => {
                let item: Result<Event<'de>, Error> = Ok(event);
                assert(before.remaining() =~= seq![outcome(item)] + self.remaining());
                Some(item)
            },
            None => None,
        }
    }
}

/// An event source over everything a parser has to say: events, and the error that
/// stopped it, if one did.
pub struct ParsedSource<'de> {
    /// The items still to come, the next one last.
    items: Vec<Result<Event<'de>, Error>>,
}

/// What a parser has to say, wherever an error's text is stored.
pub open spec fn outcomes<'de>(items: Seq<Result<Event<'de>, Error>>) -> Seq<
    Result<Event<'de>, Failure>,
> {
    Seq::new(items.len(), |i: int| outcome(items[i]))
}

impl<'de> ParsedSource<'de> {
    /// A source over `items`.
    pub fn new(items: Vec<Result<Event<'de>, Error>>) -> (source: Self)
        ensures
            source.inv(),
            source.remaining() == outcomes(items@),
    {
        let ghost all = items@;
        let source = ParsedSource { items: turned(items) };
        assert(source.remaining() =~= outcomes(all));
        source
    }
}

impl<'de> EventSource<'de> for ParsedSource<'de> {
    open spec fn inv(&self) -> bool {
        true
    }

    closed spec fn remaining(&self) -> Seq<Result<Event<'de>, Failure>> {
        outcomes(self.items@.reverse())
    }

    fn next_event(&mut self) -> (item: Option<Result<Event<'de>, Error>>) {
        let ghost before = *self;
        match self.items.pop() {
            Some(item) => {
                assert(before.remaining() =~= seq![outcome(item)] + self.remaining());
                Some(item)
            },
            None => None,
        }
    }
}

} // verus!
