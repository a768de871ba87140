//! Reading values of any shape out of an event stream.
//!
//! The traversal is split into steps. Each one looks at the next events, consumes
//! what it has to, and says what comes next; a consumer builds its value from those
//! answers.

use vstd::prelude::*;
use vstd::string::*;

use crate::error::{DeError, DeFailure, Failure};
use crate::event::{Event, EventKind};
use crate::stream::scalar::ScalarDeserializer;
use crate::stream::source::EventSource;
use crate::text::cow_str;
use crate::types::YamlVersion;

pub mod consumption;
pub mod folding;
pub mod laws;
pub mod runs;
pub mod steps;
pub mod tree;

verus! {

// ---- the model ---------------------------------------------------------

/// What the next event is.
#[derive(Debug, Clone, Copy, PartialEq, Eq, Structural)]
pub enum Peek {
    /// The end of a sequence.
    SequenceEnd,
    /// The end of a mapping.
    MappingEnd,
    /// Stream or document framing, which wraps values rather than being one.
    Framing,
    /// Anything else.
    Value,
}

/// What an event is.
pub open spec fn sort_of(event: Event<'_>) -> Peek {
    match event.kind {
        EventKind::SequenceEnd => Peek::SequenceEnd,
        EventKind::MappingEnd => Peek::MappingEnd,
        EventKind::StreamStart => Peek::Framing,
        EventKind::StreamEnd => Peek::Framing,
        EventKind::DocumentStart { .. } => Peek::Framing,
        EventKind::DocumentEnd { .. } => Peek::Framing,
        _ => Peek::Value,
    }
}

/// The events still to come from a source.
pub type Coming<'de> = Seq<Result<Event<'de>, Failure>>;

/// The next event: none at the end, a refusal where the source failed.
pub open spec fn ahead<'de>(coming: Coming<'de>) -> Result<Option<Event<'de>>, DeFailure> {
    if coming.len() == 0 {
        Ok(None)
    } else {
        match coming[0] {
            Ok(event) => Ok(Some(event)),
            Err(f) => Err(DeFailure::Core(f)),
        }
    }
}

/// What is left once the next event is consumed.
pub open spec fn beyond<'de>(coming: Coming<'de>) -> Coming<'de> {
    if coming.len() == 0 {
        coming
    } else {
        coming.skip(1)
    }
}

/// What is left once the next event is looked at: a failure is reported once.
pub open spec fn looked<'de>(coming: Coming<'de>) -> Coming<'de> {
    if ahead(coming) is Err {
        beyond(coming)
    } else {
        coming
    }
}

/// The text of an event that is a scalar.
pub open spec fn event_text(event: Event<'_>) -> Option<Seq<char>> {
    match event.kind {
        EventKind::Scalar { value, .. } => Some(value@),
        _ => None,
    }
}

/// Reads one complete value that is `depth` collections deep already: what is left
/// of the stream, and the events of the value.
pub open spec fn captured<'de>(coming: Coming<'de>, depth: int) -> (
    Coming<'de>,
    Result<Seq<Event<'de>>, DeFailure>,
)
    decreases coming.len(),
{
    match ahead(coming) {
        Err(f) => (beyond(coming), Err(f)),
        Ok(None) => (
            coming,
            Err(DeFailure::Message("unexpected end of input: merge value is incomplete"@)),
        ),
        Ok(Some(event)) => {
            let next = crate::stream::tape::model::deeper(depth, event);
            if next == 0 {
                (beyond(coming), Ok(seq![event]))
            } else {
                let (left, more) = captured(beyond(coming), next);
                match more {
                    Ok(events) => (left, Ok(seq![event] + events)),
                    Err(f) => (left, Err(f)),
                }
            }
        },
    }
}

/// Steps over stream and document framing: what is left, and the failure met on the
/// way.
pub open spec fn past_framing<'de>(coming: Coming<'de>) -> (Coming<'de>, Option<DeFailure>)
    decreases coming.len(),
{
    match ahead(coming) {
        Err(f) => (beyond(coming), Some(f)),
        Ok(None) => (coming, None),
        Ok(Some(event)) => if sort_of(event) == Peek::Framing {
            past_framing(beyond(coming))
        } else {
            (coming, None)
        },
    }
}

/// How a value begins.
#[derive(Debug, PartialEq, Eq)]
pub enum Start<'de> {
    /// It is a scalar, and complete.
    Scalar(ScalarDeserializer<'de>),
    /// It is a sequence; its elements follow.
    Sequence,
    /// It is a mapping; its entries follow.
    Mapping,
}

/// How the value of an event begins.
pub open spec fn start_of<'de>(event: Event<'de>, version: YamlVersion) -> Result<
    Start<'de>,
    DeFailure,
> {
    match event.kind {
        EventKind::Scalar { value, style, anchor, tag } => Ok(
            Start::Scalar(ScalarDeserializer { value, style, tag, version }),
        ),
        EventKind::SequenceStart { .. } => Ok(Start::Sequence),
        EventKind::MappingStart { .. } => Ok(Start::Mapping),
        other => Err(DeFailure::Message("expected a value, found "@ + other.label())),
    }
}

/// How the next value begins.
pub open spec fn started<'de>(coming: Coming<'de>, version: YamlVersion) -> Result<
    Start<'de>,
    DeFailure,
> {
    match ahead(coming) {
        Err(f) => Err(f),
        Ok(None) => Err(DeFailure::Message("unexpected end of input: expected a value"@)),
        Ok(Some(event)) => start_of(event, version),
    }
}

/// Inside a sequence: what is left of the stream, and whether an element follows.
pub open spec fn element<'de>(coming: Coming<'de>) -> (Coming<'de>, Result<bool, DeFailure>) {
    match ahead(coming) {
        Err(f) => (beyond(coming), Err(f)),
        Ok(None) => (
            coming,
            Err(DeFailure::Message("unexpected end of input: sequence not terminated"@)),
        ),
        Ok(Some(event)) => match sort_of(event) {
            Peek::SequenceEnd => (beyond(coming), Ok(false)),
            Peek::MappingEnd => (
                coming,
                Err(
                    DeFailure::Message(
                        "mapping end inside a sequence: the event stream is malformed"@,
                    ),
                ),
            ),
            _ => (coming, Ok(true)),
        },
    }
}

// ---- reading -----------------------------------------------------------

/// Reads the next value from a stream of parser events.
pub struct EventDeserializer<'a, 'de, S: EventSource<'de>> {
    source: &'a mut S,
    version: YamlVersion,
    /// Expand `<<` merge keys. Off by default: strict YAML 1.2 has no merge key.
    merge_keys: bool,
    /// One event of lookahead, so a collection can ask "is this my end?" without
    /// consuming an element it would then have to put back.
    peeked: Option<Event<'de>>,
}

impl<'a, 'de, S: EventSource<'de>> EventDeserializer<'a, 'de, S> {
    /// The events still to come.
    pub closed spec fn coming(&self) -> Coming<'de> {
        match self.peeked {
            Some(event) => seq![Ok(event)] + self.source.remaining(),
            None => self.source.remaining(),
        }
    }

    /// Whether the source is in working order.
    pub closed spec fn works(&self) -> bool {
        self.source.inv()
    }

    /// The version scalars are read under.
    pub closed spec fn reads_as(&self) -> YamlVersion {
        self.version
    }

    /// Whether `<<` merge keys are expanded.
    pub closed spec fn merges(&self) -> bool {
        self.merge_keys
    }

    /// What every step leaves as it was.
    pub open spec fn continues(&self, before: &Self) -> bool {
        self.works() && self.reads_as() == before.reads_as() && self.merges() == before.merges()
    }

    /// Reads from `source`.
    pub fn new(source: &'a mut S, version: YamlVersion, merge_keys: bool) -> (de: Self)
        requires
            old(source).inv(),
        ensures
            de.works(),
            de.coming() == old(source).remaining(),
            de.reads_as() == version,
            de.merges() == merge_keys,
    {
        EventDeserializer { source, version, merge_keys, peeked: None }
    }

    /// The version scalars are read under.
    pub fn version(&self) -> (version: YamlVersion)
        ensures
            version == self.reads_as(),
    {
        self.version
    }

    /// Whether `<<` merge keys are expanded.
    pub fn merge_keys(&self) -> (merges: bool)
        ensures
            merges == self.merges(),
    {
        self.merge_keys
    }

    /// Ensures the lookahead slot holds the next event, if the stream has one.
    fn fill(&mut self) -> (filled: Result<(), DeError>)
        requires
            old(self).works(),
        ensures
            final(self).continues(old(self)),
            final(self).coming() == looked(old(self).coming()),
            match filled {
                Ok(()) => ahead(old(self).coming()) == Ok::<Option<Event<'de>>, DeFailure>(
                    final(self).peeked,
                ),
                Err(e) => ahead(old(self).coming()) == Err::<Option<Event<'de>>, DeFailure>(e@),
            },
    {
        if self.peeked.is_none() {
            let ghost before = self.coming();
            match self.source.next_event() {
                None => {},
                Some(Ok(event)) => {
                    self.peeked = Some(event);
                },
                Some(Err(error)) => {
                    assert(before.skip(1) =~= self.coming());
                    return Err(DeError::Core(error));
                },
            }
            assert(self.coming() =~= before);
        }
        Ok(())
    }

    /// Pulls the next event, honouring the lookahead slot.
    pub fn take(&mut self) -> (taken: Result<Option<Event<'de>>, DeError>)
        requires
            old(self).works(),
        ensures
            final(self).continues(old(self)),
            final(self).coming() == beyond(old(self).coming()),
            match taken {
                Ok(event) => ahead(old(self).coming()) == Ok::<Option<Event<'de>>, DeFailure>(
                    event,
                ),
                Err(e) => ahead(old(self).coming()) == Err::<Option<Event<'de>>, DeFailure>(e@),
            },
    {
        let ghost before = self.coming();
        match self.fill() {
            Ok(()) => {
                let event = self.peeked.take();
                assert(self.coming() =~= beyond(before));
                Ok(event)
            },
            Err(error) => Err(error),
        }
    }

    /// Classifies the next event without consuming it.
    pub fn peek(&mut self) -> (seen: Result<Option<Peek>, DeError>)
        requires
            old(self).works(),
        ensures
            final(self).continues(old(self)),
            final(self).coming() == looked(old(self).coming()),
            match seen {
                Ok(Some(sort)) => ahead(old(self).coming()) matches Ok(Some(event)) && sort
                    == sort_of(event),
                Ok(None) => ahead(old(self).coming()) matches Ok(None),
                Err(e) => ahead(old(self).coming()) matches Err(f) && e@ == f,
            },
    {
        match self.fill() {
            Ok(()) => match &self.peeked {
                None => Ok(None),
                Some(event) => Ok(
                    Some(
                        match event.kind {
                            EventKind::SequenceEnd => Peek::SequenceEnd,
                            EventKind::MappingEnd => Peek::MappingEnd,
                            EventKind::StreamStart => Peek::Framing,
                            EventKind::StreamEnd => Peek::Framing,
                            EventKind::DocumentStart { .. } => Peek::Framing,
                            EventKind::DocumentEnd { .. } => Peek::Framing,
                            _ => Peek::Value,
                        },
                    ),
                ),
            },
            Err(error) => Err(error),
        }
    }

    /// The text of the next event if it is a scalar.
    ///
    /// Needed to spot a `<<` key and to record which keys the mapping states
    /// explicitly, both before the key is consumed.
    pub fn peek_scalar_text(&mut self) -> (text: Result<Option<String>, DeError>)
        requires
            old(self).works(),
        ensures
            final(self).continues(old(self)),
            final(self).coming() == looked(old(self).coming()),
            match text {
                Ok(Some(t)) => ahead(old(self).coming()) matches Ok(Some(event)) && event_text(event)
                    == Some(t@),
                Ok(None) => ahead(old(self).coming()) matches Ok(o) && (o matches Some(event)
                    ==> event_text(event) is None),
                Err(e) => ahead(old(self).coming()) matches Err(f) && e@ == f,
            },
            ahead(old(self).coming()) matches Ok(Some(event)) ==> (event.kind is Scalar <==> text
                matches Ok(Some(_))),
            text matches Ok(Some(t)) ==> (ahead(old(self).coming()) matches Ok(Some(event))
                && event.kind is Scalar && t@ == event.kind->value@),
    {
        match self.fill() {
            Ok(()) => match &self.peeked {
                None => Ok(None),
                Some(event) => match &event.kind {
                    EventKind::Scalar { value, .. } => Ok(Some(cow_str(value).to_owned())),
                    _ => Ok(None),
                },
            },
            Err(error) => Err(error),
        }
    }

    /// Reads the complete next value as a run of events.
    ///
    /// A merge source is read here rather than in place because its entries are
    /// emitted at the end of the mapping, once every explicit key is known.
    pub fn capture_value(&mut self) -> (run: Result<Vec<Event<'de>>, DeError>)
        requires
            old(self).works(),
        ensures
            final(self).continues(old(self)),
            final(self).coming() == captured(old(self).coming(), 0).0,
            match run {
                Ok(events) => captured(old(self).coming(), 0).1 == Ok::<
                    Seq<Event<'de>>,
                    DeFailure,
                >(events@),
                Err(e) => captured(old(self).coming(), 0).1 == Err::<Seq<Event<'de>>, DeFailure>(
                    e@,
                ),
            },
    {
        let mut out: Vec<Event<'de>> = Vec::new();
        let mut depth: usize = 0;
        let ghost whole = captured(self.coming(), 0);
        proof {
            if let Ok(events) = whole.1 {
                assert(out@ + events =~= events);
            }
        }
        loop
            invariant
                self.continues(old(self)),
                depth <= out@.len(),
                whole == captured(old(self).coming(), 0),
                whole.0 == captured(self.coming(), depth as int).0,
                match captured(self.coming(), depth as int).1 {
                    Ok(events) => whole.1 == Ok::<Seq<Event<'de>>, DeFailure>(out@ + events),
                    Err(f) => whole.1 == Err::<Seq<Event<'de>>, DeFailure>(f),
                },
            decreases self.coming().len(),
        {
            let ghost before = self.coming();
            let ghost done = out@;
            let ghost level = depth as int;
            let event = match self.take() {
                Ok(Some(event)) => event,
                Ok(None) => {
                    return Err(
                        DeError::custom("unexpected end of input: merge value is incomplete"),
                    );
                },
                Err(error) => {
                    return Err(error);
                },
            };
            // The event itself makes room for the depth it adds.
            let change = match event.kind {
                EventKind::SequenceStart { .. } => Some(true),
                EventKind::MappingStart { .. } => Some(true),
                EventKind::SequenceEnd => Some(false),
                EventKind::MappingEnd => Some(false),
                _ => None,
            };
            let ghost taken = event;
            out.push(event);
            assert(depth < out.len());
            match change {
                Some(true) => {
                    depth = depth + 1;
                },
                Some(false) => {
                    depth = depth.saturating_sub(1);
                },
                None => {},
            }
            assert(depth == crate::stream::tape::model::deeper(level, taken));
            if depth == 0 {
                assert(out@ =~= done + seq![taken]);
                return Ok(out);
            }
            proof {
                if let Ok(events) = captured(self.coming(), depth as int).1 {
                    assert(out@ + events =~= done + (seq![taken] + events));
                }
            }
        }
    }

    /// Skips the stream and document framing the parser wraps a value in.
    pub fn skip_framing(&mut self) -> (skipped: Result<(), DeError>)
        requires
            old(self).works(),
        ensures
            final(self).continues(old(self)),
            final(self).coming() == past_framing(old(self).coming()).0,
            match skipped {
                Ok(()) => past_framing(old(self).coming()).1 is None,
                Err(e) => past_framing(old(self).coming()).1 == Some(e@),
            },
    {
        loop
            invariant
                self.continues(old(self)),
                past_framing(self.coming()) == past_framing(old(self).coming()),
            decreases self.coming().len(),
        {
            match self.peek() {
                Ok(Some(Peek::Framing)) => match self.take() {
                    Ok(_) => {},
                    Err(error) => {
                        return Err(error);
                    },
                },
                Ok(_) => {
                    return Ok(());
                },
                Err(error) => {
                    return Err(error);
                },
            }
        }
    }

    /// Consumes the event that begins the next value, and says how it begins.
    pub fn start_value(&mut self) -> (start: Result<Start<'de>, DeError>)
        requires
            old(self).works(),
        ensures
            final(self).continues(old(self)),
            final(self).coming() == beyond(old(self).coming()),
            match start {
                Ok(s) => started(old(self).coming(), old(self).reads_as()) == Ok::<
                    Start<'de>,
                    DeFailure,
                >(s),
                Err(e) => started(old(self).coming(), old(self).reads_as()) == Err::<
                    Start<'de>,
                    DeFailure,
                >(e@),
            },
    {
        let event = match self.take() {
            Ok(Some(event)) => event,
            Ok(None) => {
                return Err(DeError::custom("unexpected end of input: expected a value"));
            },
            Err(error) => {
                return Err(error);
            },
        };
        match event.kind {
            EventKind::Scalar { value, style, anchor: _, tag } => Ok(
                Start::Scalar(ScalarDeserializer::new(value, style, tag, self.version)),
            ),
            EventKind::SequenceStart { .. } => Ok(Start::Sequence),
            EventKind::MappingStart { .. } => Ok(Start::Mapping),
            other => Err(
                DeError::Message("expected a value, found ".to_owned().concat(other.name())),
            ),
        }
    }

    /// Inside a sequence: whether an element follows, or the sequence ends here.
    ///
    /// Truncation is an **error**. Reporting it as the end would hand back a short
    /// collection with nothing to distinguish it from a complete one.
    pub fn next_element(&mut self) -> (follows: Result<bool, DeError>)
        requires
            old(self).works(),
        ensures
            final(self).continues(old(self)),
            final(self).coming() == element(old(self).coming()).0,
            match follows {
                Ok(b) => element(old(self).coming()).1 == Ok::<bool, DeFailure>(b),
                Err(e) => element(old(self).coming()).1 == Err::<bool, DeFailure>(e@),
            },
    {
        match self.peek() {
            Err(error) => Err(error),
            Ok(None) => Err(
                DeError::custom("unexpected end of input: sequence not terminated"),
            ),
            Ok(Some(Peek::SequenceEnd)) => match self.take() {
                Ok(_) => Ok(false),
                Err(error) => Err(error),
            },
            Ok(Some(Peek::MappingEnd)) => Err(
                DeError::custom("mapping end inside a sequence: the event stream is malformed"),
            ),
            Ok(Some(Peek::Value)) => Ok(true),
            Ok(Some(Peek::Framing)) => Ok(true),
        }
    }
}

} // verus!
