//! Reading a mapping entry by entry, with its merge keys folded in.
//!
//! Merge keys are folded in at the **end**, after every explicit key is known. That
//! is why precedence needs no special case: an explicit key is already seen by the
//! time a merged one is considered, and an earlier source by the time a later one
//! is.

use std::collections::VecDeque;

use vstd::hash_set::StringHashSet;
use vstd::prelude::*;
use vstd::string::*;

use crate::error::{DeError, DeFailure};
use crate::event::Event;
use crate::stream::merge::{scalar_text, split_merge_sources};
use crate::stream::source::EventSource;
use crate::stream::value::{Coming, EventDeserializer, Peek};
use crate::text::same_text;

pub mod keys;
pub mod laws;

verus! {

// ---- the model ---------------------------------------------------------

/// A key and a value, as runs of events.
pub type Entry<'de> = (Seq<Event<'de>>, Seq<Event<'de>>);

/// How far the reading of a mapping has come.
#[verifier::ext_equal]
pub struct MapState<'de> {
    /// Scalar keys already handed out.
    pub seen: Set<Seq<char>>,
    /// Entries contributed by `<<` and not considered yet.
    pub merged: Seq<Entry<'de>>,
    /// The value of the merged entry whose key was just handed out.
    pub pending: Option<Seq<Event<'de>>>,
    /// Whether the mapping's own entries are exhausted.
    pub draining: bool,
}

/// Where the next key is.
pub enum KeyStep<'de> {
    /// There is none: the mapping is complete.
    End,
    /// In the stream.
    Live,
    /// In this recorded run.
    Recorded(Seq<Event<'de>>),
}

/// Where the value of the last key is.
pub enum ValueStep<'de> {
    /// In the stream.
    Live,
    /// In this recorded run.
    Recorded(Seq<Event<'de>>),
}

/// The next merged entry that nothing has claimed yet. One with a claimed key is
/// passed over, and one with a key that is no scalar is always taken.
pub open spec fn next_merged<'de>(m: MapState<'de>) -> (MapState<'de>, KeyStep<'de>)
    decreases m.merged.len(),
{
    if m.merged.len() == 0 {
        (m, KeyStep::End)
    } else {
        let (key, value) = m.merged[0];
        let left = MapState { merged: m.merged.skip(1), ..m };
        match crate::stream::merge::lone_text(key) {
            Some(text) => if m.seen.contains(text) {
                next_merged(left)
            } else {
                (
                    MapState { seen: m.seen.insert(text), pending: Some(value), ..left },
                    KeyStep::Recorded(key),
                )
            },
            None => (MapState { pending: Some(value), ..left }, KeyStep::Recorded(key)),
        }
    }
}

/// The next key: the mapping afterwards, what is left of the stream, and where the
/// key is.
pub open spec fn next_key<'de>(m: MapState<'de>, coming: Coming<'de>, merge_keys: bool) -> (
    MapState<'de>,
    Coming<'de>,
    Result<KeyStep<'de>, DeFailure>,
)
    decreases coming.len(),
    via next_key_decreases
{
    let after = crate::stream::value::beyond(coming);
    if m.draining {
        let (next, step) = next_merged(m);
        (next, coming, Ok(step))
    } else {
        match crate::stream::value::ahead(coming) {
            Err(f) => (m, after, Err(f)),
            Ok(None) => (
                m,
                coming,
                Err(DeFailure::Message("unexpected end of input: mapping not terminated"@)),
            ),
            Ok(Some(event)) => match crate::stream::value::sort_of(event) {
                Peek::MappingEnd => if m.merged.len() == 0 {
                    (m, after, Ok(KeyStep::End))
                } else {
                    let (next, step) = next_merged(MapState { draining: true, ..m });
                    (next, after, Ok(step))
                },
                Peek::SequenceEnd => (
                    m,
                    coming,
                    Err(
                        DeFailure::Message(
                            "sequence end inside a mapping: the event stream is malformed"@,
                        ),
                    ),
                ),
                _ => match crate::stream::value::event_text(event) {
                    Some(text) => if !merge_keys {
                        (m, coming, Ok(KeyStep::Live))
                    } else if text == "<<"@ {
                        let (left, run) = crate::stream::value::captured(after, 0);
                        match run {
                            Err(f) => (m, left, Err(f)),
                            Ok(value) => {
                                let merged = crate::stream::merge::sources(value, merge_keys);
                                let next = MapState { merged: m.merged + merged.entries, ..m };
                                match merged.refused {
                                    Some(f) => (next, left, Err(f)),
                                    None => next_key(next, left, merge_keys),
                                }
                            },
                        }
                    } else {
                        (MapState { seen: m.seen.insert(text), ..m }, coming, Ok(KeyStep::Live))
                    },
                    None => (m, coming, Ok(KeyStep::Live)),
                },
            },
        }
    }
}

#[via_fn]
proof fn next_key_decreases<'de>(m: MapState<'de>, coming: Coming<'de>, merge_keys: bool) {
    lemma_captured_shrinks(crate::stream::value::beyond(coming), 0);
}

/// Reading a value leaves no more of the stream than there was.
pub proof fn lemma_captured_shrinks<'de>(coming: Coming<'de>, depth: int)
    ensures
        crate::stream::value::captured(coming, depth).0.len() <= coming.len(),
    decreases coming.len(),
{
    if let Ok(Some(event)) = crate::stream::value::ahead(coming) {
        let next = crate::stream::tape::model::deeper(depth, event);
        if next != 0 {
            lemma_captured_shrinks(crate::stream::value::beyond(coming), next);
        }
    }
}

/// The value of the last key: the mapping afterwards, what is left of the stream,
/// and where the value is.
pub open spec fn next_value<'de>(m: MapState<'de>, coming: Coming<'de>) -> (
    MapState<'de>,
    Coming<'de>,
    Result<ValueStep<'de>, DeFailure>,
) {
    match m.pending {
        Some(run) => (MapState { pending: None, ..m }, coming, Ok(ValueStep::Recorded(run))),
        None => match crate::stream::value::ahead(coming) {
            Err(f) => (m, crate::stream::value::beyond(coming), Err(f)),
            Ok(None) => (
                m,
                coming,
                Err(DeFailure::Message("unexpected end of input: mapping key has no value"@)),
            ),
            Ok(Some(_)) => (m, coming, Ok(ValueStep::Live)),
        },
    }
}

// ---- reading -----------------------------------------------------------

/// Where the next key of a mapping is.
#[derive(Debug, PartialEq, Eq)]
pub enum NextKey<'de> {
    /// There is none: the mapping is complete.
    End,
    /// In the stream: read it there.
    Live,
    /// In this recorded run: read it from there.
    Recorded(Vec<Event<'de>>),
}

impl<'de> View for NextKey<'de> {
    type V = KeyStep<'de>;

    open spec fn view(&self) -> KeyStep<'de> {
        match self {
            NextKey::End => KeyStep::End,
            NextKey::Live => KeyStep::Live,
            NextKey::Recorded(run) => KeyStep::Recorded(run@),
        }
    }
}

/// Where the value of the last key is.
#[derive(Debug, PartialEq, Eq)]
pub enum NextValue<'de> {
    /// In the stream: read it there.
    Live,
    /// In this recorded run: read it from there.
    Recorded(Vec<Event<'de>>),
}

impl<'de> View for NextValue<'de> {
    type V = ValueStep<'de>;

    open spec fn view(&self) -> ValueStep<'de> {
        match self {
            NextValue::Live => ValueStep::Live,
            NextValue::Recorded(run) => ValueStep::Recorded(run@),
        }
    }
}

/// Drives a mapping until its matching end, then its merged entries.
pub struct MapAccess<'de> {
    /// Scalar keys already emitted. Left empty when merge keys are off, so an
    /// ordinary mapping does not pay for a feature it is not using.
    seen: StringHashSet,
    /// Entries contributed by `<<`, flattened in source order.
    merged: VecDeque<(Vec<Event<'de>>, Vec<Event<'de>>)>,
    /// Value events for the merged entry whose key was just handed out.
    pending: Option<Vec<Event<'de>>>,
    /// True once the mapping's own entries are exhausted.
    draining: bool,
}

impl<'de> View for MapAccess<'de> {
    type V = MapState<'de>;

    closed spec fn view(&self) -> MapState<'de> {
        MapState {
            seen: self.seen@,
            merged: crate::stream::merge::entries_of(self.merged@),
            pending: match self.pending {
                Some(run) => Some(run@),
                None => None,
            },
            draining: self.draining,
        }
    }
}

/// A mapping of which nothing has been read.
pub open spec fn unread<'de>() -> MapState<'de> {
    MapState { seen: Set::empty(), merged: Seq::empty(), pending: None, draining: false }
}

impl<'de> MapAccess<'de> {
    /// A mapping whose start has just been consumed.
    pub fn new() -> (map: Self)
        ensures
            map@ == unread::<'de>(),
    {
        let map = MapAccess {
            seen: StringHashSet::new(),
            merged: VecDeque::new(),
            pending: None,
            draining: false,
        };
        assert(map@ =~= unread::<'de>());
        map
    }

    /// Hands out the next merged key that nothing has already claimed.
    fn next_merged_key(&mut self) -> (key: NextKey<'de>)
        ensures
            (final(self)@, key@) == next_merged(old(self)@),
    {
        let ghost start = self@;
        while self.merged.len() > 0
            invariant
                start == old(self)@,
                next_merged(self@) == next_merged(start),
            decreases self.merged@.len(),
        {
            let ghost before = self@;
            if let Some((key, value)) = self.merged.pop_front() {
                assert(before.merged[0] == (key@, value@));
                assert(self@.merged =~= before.merged.skip(1));
                assert(self@ =~= (MapState { merged: before.merged.skip(1), ..before }));
                // A key already present loses. Explicit keys went in first and
                // earlier sources before later ones, so one look decides both rules.
                // A non-scalar key has no text to collide on and is kept.
                let taken = match scalar_text(key.as_slice()) {
                    Some(text) => !self.seen.insert(text.to_owned()),
                    None => false,
                };
                if taken {
                    assert(self@.seen =~= before.seen);
                    assert(self@ =~= (MapState { merged: before.merged.skip(1), ..before }));
                } else {
                    self.pending = Some(value);
                    assert(self@ =~= next_merged(before).0);
                    return NextKey::Recorded(key);
                }
            }
        }
        assert(self@.merged.len() == 0);
        NextKey::End
    }

    /// Says where the next key is.
    pub fn next_key<S: EventSource<'de>>(
        &mut self,
        de: &mut EventDeserializer<'_, 'de, S>,
    ) -> (key: Result<NextKey<'de>, DeError>)
        requires
            old(de).works(),
        ensures
            final(de).continues(old(de)),
            final(self)@ == next_key(old(self)@, old(de).coming(), old(de).merges()).0,
            final(de).coming() == next_key(old(self)@, old(de).coming(), old(de).merges()).1,
            match key {
                Ok(k) => next_key(old(self)@, old(de).coming(), old(de).merges()).2 == Ok::<
                    KeyStep<'de>,
                    DeFailure,
                >(k@),
                Err(e) => next_key(old(self)@, old(de).coming(), old(de).merges()).2 == Err::<
                    KeyStep<'de>,
                    DeFailure,
                >(e@),
            },
    {
        let ghost wanted = next_key(self@, de.coming(), de.merges());
        if self.draining {
            return Ok(self.next_merged_key());
        }
        loop
            invariant
                de.continues(old(de)),
                !self.draining,
                wanted == next_key(old(self)@, old(de).coming(), old(de).merges()),
                next_key(self@, de.coming(), de.merges()) == wanted,
            decreases de.coming().len(),
        {
            let ghost start = self@;
            let ghost coming = de.coming();
            match de.peek() {
                Err(error) => {
                    return Err(error);
                },
                Ok(None) => {
                    return Err(
                        DeError::custom("unexpected end of input: mapping not terminated"),
                    );
                },
                Ok(Some(Peek::MappingEnd)) => {
                    if let Err(error) = de.take() {
                        return Err(error);
                    }
                    if self.merged.len() == 0 {
                        return Ok(NextKey::End);
                    }
                    self.draining = true;
                    assert(self@ =~= (MapState { draining: true, ..start }));
                    return Ok(self.next_merged_key());
                },
                Ok(Some(Peek::SequenceEnd)) => {
                    return Err(
                        DeError::custom(
                            "sequence end inside a mapping: the event stream is malformed",
                        ),
                    );
                },
                Ok(Some(Peek::Value)) => {},
                Ok(Some(Peek::Framing)) => {},
            }
            if !de.merge_keys() {
                return Ok(NextKey::Live);
            }
            let text = match de.peek_scalar_text() {
                Ok(Some(text)) => text,
                Ok(None) => {
                    return Ok(NextKey::Live);
                },
                Err(error) => {
                    return Err(error);
                },
            };
            // Only the scalar's text is asked for, so a quoted `"<<"` merges too.
            if !same_text(text.as_str(), "<<") {
                self.seen.insert(text);
                assert(self@ =~= (MapState { seen: start.seen.insert(text@), ..start }));
                return Ok(NextKey::Live);
            }
            if let Err(error) = de.take() {
                return Err(error);
            }
            proof {
                lemma_captured_shrinks(de.coming(), 0);
            }
            let value = match de.capture_value() {
                Ok(value) => value,
                Err(error) => {
                    return Err(error);
                },
            };
            let merges = de.merge_keys();
            let split = split_merge_sources(value.as_slice(), &mut self.merged, merges);
            assert(self@ =~= (MapState {
                merged: start.merged + crate::stream::merge::sources(value@, merges).entries,
                ..start
            }));
            if let Err(error) = split {
                return Err(error);
            }
        }
    }

    /// Says where the value of the last key is.
    ///
    /// A key with no value is truncation, not an empty mapping: the key has already
    /// been consumed, and a default would invent a value the input never had.
    pub fn next_value<S: EventSource<'de>>(
        &mut self,
        de: &mut EventDeserializer<'_, 'de, S>,
    ) -> (value: Result<NextValue<'de>, DeError>)
        requires
            old(de).works(),
        ensures
            final(de).continues(old(de)),
            final(self)@ == next_value(old(self)@, old(de).coming()).0,
            final(de).coming() == next_value(old(self)@, old(de).coming()).1,
            match value {
                Ok(v) => next_value(old(self)@, old(de).coming()).2 == Ok::<
                    ValueStep<'de>,
                    DeFailure,
                >(v@),
                Err(e) => next_value(old(self)@, old(de).coming()).2 == Err::<
                    ValueStep<'de>,
                    DeFailure,
                >(e@),
            },
    {
        if let Some(run) = self.pending.take() {
            return Ok(NextValue::Recorded(run));
        }
        match de.peek() {
            Err(error) => Err(error),
            Ok(None) => Err(
                DeError::custom("unexpected end of input: mapping key has no value"),
            ),
            Ok(Some(_)) => Ok(NextValue::Live),
        }
    }
}

} // verus!
