//! What a parser emits.

use std::borrow::Cow;

use vstd::prelude::*;

use crate::text::cow_clone;
use crate::types::{clone_tag, CollectionStyle, ScalarStyle, Span, Tag, YamlVersion};

pub mod laws;

verus! {

/// One thing a parser reports, and where it stands in the source.
#[derive(Debug, PartialEq, Eq)]
pub struct Event<'a> {
    /// What is reported.
    pub kind: EventKind<'a>,
    /// Where it stands.
    pub span: Span,
}

/// The things a parser reports.
///
/// A value is one scalar or alias event, or a collection start, the values inside
/// it, and the matching end.
#[allow(inconsistent_fields)]
#[derive(Debug, PartialEq, Eq)]
pub enum EventKind<'a> {
    /// The stream begins.
    StreamStart,
    /// The stream ends.
    StreamEnd,
    /// A document begins.
    DocumentStart {
        /// Whether it was announced by `---`.
        explicit: bool,
        /// The version it is read under.
        version: YamlVersion,
    },
    /// A document ends.
    DocumentEnd {
        /// Whether it was announced by `...`.
        explicit: bool,
    },
    /// The value of an anchor is wanted here.
    Alias {
        /// The anchor's name.
        name: Cow<'a, str>,
    },
    /// A scalar.
    Scalar {
        /// Its text.
        value: Cow<'a, str>,
        /// How it was written.
        style: ScalarStyle,
        /// The anchor it declares.
        anchor: Option<Cow<'a, str>>,
        /// Its tag.
        tag: Option<Tag<'a>>,
    },
    /// A sequence begins.
    SequenceStart {
        /// The anchor it declares.
        anchor: Option<Cow<'a, str>>,
        /// Its tag.
        tag: Option<Tag<'a>>,
        /// How it was written.
        style: CollectionStyle,
    },
    /// A sequence ends.
    SequenceEnd,
    /// A mapping begins.
    MappingStart {
        /// The anchor it declares.
        anchor: Option<Cow<'a, str>>,
        /// Its tag.
        tag: Option<Tag<'a>>,
        /// How it was written.
        style: CollectionStyle,
    },
    /// A mapping ends.
    MappingEnd,
}

/// How an event changes the nesting depth: one deeper, one shallower, or not.
pub open spec fn net(event: Event<'_>) -> int {
    match event.kind {
        EventKind::SequenceStart { .. } => 1,
        EventKind::MappingStart { .. } => 1,
        EventKind::SequenceEnd => -1,
        EventKind::MappingEnd => -1,
        _ => 0,
    }
}

impl<'a> EventKind<'a> {
    /// What the event is called.
    pub open spec fn label(self) -> Seq<char> {
        match self {
            EventKind::StreamStart => "stream-start"@,
            EventKind::StreamEnd => "stream-end"@,
            EventKind::DocumentStart { .. } => "document-start"@,
            EventKind::DocumentEnd { .. } => "document-end"@,
            EventKind::Alias { .. } => "alias"@,
            EventKind::Scalar { .. } => "scalar"@,
            EventKind::SequenceStart { .. } => "sequence-start"@,
            EventKind::SequenceEnd => "sequence-end"@,
            EventKind::MappingStart { .. } => "mapping-start"@,
            EventKind::MappingEnd => "mapping-end"@,
        }
    }

    /// What the event is called.
    pub fn name(&self) -> (name: &'static str)
        ensures
            name@ == self.label(),
    {
        match self {
            EventKind::StreamStart => "stream-start",
            EventKind::StreamEnd => "stream-end",
            EventKind::DocumentStart { .. } => "document-start",
            EventKind::DocumentEnd { .. } => "document-end",
            EventKind::Alias { .. } => "alias",
            EventKind::Scalar { .. } => "scalar",
            EventKind::SequenceStart { .. } => "sequence-start",
            EventKind::SequenceEnd => "sequence-end",
            EventKind::MappingStart { .. } => "mapping-start",
            EventKind::MappingEnd => "mapping-end",
        }
    }
}

/// Copies an optional anchor name.
fn clone_anchor<'a>(anchor: &Option<Cow<'a, str>>) -> (copy: Option<Cow<'a, str>>)
    ensures
        copy == *anchor,
{
    match anchor {
        Some(name) => Some(cow_clone(name)),
        None => None,
    }
}

impl<'a> Clone for EventKind<'a> {
    fn clone(&self) -> (copy: Self)
        ensures
            copy == *self,
    {
        match self {
            EventKind::StreamStart => EventKind::StreamStart,
            EventKind::StreamEnd => EventKind::StreamEnd,
            EventKind::DocumentStart { explicit, version } => EventKind::DocumentStart {
                explicit: *explicit,
                version: *version,
            },
            EventKind::DocumentEnd { explicit } => EventKind::DocumentEnd { explicit: *explicit },
            EventKind::Alias { name } => EventKind::Alias { name: cow_clone(name) },
            EventKind::Scalar { value, style, anchor, tag } => EventKind::Scalar {
                value: cow_clone(value),
                style: *style,
                anchor: clone_anchor(anchor),
                tag: clone_tag(tag),
            },
            EventKind::SequenceStart { anchor, tag, style } => EventKind::SequenceStart {
                anchor: clone_anchor(anchor),
                tag: clone_tag(tag),
                style: *style,
            },
            EventKind::SequenceEnd => EventKind::SequenceEnd,
            EventKind::MappingStart { anchor, tag, style } => EventKind::MappingStart {
                anchor: clone_anchor(anchor),
                tag: clone_tag(tag),
                style: *style,
            },
            EventKind::MappingEnd => EventKind::MappingEnd,
        }
    }
}

impl<'a> Clone for Event<'a> {
    fn clone(&self) -> (copy: Self)
        ensures
            copy == *self,
    {
        Event { kind: self.kind.clone(), span: self.span }
    }
}

} // verus!
