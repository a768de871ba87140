//! What holds of events of every kind.

use std::borrow::Cow;

use vstd::prelude::*;

use super::{Event, EventKind};
use crate::types::{CollectionStyle, ScalarStyle, Span, Tag, YamlVersion};

verus! {

/// A collection start opens one level and a collection end closes one, whatever anchor,
/// tag and style stand on them; no other event changes the nesting.
pub proof fn law_starts_open_and_ends_close<'a>(
    value: Cow<'a, str>,
    written: ScalarStyle,
    style: CollectionStyle,
    anchor: Option<Cow<'a, str>>,
    tag: Option<Tag<'a>>,
    explicit: bool,
    version: YamlVersion,
    span: Span,
)
    ensures
        super::net(Event { kind: EventKind::SequenceStart { anchor, tag, style }, span }) == 1,
        super::net(Event { kind: EventKind::MappingStart { anchor, tag, style }, span }) == 1,
        super::net(Event { kind: EventKind::SequenceEnd::<'a>, span }) == -1,
        super::net(Event { kind: EventKind::MappingEnd::<'a>, span }) == -1,
        super::net(
            Event { kind: EventKind::Scalar { value, style: written, anchor, tag }, span },
        ) == 0,
        super::net(Event { kind: EventKind::Alias { name: value }, span }) == 0,
        super::net(Event { kind: EventKind::StreamStart::<'a>, span }) == 0,
        super::net(Event { kind: EventKind::StreamEnd::<'a>, span }) == 0,
        super::net(Event { kind: EventKind::DocumentStart::<'a> { explicit, version }, span }) == 0,
        super::net(Event { kind: EventKind::DocumentEnd::<'a> { explicit }, span }) == 0,
{
}

/// Starts and ends are called by what they start and end.
pub proof fn law_events_are_called_by_what_they_are<'a>(kind: EventKind<'a>)
    ensures
        kind is StreamStart ==> kind.label() == "stream"@ + "-start"@,
        kind is StreamEnd ==> kind.label() == "stream"@ + "-end"@,
        kind is DocumentStart ==> kind.label() == "document"@ + "-start"@,
        kind is DocumentEnd ==> kind.label() == "document"@ + "-end"@,
        kind is SequenceStart ==> kind.label() == "sequence"@ + "-start"@,
        kind is SequenceEnd ==> kind.label() == "sequence"@ + "-end"@,
        kind is MappingStart ==> kind.label() == "mapping"@ + "-start"@,
        kind is MappingEnd ==> kind.label() == "mapping"@ + "-end"@,
        kind is Alias ==> kind.label() == "alias"@,
        kind is Scalar ==> kind.label() == "scalar"@,
{
    reveal_strlit("-start");
    reveal_strlit("-end");
    reveal_strlit("stream");
    reveal_strlit("document");
    reveal_strlit("sequence");
    reveal_strlit("mapping");
    reveal_strlit("stream-start");
    reveal_strlit("stream-end");
    reveal_strlit("document-start");
    reveal_strlit("document-end");
    reveal_strlit("sequence-start");
    reveal_strlit("sequence-end");
    reveal_strlit("mapping-start");
    reveal_strlit("mapping-end");
    assert("stream-start"@ =~= "stream"@ + "-start"@);
    assert("stream-end"@ =~= "stream"@ + "-end"@);
    assert("document-start"@ =~= "document"@ + "-start"@);
    assert("document-end"@ =~= "document"@ + "-end"@);
    assert("sequence-start"@ =~= "sequence"@ + "-start"@);
    assert("sequence-end"@ =~= "sequence"@ + "-end"@);
    assert("mapping-start"@ =~= "mapping"@ + "-start"@);
    assert("mapping-end"@ =~= "mapping"@ + "-end"@);
}

} // verus!
