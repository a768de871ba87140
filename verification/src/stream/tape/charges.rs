//! What a tape records, and what it charges for, event by event.

use std::borrow::Cow;

use vstd::prelude::*;

use super::model::{Run, Scope, TapeState};
use crate::error::{Failure, Reason};
use crate::event::{Event, EventKind};
use crate::limits::ResourceLimits;
use crate::types::Span;

verus! {

/// The anchor that an event carries.
pub open spec fn carried<'a>(event: Event<'a>) -> Option<Cow<'a, str>> {
    match event.kind {
        EventKind::Scalar { anchor, .. } => anchor,
        EventKind::SequenceStart { anchor, .. } => anchor,
        EventKind::MappingStart { anchor, .. } => anchor,
        _ => None,
    }
}

/// A fresh tape has recorded, defined and spent nothing, and has all of its input to come.
pub proof fn law_a_fresh_tape_has_spent_nothing<'a>(
    input: Seq<Result<Event<'a>, Failure>>,
    limits: ResourceLimits,
    name: Seq<char>,
)
    ensures
        ({
            let s = super::model::fresh(input, limits);
            &&& s.input == input
            &&& s.limits == limits
            &&& s.buffer.len() == 0
            &&& s.targets.len() == 0
            &&& !s.anchors.contains_key(name)
            &&& s.open.len() == 0
            &&& s.replaying.len() == 0
            &&& s.depth == 0
            &&& s.nesting == 0
            &&& s.expansions == 0
            &&& s.expanded == 0
        }),
{
}

/// An event is recorded exactly if it stands inside an anchored value or carries an anchor
/// itself; one that carries an anchor opens it where the event is recorded. Nothing else
/// changes.
pub proof fn law_only_anchored_values_are_recorded<'a>(s: TapeState<'a>, event: Event<'a>)
    ensures
        ({
            let t = super::model::recorded(s, event);
            &&& if s.open.len() > 0 || carried(event) is Some {
                t.buffer == s.buffer.push(event) && t.targets.len() == s.targets.len() + 1
            } else {
                t.buffer == s.buffer && t.targets == s.targets
            }
            &&& match carried(event) {
                Some(name) => t.open == s.open.push(
                    Scope { name: name@, start: s.buffer.len() as int, depth: s.depth },
                ),
                None => t.open == s.open,
            }
            &&& t.input == s.input
            &&& t.anchors == s.anchors
            &&& t.depth == s.depth
            &&& t.nesting == s.nesting
            &&& t.replaying == s.replaying
            &&& t.expansions == s.expansions
            &&& t.expanded == s.expanded
            &&& t.limits == s.limits
        }),
{
}

/// An alias costs one expansion and as many events as are recorded under its name. It is
/// refused if it is undefined, if all expansions are spent, or if the events exceed what
/// their budget has left; a refusal charges no more than it has checked.
pub proof fn law_an_alias_is_charged_its_events<'a>(
    s: TapeState<'a>,
    run: Run,
    name: Seq<char>,
    span: Span,
)
    requires
        run.fits(s.buffer.len()),
    ensures
        super::model::expanded(s, None, name, span) == (
            s,
            Some(Failure { reason: Reason::UndefinedAlias(name), span: Some(span) }),
        ),
        ({
            let size = super::model::run_events(s.buffer, run).len();
            let (t, refused) = super::model::expanded(s, Some(run), name, span);
            &&& t.input == s.input && t.buffer == s.buffer && t.targets == s.targets && t.anchors
                == s.anchors && t.open == s.open && t.depth == s.depth && t.nesting == s.nesting
                && t.limits == s.limits
            &&& if s.expansions >= s.limits.max_alias_expansions {
                &&& t == s
                &&& refused == Some(
                    Failure {
                        reason: Reason::AliasExpansionLimitExceeded {
                            limit: s.limits.max_alias_expansions,
                        },
                        span: Some(span),
                    },
                )
            } else {
                &&& t.expansions == s.expansions + 1
                &&& s.expanded + size <= usize::MAX ==> t.expanded == s.expanded + size
                &&& if s.expanded + size > s.limits.max_total_alias_nodes {
                    &&& t.replaying == s.replaying
                    &&& refused == Some(
                        Failure {
                            reason: Reason::AliasMaterializationLimitExceeded {
                                limit: s.limits.max_total_alias_nodes,
                            },
                            span: Some(span),
                        },
                    )
                } else {
                    &&& t.replaying == s.replaying.push(run)
                    &&& refused is None
                }
            }
        }),
{
}

/// A replayed event is handed out as it is, except a collection start, of whatever kind and
/// style, that would nest deeper than the limit; that one is refused where it stands and
/// ends every replay. The limit does not touch what comes from the parser.
pub proof fn law_only_replays_are_held_to_the_depth<'a>(s: TapeState<'a>, event: Event<'a>)
    requires
        0 <= s.nesting,
    ensures
        super::model::handed_out(s, event, true).1 == Ok::<Event<'a>, Failure>(event),
        ({
            let (t, item) = super::model::handed_out(s, event, false);
            if (event.kind is SequenceStart || event.kind is MappingStart) && s.nesting
                >= s.limits.max_depth {
                &&& item == Err::<Event<'a>, Failure>(
                    Failure {
                        reason: Reason::DepthLimitExceeded { limit: s.limits.max_depth },
                        span: Some(event.span),
                    },
                )
                &&& t.replaying.len() == 0
                &&& t.nesting == s.depth
            } else {
                &&& item == Ok::<Event<'a>, Failure>(event)
                &&& t.replaying == s.replaying
                &&& event.kind is SequenceStart || event.kind is MappingStart ==> t.nesting
                    == s.nesting + 1
                &&& (event.kind is SequenceEnd || event.kind is MappingEnd) && s.nesting > 0
                    ==> t.nesting == s.nesting - 1
                &&& event.kind is Scalar ==> t.nesting == s.nesting
            }
        }),
{
}

/// An alias from the parser stands for what its name is defined as by then, and a replayed
/// one for what it was recorded with; an undefined name stands for nothing.
pub proof fn law_an_alias_stands_for_its_definition<'a>(
    s: TapeState<'a>,
    name: Seq<char>,
    event: Event<'a>,
)
    ensures
        s.anchors.contains_key(name) ==> super::model::stands_for(s, true, name) == Some(
            s.anchors[name],
        ),
        !s.anchors.contains_key(name) ==> super::model::stands_for(s, true, name) is None,
        s.replaying.len() > 0 ==> super::model::stands_for(s, false, name)
            == s.targets[s.replaying[s.replaying.len() - 1].start - 1],
        super::model::target(s.anchors, event) matches Some(run) ==> (event.kind matches
            EventKind::Alias { name: called } && s.anchors.contains_key(called@)
            && s.anchors[called@] == run),
        event.kind matches EventKind::Alias { name: called } && s.anchors.contains_key(called@)
            ==> super::model::target(s.anchors, event) is Some,
{
}

proof fn lemma_closing_forgets_nothing<'a>(s: TapeState<'a>, name: Seq<char>)
    ensures
        s.anchors.contains_key(name) ==> super::model::closed(s).anchors.contains_key(name),
    decreases s.open.len(),
{
    if s.open.len() > 0 && s.open.last().depth >= s.depth {
        let scope = s.open.last();
        let run = Run { start: scope.start as usize, end: s.buffer.len() as usize };
        lemma_closing_forgets_nothing(
            TapeState { open: s.open.drop_last(), anchors: s.anchors.insert(scope.name, run), ..s },
            name,
        );
    }
}

/// A tape forgets no definition and gives back no charge, whatever it hands out: neither
/// the end of a document nor the start of another makes an anchor undefined or a budget
/// whole again.
pub proof fn law_nothing_is_forgotten<'a>(s: TapeState<'a>, name: Seq<char>)
    requires
        super::model::well_formed(s),
    ensures
        ({
            let t = super::model::tape_next(s).0;
            &&& s.anchors.contains_key(name) ==> t.anchors.contains_key(name)
            &&& s.expansions <= t.expansions
            &&& s.expanded <= t.expanded
            &&& s.limits == t.limits
        }),
    decreases s.limits.max_alias_expansions - s.expansions,
{
    super::model::lemma_pulled(s);
    super::model::lemma_limits_stay(s);
    let (taken, got) = super::model::pulled(s);
    if let Some((live, Ok(event))) = got {
        let kept = if live {
            super::model::recorded(taken, event)
        } else {
            taken
        };
        match event.kind {
            EventKind::Alias { name: called } => {
                if live {
                    super::model::lemma_recorded(taken, event);
                }
                super::model::lemma_stands_for(s);
                let run = super::model::stands_for(kept, live, called@);
                super::model::lemma_expanded(kept, run, called@, event.span);
                let (next, refused) = super::model::expanded(kept, run, called@, event.span);
                if refused is None {
                    law_nothing_is_forgotten(next, name);
                }
            },
            _ => {
                if live {
                    super::model::lemma_advanced_fields(kept, event);
                    let depth = super::model::deeper(kept.depth, event);
                    lemma_closing_forgets_nothing(
                        TapeState { depth, nesting: depth, ..kept },
                        name,
                    );
                }
            },
        }
    }
}

/// An event from the parser that is no alias costs nothing, and defines nothing unless it
/// completes an anchored value: outside of any, and without an anchor of its own, it leaves
/// the definitions and the record as they are.
pub proof fn law_an_ordinary_event_is_free<'a>(
    s: TapeState<'a>,
    event: Event<'a>,
    rest: Seq<Result<Event<'a>, Failure>>,
)
    requires
        super::model::well_formed(s),
        s.replaying.len() == 0,
        s.input == seq![Ok::<Event<'a>, Failure>(event)] + rest,
        !(event.kind is Alias),
    ensures
        ({
            let (t, item) = super::model::tape_next(s);
            &&& item == Some(Ok::<Event<'a>, Failure>(event))
            &&& t.input == rest
            &&& t.expansions == s.expansions
            &&& t.expanded == s.expanded
            &&& t.limits == s.limits
            &&& t.replaying.len() == 0
            &&& s.open.len() == 0 && carried(event) is None ==> t.anchors == s.anchors && t.buffer
                == s.buffer && t.open.len() == 0
        }),
{
    super::model::lemma_pulled(s);
    let (taken, got) = super::model::pulled(s);
    assert(s.input.skip(1) =~= rest);
    assert(s.input[0] == Ok::<Event<'a>, Failure>(event));
    let kept = super::model::recorded(taken, event);
    super::model::lemma_advanced_fields(kept, event);
}

} // verus!
