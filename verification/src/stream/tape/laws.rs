//! What a tape promises as a whole.

use vstd::prelude::*;

use super::model::{Run, Scope, TapeState};
use crate::error::{Failure, Reason};
use crate::event::{Event, EventKind};
use crate::limits::ResourceLimits;

verus! {

/// A tape after `n` requests.
pub open spec fn after<'a>(s: TapeState<'a>, n: nat) -> TapeState<'a>
    decreases n,
{
    if n == 0 {
        s
    } else {
        after(super::model::tape_next(s).0, (n - 1) as nat)
    }
}

/// Whether no event of an input is an alias.
pub open spec fn has_no_alias(input: Seq<Result<Event<'_>, Failure>>) -> bool {
    forall|i: int|
        0 <= i < input.len() ==> (#[trigger] input[i] matches Ok(event) ==> event.kind !is Alias)
}

/// Whether no event of an input declares an anchor.
pub open spec fn has_no_anchor(input: Seq<Result<Event<'_>, Failure>>) -> bool {
    forall|i: int|
        0 <= i < input.len() ==> (#[trigger] input[i] matches Ok(event)
            ==> super::model::declared(event) is None)
}

/// A tape over any input keeps its invariant, however often it is asked: among
/// others, every defined anchor names exactly one recorded value.
pub proof fn law_every_tape_is_well_formed<'a>(
    input: Seq<Result<Event<'a>, Failure>>,
    limits: ResourceLimits,
    n: nat,
)
    requires
        input.len() <= usize::MAX,
    ensures
        super::model::well_formed(after(super::model::fresh(input, limits), n)),
{
    lemma_stays_well_formed(super::model::fresh(input, limits), n);
}

proof fn lemma_stays_well_formed<'a>(s: TapeState<'a>, n: nat)
    requires
        super::model::well_formed(s),
    ensures
        super::model::well_formed(after(s, n)),
    decreases n,
{
    if n > 0 {
        super::model::lemma_next_keeps(s);
        lemma_stays_well_formed(super::model::tape_next(s).0, (n - 1) as nat);
    }
}

// ---- aliases never reach the caller ------------------------------------

proof fn lemma_no_alias_next<'a>(s: TapeState<'a>)
    ensures
        super::model::tape_next(s).1 matches Some(Ok(event)) ==> event.kind !is Alias,
    decreases s.limits.max_alias_expansions - s.expansions,
{
    let (taken, got) = super::model::pulled(s);
    if let Some((live, Ok(event))) = got {
        if let EventKind::Alias { name } = event.kind {
            let kept = if live {
                super::model::recorded(taken, event)
            } else {
                taken
            };
            let run = super::model::stands_for(kept, live, name@);
            let (next, refused) = super::model::expanded(kept, run, name@, event.span);
            if refused is None {
                lemma_no_alias_next(next);
            }
        }
    }
}

/// No event that a tape yields is an alias.
pub proof fn law_no_alias_is_delivered<'a>(s: TapeState<'a>)
    requires
        super::model::well_formed(s),
    ensures
        has_no_alias(super::model::delivered(s)),
    decreases super::model::potential(s),
{
    super::model::lemma_next_shrinks(s);
    super::model::lemma_next_keeps(s);
    lemma_no_alias_next(s);
    if let Some(item) = super::model::tape_next(s).1 {
        law_no_alias_is_delivered(super::model::tape_next(s).0);
        let tail = super::model::delivered(super::model::tape_next(s).0);
        let all = super::model::delivered(s);
        assert forall|i: int| 0 <= i < all.len() implies (#[trigger] all[i] matches Ok(event)
            ==> event.kind !is Alias) by {
            if i > 0 {
                assert(all[i] == tail[i - 1]);
            }
        }
    }
}

/// A document without aliases comes through unchanged.
pub proof fn law_without_aliases_nothing_changes<'a>(s: TapeState<'a>)
    requires
        super::model::well_formed(s),
        s.replaying.len() == 0,
        has_no_alias(s.input),
    ensures
        super::model::delivered(s) == s.input,
    decreases s.input.len(),
{
    super::model::lemma_next_keeps(s);
    super::model::lemma_pulled(s);
    let (taken, got) = super::model::pulled(s);
    if s.input.len() > 0 {
        let next = super::model::tape_next(s).0;
        assert(s.input[0] matches Ok(event) ==> event.kind !is Alias);
        if let Ok(event) = s.input[0] {
            super::model::lemma_advanced_fields(
                super::model::recorded(taken, event),
                event,
            );
        }
        assert(next.input == s.input.skip(1));
        assert(has_no_alias(next.input)) by {
            assert forall|i: int| 0 <= i < next.input.len() implies (#[trigger] next.input[i] matches Ok(
                event,
            ) ==> event.kind !is Alias) by {
                assert(next.input[i] == s.input[i + 1]);
            }
        }
        law_without_aliases_nothing_changes(next);
        assert(super::model::delivered(s) =~= s.input);
    } else {
        assert(super::model::delivered(s) =~= s.input);
    }
}

// ---- recording ---------------------------------------------------------

/// What one request does to the recorded events: they are only ever added to, one
/// for every event read from the parser at most, and so is what they name.
proof fn lemma_recording<'a>(s: TapeState<'a>)
    requires
        super::model::well_formed(s),
    ensures
        ({
            let t = super::model::tape_next(s).0;
            &&& s.buffer.is_prefix_of(t.buffer)
            &&& s.targets.is_prefix_of(t.targets)
            &&& t.input.len() <= s.input.len()
            &&& t.buffer.len() - s.buffer.len() <= s.input.len() - t.input.len()
        }),
    decreases s.limits.max_alias_expansions - s.expansions,
{
    super::model::lemma_pulled(s);
    let (taken, got) = super::model::pulled(s);
    if let Some((live, Ok(event))) = got {
        let kept = if live {
            super::model::recorded(taken, event)
        } else {
            taken
        };
        match event.kind {
            EventKind::Alias { name } => {
                if live {
                    super::model::lemma_recorded(taken, event);
                }
                super::model::lemma_stands_for(s);
                let run = super::model::stands_for(kept, live, name@);
                super::model::lemma_expanded(kept, run, name@, event.span);
                let (next, refused) = super::model::expanded(kept, run, name@, event.span);
                if refused is None {
                    lemma_recording(next);
                    assert(s.buffer.is_prefix_of(next.buffer));
                    assert(s.targets.is_prefix_of(next.targets));
                }
            },
            _ => {
                if live {
                    super::model::lemma_advanced_fields(kept, event);
                }
            },
        }
    }
}

/// Recorded events are never changed or dropped, a recorded alias keeps the value that
/// it named when it was read, and each event of the input is recorded once at most,
/// however many anchors it belongs to.
pub proof fn law_each_event_is_recorded_once<'a>(s: TapeState<'a>, n: nat)
    requires
        super::model::well_formed(s),
    ensures
        s.buffer.is_prefix_of(after(s, n).buffer),
        s.targets.is_prefix_of(after(s, n).targets),
        after(s, n).input.len() <= s.input.len(),
        after(s, n).buffer.len() - s.buffer.len() <= s.input.len() - after(s, n).input.len(),
    decreases n,
{
    if n > 0 {
        lemma_recording(s);
        super::model::lemma_next_keeps(s);
        law_each_event_is_recorded_once(super::model::tape_next(s).0, (n - 1) as nat);
    }
}

proof fn lemma_records_nothing<'a>(s: TapeState<'a>)
    requires
        super::model::well_formed(s),
        s.open.len() == 0,
        has_no_anchor(s.input),
    ensures
        ({
            let t = super::model::tape_next(s).0;
            &&& t.buffer == s.buffer
            &&& t.anchors == s.anchors
            &&& t.open.len() == 0
            &&& has_no_anchor(t.input)
        }),
    decreases s.limits.max_alias_expansions - s.expansions,
{
    super::model::lemma_pulled(s);
    let (taken, got) = super::model::pulled(s);
    assert(has_no_anchor(taken.input)) by {
        assert forall|i: int| 0 <= i < taken.input.len() implies (#[trigger] taken.input[i] matches Ok(
            event,
        ) ==> super::model::declared(event) is None) by {
            if taken.input != s.input {
                assert(taken.input[i] == s.input[i + 1]);
            }
        }
    }
    if let Some((live, Ok(event))) = got {
        if live {
            assert(s.input[0] == Ok::<Event<'a>, Failure>(event));
            assert(super::model::recorded(taken, event) =~= taken);
        }
        match event.kind {
            EventKind::Alias { name } => {
                super::model::lemma_stands_for(s);
                let run = super::model::stands_for(taken, live, name@);
                super::model::lemma_expanded(taken, run, name@, event.span);
                let (next, refused) = super::model::expanded(taken, run, name@, event.span);
                if refused is None {
                    lemma_records_nothing(next);
                }
            },
            _ => {},
        }
    }
}

/// A document without anchors is never recorded.
pub proof fn law_without_anchors_nothing_is_recorded<'a>(s: TapeState<'a>, n: nat)
    requires
        super::model::well_formed(s),
        s.open.len() == 0,
        has_no_anchor(s.input),
    ensures
        after(s, n).buffer == s.buffer,
        after(s, n).anchors == s.anchors,
    decreases n,
{
    if n > 0 {
        lemma_records_nothing(s);
        super::model::lemma_next_keeps(s);
        law_without_anchors_nothing_is_recorded(super::model::tape_next(s).0, (n - 1) as nat);
    }
}

// ---- what is recorded --------------------------------------------------

/// The events of an input, its errors aside.
pub open spec fn said<'a>(input: Seq<Result<Event<'a>, Failure>>) -> Seq<Event<'a>>
    decreases input.len(),
{
    if input.len() == 0 {
        Seq::empty()
    } else {
        match input[0] {
            Ok(event) => seq![event] + said(input.skip(1)),
            Err(_) => said(input.skip(1)),
        }
    }
}

/// Whether a run of events stands somewhere in a document, uninterrupted.
pub open spec fn stands_in<'a>(document: Seq<Event<'a>>, events: Seq<Event<'a>>) -> bool {
    exists|from: int|
        0 <= from <= document.len() - events.len() && events == #[trigger] document.subrange(
            from,
            from + events.len(),
        )
}

/// Whether a run of events is what a document says just before its `count`th event.
pub open spec fn stands_before<'a>(
    document: Seq<Event<'a>>,
    count: int,
    events: Seq<Event<'a>>,
) -> bool {
    events.len() <= count && events == document.subrange(count - events.len(), count)
}

/// Whether everything that a tape has recorded stands in the document it reads.
pub open spec fn follows<'a>(document: Seq<Event<'a>>, s: TapeState<'a>) -> bool {
    let count = document.len() - said(s.input).len();
    &&& 0 <= count
    &&& said(s.input) == document.skip(count)
    &&& forall|i: int|
        0 <= i < s.open.len() ==> stands_before(
            document,
            count,
            s.buffer.skip((#[trigger] s.open[i]).start),
        )
    &&& forall|name: Seq<char>| #[trigger]
        s.anchors.contains_key(name) ==> stands_in(
            document,
            super::model::run_events(s.buffer, s.anchors[name]),
        )
}

proof fn lemma_follows_closed<'a>(document: Seq<Event<'a>>, s: TapeState<'a>)
    requires
        follows(document, s),
        super::model::scopes_record(s),
        s.buffer.len() <= usize::MAX,
    ensures
        follows(document, super::model::closed(s)),
    decreases s.open.len(),
{
    if s.open.len() > 0 && s.open.last().depth >= s.depth {
        let scope = s.open.last();
        let run = Run { start: scope.start as usize, end: s.buffer.len() as usize };
        let u = TapeState {
            open: s.open.drop_last(),
            anchors: s.anchors.insert(scope.name, run),
            ..s
        };
        let count = document.len() - said(s.input).len();
        let events = s.buffer.skip(scope.start);
        assert(scope == s.open[s.open.len() - 1]);
        assert(super::model::scope_records(s.buffer, s.open[s.open.len() - 1], s.depth));
        assert(stands_before(document, count, events));
        assert(super::model::run_events(s.buffer, run) =~= events);
        assert(events == document.subrange(
            count - events.len(),
            count - events.len() + events.len(),
        ));
        assert forall|name: Seq<char>| #[trigger] u.anchors.contains_key(name) implies stands_in(
            document,
            super::model::run_events(u.buffer, u.anchors[name]),
        ) by {
            if name != scope.name {
                assert(s.anchors.contains_key(name));
            }
        }
        assert(follows(document, u));
        lemma_follows_closed(document, u);
    }
}

proof fn lemma_follows_recorded<'a>(
    document: Seq<Event<'a>>,
    s: TapeState<'a>,
    taken: TapeState<'a>,
    event: Event<'a>,
)
    requires
        follows(document, s),
        super::model::well_formed(s),
        s.input.len() > 0,
        s.input[0] == Ok::<Event<'a>, Failure>(event),
        taken == (TapeState { input: s.input.skip(1), replaying: taken.replaying, ..s }),
    ensures
        follows(document, super::model::recorded(taken, event)),
{
    let count = document.len() - said(s.input).len();
    let kept = super::model::recorded(taken, event);
    assert(said(s.input)[0] == event);
    assert(document[count] == event);
    assert(said(kept.input) =~= said(s.input).skip(1));
    assert(said(kept.input) =~= document.skip(count + 1));
    assert forall|i: int| 0 <= i < kept.open.len() implies stands_before(
        document,
        count + 1,
        kept.buffer.skip((#[trigger] kept.open[i]).start),
    ) by {
        if i < s.open.len() {
            let before = s.buffer.skip(s.open[i].start);
            assert(super::model::scope_records(s.buffer, s.open[i], s.depth));
            assert(stands_before(document, count, before));
            let events = kept.buffer.skip(kept.open[i].start);
            assert(events =~= before.push(event));
            assert(events =~= document.subrange(count + 1 - events.len(), count + 1));
        } else {
            let events = kept.buffer.skip(kept.open[i].start);
            assert(events =~= seq![event]);
            assert(events =~= document.subrange(count, count + 1));
        }
    }
    assert forall|name: Seq<char>| #[trigger] kept.anchors.contains_key(name) implies stands_in(
        document,
        super::model::run_events(kept.buffer, kept.anchors[name]),
    ) by {
        assert(s.anchors.contains_key(name));
        assert(super::model::run_events(kept.buffer, kept.anchors[name])
            =~= super::model::run_events(s.buffer, s.anchors[name]));
    }
}

proof fn lemma_follows_next<'a>(document: Seq<Event<'a>>, s: TapeState<'a>)
    requires
        follows(document, s),
        super::model::well_formed(s),
    ensures
        follows(document, super::model::tape_next(s).0),
    decreases s.limits.max_alias_expansions - s.expansions,
{
    super::model::lemma_pulled(s);
    let (taken, got) = super::model::pulled(s);
    match got {
        None => {
            assert(follows(document, taken));
        },
        Some((live, item)) => {
            if !live || item is Err {
                assert(follows(document, taken));
            }
            if let Ok(event) = item {
                let kept = if live {
                    super::model::recorded(taken, event)
                } else {
                    taken
                };
                if live {
                    lemma_follows_recorded(document, s, taken, event);
                }
                match event.kind {
                    EventKind::Alias { name } => {
                        if live {
                            super::model::lemma_recorded(taken, event);
                        }
                        super::model::lemma_stands_for(s);
                        let run = super::model::stands_for(kept, live, name@);
                        super::model::lemma_expanded(kept, run, name@, event.span);
                        let (next, refused) = super::model::expanded(kept, run, name@, event.span);
                        assert(follows(document, next));
                        if refused is None {
                            lemma_follows_next(document, next);
                        }
                    },
                    _ => {
                        if live {
                            super::model::lemma_opened(taken, event);
                            let depth = super::model::deeper(kept.depth, event);
                            let m = TapeState { depth, nesting: depth, ..kept };
                            assert(follows(document, m));
                            lemma_follows_closed(document, m);
                        } else {
                            let next = super::model::handed_out(taken, event, false).0;
                            assert(follows(document, next));
                        }
                    },
                }
            }
        },
    }
}

/// An anchor stands for what the document says: the events recorded under its name
/// are one value of the document, uninterrupted, and that value declares the anchor.
pub proof fn law_an_anchor_names_a_value_of_the_document<'a>(
    input: Seq<Result<Event<'a>, Failure>>,
    limits: ResourceLimits,
    n: nat,
    name: Seq<char>,
)
    requires
        input.len() <= usize::MAX,
        after(super::model::fresh(input, limits), n).anchors.contains_key(name),
    ensures
        ({
            let s = after(super::model::fresh(input, limits), n);
            let events = super::model::run_events(s.buffer, s.anchors[name]);
            &&& stands_in(said(input), events)
            &&& super::model::is_value_of(events, name)
        }),
{
    let s = super::model::fresh(input, limits);
    let document = said(input);
    assert(document.skip(0) =~= document);
    assert(follows(document, s));
    lemma_follows(document, s, n);
    lemma_stays_well_formed(s, n);
}

proof fn lemma_follows<'a>(document: Seq<Event<'a>>, s: TapeState<'a>, n: nat)
    requires
        follows(document, s),
        super::model::well_formed(s),
    ensures
        follows(document, after(s, n)),
    decreases n,
{
    if n > 0 {
        lemma_follows_next(document, s);
        super::model::lemma_next_keeps(s);
        lemma_follows(document, super::model::tape_next(s).0, (n - 1) as nat);
    }
}

// ---- definitions -------------------------------------------------------

/// An alias whose anchor is not defined is refused, by name and place.
pub proof fn law_an_undefined_alias_is_refused<'a>(s: TapeState<'a>, event: Event<'a>)
    requires
        s.replaying.len() == 0,
        s.input.len() > 0,
        s.input[0] == Ok::<Event<'a>, Failure>(event),
        event.kind is Alias,
        !s.anchors.contains_key(event.kind->name@),
    ensures
        super::model::tape_next(s).1 == Some(
            Err::<Event<'a>, Failure>(
                super::model::failure(
                    Reason::UndefinedAlias(event.kind->name@),
                    event.span,
                ),
            ),
        ),
{
}

/// An anchor does not define itself while its collection is being read: `&x [*x]` is
/// an undefined alias unless `x` was defined before.
pub proof fn law_an_anchor_cannot_alias_itself<'a>(
    s: TapeState<'a>,
    start: Event<'a>,
    alias: Event<'a>,
)
    requires
        super::model::well_formed(s),
        s.replaying.len() == 0,
        s.input.len() > 1,
        s.input[0] == Ok::<Event<'a>, Failure>(start),
        s.input[1] == Ok::<Event<'a>, Failure>(alias),
        crate::event::net(start) == 1,
        alias.kind is Alias,
        super::model::declared(start) == Some(alias.kind->name@),
        !s.anchors.contains_key(alias.kind->name@),
    ensures
        super::model::tape_next(super::model::tape_next(s).0).1 == Some(
            Err::<Event<'a>, Failure>(
                super::model::failure(
                    Reason::UndefinedAlias(alias.kind->name@),
                    alias.span,
                ),
            ),
        ),
{
    let (taken, got) = super::model::pulled(s);
    let kept = super::model::recorded(taken, start);
    assert(kept.open.last().depth == s.depth);
    let t = super::model::tape_next(s).0;
    assert(t.anchors == s.anchors);
    assert(t.input[0] == s.input[1]);
    law_an_undefined_alias_is_refused(t, alias);
}

/// An anchored scalar defines its anchor at once, in place of any earlier
/// definition: the anchor then stands for that one event.
pub proof fn law_the_latest_definition_counts<'a>(s: TapeState<'a>, event: Event<'a>)
    requires
        super::model::well_formed(s),
        s.replaying.len() == 0,
        s.input.len() > 0,
        s.input[0] == Ok::<Event<'a>, Failure>(event),
        event.kind is Scalar,
        super::model::declared(event) is Some,
    ensures
        ({
            let t = super::model::tape_next(s).0;
            let name = super::model::declared(event)->0;
            &&& t.anchors.contains_key(name)
            &&& super::model::run_events(t.buffer, t.anchors[name]) == seq![event]
        }),
{
    super::model::lemma_pulled(s);
    let (taken, got) = super::model::pulled(s);
    let kept = super::model::recorded(taken, event);
    let name = super::model::declared(event)->0;
    let depth = super::model::deeper(kept.depth, event);
    let m = TapeState { depth, nesting: depth, ..kept };
    let run = Run { start: (kept.buffer.len() - 1) as usize, end: kept.buffer.len() as usize };
    let u = TapeState {
        open: m.open.drop_last(),
        anchors: m.anchors.insert(name, run),
        ..m
    };
    assert(m.open.last() == (Scope { name, start: kept.buffer.len() - 1, depth: s.depth }));
    assert(super::model::closed(m) == super::model::closed(u));
    assert(u.open =~= s.open);
    assert forall|i: int| 0 <= i < u.open.len() implies (#[trigger] u.open[i]).depth
        < u.depth by {
        assert(s.open[i].depth < s.depth);
    }
    assert(super::model::closed(u) == u);
    assert(super::model::run_events(u.buffer, run) =~= seq![event]);
}

// ---- budgets -----------------------------------------------------------

/// Once the expansion budget is spent, every further alias is refused.
pub proof fn law_the_expansion_budget_is_enforced<'a>(s: TapeState<'a>, alias: Event<'a>)
    requires
        s.replaying.len() == 0,
        s.input.len() > 0,
        s.input[0] == Ok::<Event<'a>, Failure>(alias),
        alias.kind is Alias,
        s.anchors.contains_key(alias.kind->name@),
        s.expansions >= s.limits.max_alias_expansions,
    ensures
        super::model::tape_next(s).1 == Some(
            Err::<Event<'a>, Failure>(
                super::model::failure(
                    Reason::AliasExpansionLimitExceeded { limit: s.limits.max_alias_expansions },
                    alias.span,
                ),
            ),
        ),
{
}

/// An alias that stands for more events than the budget has left is refused, however
/// few aliases there were.
pub proof fn law_the_event_budget_is_enforced<'a>(s: TapeState<'a>, alias: Event<'a>)
    requires
        s.replaying.len() == 0,
        s.input.len() > 0,
        s.input[0] == Ok::<Event<'a>, Failure>(alias),
        alias.kind is Alias,
        s.anchors.contains_key(alias.kind->name@),
        s.expansions < s.limits.max_alias_expansions,
        s.expanded + s.anchors[alias.kind->name@].size() > s.limits.max_total_alias_nodes,
    ensures
        super::model::tape_next(s).1 == Some(
            Err::<Event<'a>, Failure>(
                super::model::failure(
                    Reason::AliasMaterializationLimitExceeded {
                        limit: s.limits.max_total_alias_nodes,
                    },
                    alias.span,
                ),
            ),
        ),
{
}

/// A replayed collection that would nest deeper than the limit is refused, and with
/// it everything that was still to be replayed.
pub proof fn law_the_depth_limit_is_enforced<'a>(s: TapeState<'a>, event: Event<'a>)
    requires
        super::model::pulled(s).1 == Some((false, Ok::<Event<'a>, Failure>(event))),
        crate::event::net(event) > 0,
        s.nesting >= s.limits.max_depth,
    ensures
        super::model::tape_next(s).1 == Some(
            Err::<Event<'a>, Failure>(
                super::model::failure(
                    Reason::DepthLimitExceeded { limit: s.limits.max_depth },
                    event.span,
                ),
            ),
        ),
        super::model::tape_next(s).0.replaying.len() == 0,
{
}

/// However aliases multiply, a tape yields no more items than its input holds plus
/// what the budget for expanded events allows.
pub proof fn law_amplification_is_bounded<'a>(s: TapeState<'a>)
    requires
        super::model::well_formed(s),
    ensures
        super::model::delivered(s).len() <= super::model::potential(s),
    decreases super::model::potential(s),
{
    super::model::lemma_next_shrinks(s);
    super::model::lemma_next_keeps(s);
    if super::model::tape_next(s).1 is Some {
        law_amplification_is_bounded(super::model::tape_next(s).0);
    }
}

/// A fresh tape yields at most its input and `max_total_alias_nodes` items more.
pub proof fn law_a_document_grows_by_the_budget_at_most<'a>(
    input: Seq<Result<Event<'a>, Failure>>,
    limits: ResourceLimits,
)
    requires
        input.len() <= usize::MAX,
    ensures
        super::model::delivered(super::model::fresh(input, limits)).len() <= input.len()
            + limits.max_total_alias_nodes,
{
    law_amplification_is_bounded(super::model::fresh(input, limits));
}

// ---- nesting -----------------------------------------------------------

/// Whether a run, from any of its events on, ends no deeper than it stands there.
pub open spec fn sinks(events: Seq<Event<'_>>) -> bool {
    forall|k: int|
        0 <= k <= events.len() ==> super::model::depth_of(#[trigger] events.skip(k)) <= 0
}

/// How much deeper what is left of the replays ends than it begins.
pub open spec fn depth_left(buffer: Seq<Event<'_>>, runs: Seq<Run>) -> int
    decreases runs.len(),
{
    if runs.len() == 0 {
        0
    } else {
        depth_left(buffer, runs.drop_last()) + super::model::depth_of(
            super::model::run_events(buffer, runs.last()),
        )
    }
}

/// Whether the replays will bring the nesting back to the parser's depth.
pub open spec fn balanced(s: TapeState<'_>) -> bool {
    &&& forall|i: int|
        0 <= i < s.replaying.len() ==> sinks(
            super::model::run_events(s.buffer, #[trigger] s.replaying[i]),
        )
    &&& s.nesting == s.depth - depth_left(s.buffer, s.replaying)
}

/// Runs of events add up what they nest.
pub proof fn lemma_depth_sum<'a>(left: Seq<Event<'a>>, right: Seq<Event<'a>>)
    ensures
        super::model::depth_of(left + right) == super::model::depth_of(left)
            + super::model::depth_of(right),
    decreases right.len(),
{
    if right.len() == 0 {
        assert(left + right =~= left);
    } else {
        lemma_depth_sum(left, right.drop_last());
        assert((left + right).drop_last() =~= left + right.drop_last());
    }
}

pub proof fn lemma_depth_first(events: Seq<Event<'_>>)
    requires
        events.len() > 0,
    ensures
        super::model::depth_of(events) == crate::event::net(events[0]) + super::model::depth_of(
            events.skip(1),
        ),
{
    let first = seq![events[0]];
    assert(events =~= first + events.skip(1));
    lemma_depth_sum(first, events.skip(1));
    assert(first.drop_last() =~= Seq::empty());
    assert(super::model::depth_of(first.drop_last()) == 0);
}

proof fn lemma_value_sinks(events: Seq<Event<'_>>)
    requires
        super::model::is_value(events),
    ensures
        sinks(events),
{
    assert forall|k: int| 0 <= k <= events.len() implies super::model::depth_of(
        #[trigger] events.skip(k),
    ) <= 0 by {
        assert(events =~= events.take(k) + events.skip(k));
        lemma_depth_sum(events.take(k), events.skip(k));
        if k == 0 {
            assert(events.take(k) =~= Seq::empty());
        } else if k == events.len() {
            assert(events.skip(k) =~= Seq::empty());
        }
    }
}

proof fn lemma_left_unfinished(buffer: Seq<Event<'_>>, runs: Seq<Run>)
    requires
        forall|i: int| 0 <= i < runs.len() ==> (#[trigger] runs[i]).fits(buffer.len()),
    ensures
        depth_left(buffer, super::model::unfinished(runs)) == depth_left(buffer, runs),
        super::model::unfinished(runs).len() <= runs.len(),
        forall|i: int|
            0 <= i < super::model::unfinished(runs).len() ==> super::model::unfinished(runs)[i]
                == runs[i],
    decreases runs.len(),
{
    if runs.len() > 0 && runs.last().start >= runs.last().end {
        lemma_left_unfinished(buffer, runs.drop_last());
        assert(runs.last() == runs[runs.len() - 1]);
        assert(super::model::run_events(buffer, runs.last()) =~= Seq::empty());
        assert forall|i: int| 0 <= i < super::model::unfinished(runs).len() implies (
        #[trigger] super::model::unfinished(runs)[i]) == runs[i] by {
            assert(super::model::unfinished(runs.drop_last())[i] == runs.drop_last()[i]);
        }
    }
}

proof fn lemma_left_sinks(buffer: Seq<Event<'_>>, runs: Seq<Run>)
    requires
        forall|i: int|
            0 <= i < runs.len() ==> sinks(super::model::run_events(buffer, #[trigger] runs[i])),
    ensures
        depth_left(buffer, runs) <= 0,
    decreases runs.len(),
{
    if runs.len() > 0 {
        lemma_left_sinks(buffer, runs.drop_last());
        let last = super::model::run_events(buffer, runs[runs.len() - 1]);
        assert(last.skip(0) =~= last);
    }
}

/// Taking a replayed event moves its nesting from what is left to what is handed out.
proof fn lemma_balanced_pull<'a>(s: TapeState<'a>)
    requires
        super::model::well_formed(s),
        balanced(s),
    ensures
        ({
            let (taken, got) = super::model::pulled(s);
            match got {
                Some((false, Ok(event))) => {
                    &&& forall|i: int|
                        0 <= i < taken.replaying.len() ==> sinks(
                            super::model::run_events(taken.buffer, #[trigger] taken.replaying[i]),
                        )
                    &&& taken.nesting + crate::event::net(event) == taken.depth - depth_left(
                        taken.buffer,
                        taken.replaying,
                    )
                    &&& taken.nesting + crate::event::net(event) >= 0
                },
                _ => balanced(taken) && taken.replaying.len() == 0 && taken.nesting == taken.depth,
            }
        }),
{
    let (taken, got) = super::model::pulled(s);
    super::model::lemma_pulled(s);
    lemma_left_unfinished(s.buffer, s.replaying);
    let left = super::model::unfinished(s.replaying);
    if left.len() > 0 {
        let run = left.last();
        assert(run == s.replaying[left.len() - 1]);
        let events = super::model::run_events(s.buffer, run);
        let more = super::model::run_events(s.buffer, taken.replaying.last());
        assert(more =~= events.skip(1));
        assert(events[0] == s.buffer[run.start as int]);
        lemma_depth_first(events);
        assert(taken.replaying.drop_last() =~= left.drop_last());
        assert forall|i: int| 0 <= i < taken.replaying.len() implies sinks(
            super::model::run_events(taken.buffer, #[trigger] taken.replaying[i]),
        ) by {
            if i < left.len() - 1 {
                assert(taken.replaying[i] == s.replaying[i]);
            } else {
                assert forall|k: int| 0 <= k <= more.len() implies super::model::depth_of(
                    #[trigger] more.skip(k),
                ) <= 0 by {
                    assert(more.skip(k) =~= events.skip(k + 1));
                }
            }
        }
        lemma_left_sinks(taken.buffer, taken.replaying);
    }
}

/// The nesting that a tape tracks is the nesting of what it hands out, however much
/// of it is replayed, and it never exceeds both the depth of the input and
/// `max_depth`: the depth that an alias introduces is bounded.
pub proof fn law_replays_nest_within_the_limit<'a>(s: TapeState<'a>)
    requires
        super::model::well_formed(s),
        balanced(s),
    ensures
        ({
            let (next, item) = super::model::tape_next(s);
            &&& balanced(next)
            &&& item matches Some(Ok(event)) ==> next.nesting == super::model::deeper(
                s.nesting,
                event,
            )
            &&& next.nesting <= next.depth || next.nesting <= s.limits.max_depth
        }),
    decreases s.limits.max_alias_expansions - s.expansions,
{
    super::model::lemma_next_keeps(s);
    super::model::lemma_pulled(s);
    lemma_balanced_pull(s);
    let (taken, got) = super::model::pulled(s);
    match got {
        Some((live, Ok(event))) => {
            let kept = if live {
                super::model::recorded(taken, event)
            } else {
                taken
            };
            match event.kind {
                EventKind::Alias { name } => {
                    if live {
                        super::model::lemma_recorded(taken, event);
                    }
                    assert(balanced(kept));
                    super::model::lemma_stands_for(s);
                    let run = super::model::stands_for(kept, live, name@);
                    super::model::lemma_expanded(kept, run, name@, event.span);
                    let (next, refused) = super::model::expanded(kept, run, name@, event.span);
                    if refused is None {
                        assert(next.replaying.drop_last() =~= kept.replaying);
                        lemma_value_sinks(super::model::run_events(s.buffer, run->0));
                        assert(super::model::run_events(kept.buffer, run->0)
                            =~= super::model::run_events(s.buffer, run->0));
                        assert(balanced(next)) by {
                            assert forall|i: int| 0 <= i < next.replaying.len() implies sinks(
                                super::model::run_events(next.buffer, #[trigger] next.replaying[i]),
                            ) by {
                                if i < kept.replaying.len() {
                                    assert(next.replaying[i] == kept.replaying[i]);
                                }
                            }
                        }
                        assert(next.limits == s.limits);
                        law_replays_nest_within_the_limit(next);
                        super::model::lemma_limits_stay(next);
                    } else {
                        assert(balanced(next));
                    }
                },
                _ => {
                    if live {
                        super::model::lemma_advanced_fields(kept, event);
                    }
                },
            }
        },
        _ => {},
    }
    super::model::lemma_limits_stay(s);
}

/// A fresh tape is balanced.
pub proof fn law_a_fresh_tape_is_balanced<'a>(
    input: Seq<Result<Event<'a>, Failure>>,
    limits: ResourceLimits,
)
    ensures
        balanced(super::model::fresh(input, limits)),
{
}

} // verus!
