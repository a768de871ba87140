//! What a tape is, as mathematics: its state, one request for an event, and what
//! every request keeps.

use vstd::prelude::*;

use crate::error::{Failure, Reason};
use crate::event::{Event, EventKind};
use crate::limits::ResourceLimits;
use crate::types::Span;

verus! {

/// A half-open range of recorded events.
#[derive(Debug, Clone, Copy, PartialEq, Eq, Structural)]
pub struct Run {
    /// The first event.
    pub start: usize,
    /// One past the last event.
    pub end: usize,
}

impl Run {
    /// How many events the run covers.
    pub open spec fn size(self) -> int {
        if self.start < self.end {
            self.end - self.start
        } else {
            0
        }
    }

    /// Whether the run lies within `count` events.
    pub open spec fn fits(self, count: nat) -> bool {
        self.start <= self.end <= count
    }
}

/// An anchor whose value is still being read.
pub struct Scope {
    /// The anchor's name.
    pub name: Seq<char>,
    /// Where its recorded events start.
    pub start: int,
    /// The nesting depth it was declared at.
    pub depth: int,
}

/// Everything a tape knows.
#[verifier::ext_equal]
pub struct TapeState<'a> {
    /// What the parser will still yield.
    pub input: Seq<Result<Event<'a>, Failure>>,
    /// Every recorded event.
    pub buffer: Seq<Event<'a>>,
    /// For every recorded event, the recorded events of the value that it names, if it
    /// is an alias of a defined anchor.
    pub targets: Seq<Option<Run>>,
    /// The defined anchors and the recorded events of their values.
    pub anchors: Map<Seq<char>, Run>,
    /// Anchors whose value is still being read, innermost last.
    pub open: Seq<Scope>,
    /// Nesting depth of the events read from the parser.
    pub depth: int,
    /// Nesting depth of the events handed out.
    pub nesting: int,
    /// What is still to be replayed, innermost last.
    pub replaying: Seq<Run>,
    /// How many aliases have been expanded.
    pub expansions: int,
    /// How many events those aliases stand for.
    pub expanded: int,
    /// The budgets.
    pub limits: ResourceLimits,
}

/// A tape that has read nothing yet.
pub open spec fn fresh<'a>(
    input: Seq<Result<Event<'a>, Failure>>,
    limits: ResourceLimits,
) -> TapeState<'a> {
    TapeState {
        input,
        buffer: Seq::empty(),
        targets: Seq::empty(),
        anchors: Map::empty(),
        open: Seq::empty(),
        depth: 0,
        nesting: 0,
        replaying: Seq::empty(),
        expansions: 0,
        expanded: 0,
        limits,
    }
}

/// The anchor an event declares.
pub open spec fn declared(event: Event<'_>) -> Option<Seq<char>> {
    let anchor = match event.kind {
        EventKind::Scalar { anchor, .. } => anchor,
        EventKind::SequenceStart { anchor, .. } => anchor,
        EventKind::MappingStart { anchor, .. } => anchor,
        _ => None,
    };
    match anchor {
        Some(name) => Some(name@),
        None => None,
    }
}

/// What is left to replay once the finished runs are gone.
pub open spec fn unfinished(replaying: Seq<Run>) -> Seq<Run>
    decreases replaying.len(),
{
    if replaying.len() > 0 && replaying.last().start >= replaying.last().end {
        unfinished(replaying.drop_last())
    } else {
        replaying
    }
}

/// Takes the next event: out of the innermost replay, or else from the parser.
///
/// The flag says whether it came from the parser.
pub open spec fn pulled<'a>(s: TapeState<'a>) -> (
    TapeState<'a>,
    Option<(bool, Result<Event<'a>, Failure>)>,
) {
    let left = unfinished(s.replaying);
    if left.len() > 0 {
        let run = left.last();
        let rest = Run { start: (run.start + 1) as usize, end: run.end };
        (
            TapeState { replaying: left.drop_last().push(rest), ..s },
            Some((false, Ok(s.buffer[run.start as int]))),
        )
    } else if s.input.len() > 0 {
        (
            TapeState { replaying: Seq::empty(), input: s.input.skip(1), ..s },
            Some((true, s.input[0])),
        )
    } else {
        (TapeState { replaying: Seq::empty(), ..s }, None)
    }
}

/// The recorded events of the value that an anchor stands for, if it is defined.
pub open spec fn looked_up(anchors: Map<Seq<char>, Run>, name: Seq<char>) -> Option<Run> {
    if anchors.contains_key(name) {
        Some(anchors[name])
    } else {
        None
    }
}

/// The recorded events of the value that an event names, if it is an alias of a defined
/// anchor.
pub open spec fn target(anchors: Map<Seq<char>, Run>, event: Event<'_>) -> Option<Run> {
    match event.kind {
        EventKind::Alias { name } => looked_up(anchors, name@),
        _ => None,
    }
}

/// Keeps an event that may have to be replayed: one inside an anchored value, or
/// one that declares an anchor. An alias is kept with what it names by then.
pub open spec fn recorded<'a>(s: TapeState<'a>, event: Event<'a>) -> TapeState<'a> {
    let keep = s.open.len() > 0 || declared(event) is Some;
    let buffer = if keep {
        s.buffer.push(event)
    } else {
        s.buffer
    };
    let targets = if keep {
        s.targets.push(target(s.anchors, event))
    } else {
        s.targets
    };
    let open = match declared(event) {
        Some(name) => s.open.push(Scope { name, start: buffer.len() - 1, depth: s.depth }),
        None => s.open,
    };
    TapeState { buffer, targets, open, ..s }
}

/// A depth after one more event; an unmatched end event leaves it at zero.
pub open spec fn deeper(depth: int, event: Event<'_>) -> int {
    let next = depth + crate::event::net(event);
    if next < 0 {
        0
    } else {
        next
    }
}

/// Closes every anchor that was declared at this depth or below it.
pub open spec fn closed<'a>(s: TapeState<'a>) -> TapeState<'a>
    decreases s.open.len(),
{
    if s.open.len() > 0 && s.open.last().depth >= s.depth {
        let scope = s.open.last();
        let run = Run { start: scope.start as usize, end: s.buffer.len() as usize };
        closed(
            TapeState { open: s.open.drop_last(), anchors: s.anchors.insert(scope.name, run), ..s },
        )
    } else {
        s
    }
}

/// Follows the nesting of an event read from the parser, and closes the anchors
/// whose value it completes.
pub open spec fn advanced<'a>(s: TapeState<'a>, event: Event<'a>) -> TapeState<'a> {
    let depth = deeper(s.depth, event);
    closed(TapeState { depth, nesting: depth, ..s })
}

/// A failure at `span`.
pub open spec fn failure(reason: Reason, span: Span) -> Failure {
    Failure { reason, span: Some(span) }
}

/// The recorded events that an alias stands for, if it is defined: those of its anchor
/// for one from the parser, and the ones that it was recorded with for one that was
/// just taken out of a replay.
pub open spec fn stands_for<'a>(s: TapeState<'a>, live: bool, name: Seq<char>) -> Option<Run> {
    if live {
        looked_up(s.anchors, name)
    } else {
        s.targets[s.replaying.last().start - 1]
    }
}

/// Queues the events that an alias stands for, within the budgets.
pub open spec fn expanded<'a>(
    s: TapeState<'a>,
    run: Option<Run>,
    name: Seq<char>,
    span: Span,
) -> (TapeState<'a>, Option<Failure>) {
    if run is None {
        (s, Some(failure(Reason::UndefinedAlias(name), span)))
    } else if s.expansions >= s.limits.max_alias_expansions {
        let limit = s.limits.max_alias_expansions;
        (s, Some(failure(Reason::AliasExpansionLimitExceeded { limit }, span)))
    } else {
        let run = run->0;
        let total = s.expanded + run.size();
        let charged = TapeState {
            expansions: s.expansions + 1,
            expanded: if total > usize::MAX {
                usize::MAX as int
            } else {
                total
            },
            ..s
        };
        if total > s.limits.max_total_alias_nodes {
            let limit = s.limits.max_total_alias_nodes;
            (charged, Some(failure(Reason::AliasMaterializationLimitExceeded { limit }, span)))
        } else {
            (TapeState { replaying: s.replaying.push(run), ..charged }, None)
        }
    }
}

/// Hands out an event that is no alias.
///
/// A replayed collection start that would nest too deep abandons every replay.
pub open spec fn handed_out<'a>(s: TapeState<'a>, event: Event<'a>, live: bool) -> (
    TapeState<'a>,
    Result<Event<'a>, Failure>,
) {
    if live {
        (advanced(s, event), Ok(event))
    } else if crate::event::net(event) > 0 && s.nesting >= s.limits.max_depth {
        let limit = s.limits.max_depth;
        (
            TapeState { replaying: Seq::empty(), nesting: s.depth, ..s },
            Err(failure(Reason::DepthLimitExceeded { limit }, event.span)),
        )
    } else {
        (TapeState { nesting: deeper(s.nesting, event), ..s }, Ok(event))
    }
}

/// One request for an event: the tape afterwards, and what it yields.
///
/// An alias is never yielded. It is replaced by the events of the value it names.
pub open spec fn tape_next<'a>(s: TapeState<'a>) -> (
    TapeState<'a>,
    Option<Result<Event<'a>, Failure>>,
)
    decreases s.limits.max_alias_expansions - s.expansions,
{
    let (taken, got) = pulled(s);
    match got {
        None => (taken, None),
        Some((_, Err(f))) => (taken, Some(Err(f))),
        Some((live, Ok(event))) => {
            let kept = if live {
                recorded(taken, event)
            } else {
                taken
            };
            match event.kind {
                EventKind::Alias { name } => {
                    let run = stands_for(kept, live, name@);
                    let (next, refused) = expanded(kept, run, name@, event.span);
                    match refused {
                        Some(f) => (next, Some(Err(f))),
                        None => tape_next(next),
                    }
                },
                _ => {
                    let (next, item) = handed_out(kept, event, live);
                    (next, Some(item))
                },
            }
        },
    }
}

// ---- what every tape keeps ---------------------------------------------

/// How much deeper a run of events ends than it begins.
pub open spec fn depth_of(events: Seq<Event<'_>>) -> int
    decreases events.len(),
{
    if events.len() == 0 {
        0
    } else {
        depth_of(events.drop_last()) + crate::event::net(events.last())
    }
}

/// Whether every beginning of a run, short of `count` events, is inside an open
/// collection.
pub open spec fn stays_inside(events: Seq<Event<'_>>, count: int) -> bool {
    forall|k: int| 0 < k < count ==> depth_of(#[trigger] events.take(k)) > 0
}

/// Whether a run of events is exactly one value: a lone event, or a collection from
/// its start to its matching end.
pub open spec fn is_value(events: Seq<Event<'_>>) -> bool {
    &&& events.len() > 0
    &&& depth_of(events) == 0
    &&& stays_inside(events, events.len() as int)
}

/// The recorded events of a run.
pub open spec fn run_events<'a>(buffer: Seq<Event<'a>>, run: Run) -> Seq<Event<'a>> {
    buffer.subrange(run.start as int, run.end as int)
}

/// Whether every defined anchor, and every recorded alias that was defined when it was
/// read, names one recorded value, the one that declares it. An alias names a value
/// that was complete before it.
pub open spec fn anchors_are_values(s: TapeState<'_>) -> bool {
    &&& forall|name: Seq<char>| #[trigger]
        s.anchors.contains_key(name) ==> s.anchors[name].fits(s.buffer.len()) && is_value_of(
            run_events(s.buffer, s.anchors[name]),
            name,
        )
    &&& s.targets.len() == s.buffer.len()
    &&& forall|i: int| 0 <= i < s.targets.len() ==> #[trigger] target_is_value(s.buffer, s.targets, i)
}

/// Whether a recorded event is recorded with the value that it names, if any.
pub open spec fn target_is_value(
    buffer: Seq<Event<'_>>,
    targets: Seq<Option<Run>>,
    i: int,
) -> bool {
    targets[i] matches Some(run) ==> {
        &&& buffer[i].kind matches EventKind::Alias { name }
        &&& run.fits(i as nat)
        &&& is_value_of(run_events(buffer, run), name@)
    }
}

/// Whether a run of events is one value, declared under this name.
pub open spec fn is_value_of(events: Seq<Event<'_>>, name: Seq<char>) -> bool {
    is_value(events) && declared(events[0]) == Some(name)
}

/// Whether the anchors still being read have recorded their value so far, the outer
/// ones being declared at lower depths.
pub open spec fn scopes_record(s: TapeState<'_>) -> bool {
    &&& forall|i: int|
        0 <= i < s.open.len() ==> scope_records(s.buffer, #[trigger] s.open[i], s.depth)
    &&& forall|i: int, j: int|
        0 <= i < j < s.open.len() ==> (#[trigger] s.open[i]).depth < (#[trigger] s.open[j]).depth
}

/// Whether an anchor has recorded the beginning of its value, up to `depth`.
pub open spec fn scope_records(buffer: Seq<Event<'_>>, scope: Scope, depth: int) -> bool {
    let events = buffer.skip(scope.start);
    &&& 0 <= scope.start < buffer.len()
    &&& declared(buffer[scope.start]) == Some(scope.name)
    &&& 0 <= scope.depth <= depth
    &&& depth_of(events) == depth - scope.depth
    &&& stays_inside(events, events.len() as int)
}

/// What holds of every tape between two requests.
pub open spec fn well_formed(s: TapeState<'_>) -> bool {
    &&& 0 <= s.depth
    &&& s.depth + s.input.len() <= usize::MAX
    &&& s.buffer.len() + s.input.len() <= usize::MAX
    &&& 0 <= s.nesting <= usize::MAX
    &&& s.nesting <= s.depth || s.nesting <= s.limits.max_depth
    &&& 0 <= s.expansions <= s.limits.max_alias_expansions
    &&& 0 <= s.expanded <= usize::MAX
    &&& anchors_are_values(s)
    &&& scopes_record(s)
    &&& forall|i: int| 0 <= i < s.open.len() ==> (#[trigger] s.open[i]).depth < s.depth
    &&& forall|i: int|
        0 <= i < s.replaying.len() ==> (#[trigger] s.replaying[i]).fits(s.buffer.len())
}

// ---- proofs that it is kept --------------------------------------------

proof fn lemma_unfinished(replaying: Seq<Run>, count: nat)
    requires
        forall|i: int|
            0 <= i < replaying.len() ==> (#[trigger] replaying[i]).fits(count),
    ensures
        unfinished(replaying).len() <= replaying.len(),
        unfinished(replaying) == replaying.take(unfinished(replaying).len() as int),
        unfinished(replaying).len() > 0 ==> unfinished(replaying).last().start < unfinished(
            replaying,
        ).last().end,
        forall|i: int|
            0 <= i < unfinished(replaying).len() ==> (#[trigger] unfinished(replaying)[i]).fits(
                count,
            ),
    decreases replaying.len(),
{
    if replaying.len() > 0 && replaying.last().start >= replaying.last().end {
        lemma_unfinished(replaying.drop_last(), count);
        assert(unfinished(replaying) =~= replaying.take(unfinished(replaying).len() as int));
    } else {
        assert(replaying =~= replaying.take(replaying.len() as int));
    }
}

/// Taking an event keeps a tape in order, and leaves room for recording it.
pub proof fn lemma_pulled(s: TapeState<'_>)
    requires
        well_formed(s),
    ensures
        well_formed(pulled(s).0),
        pulled(s).1 matches Some((live, _)) ==> if live {
            &&& pulled(s).0.depth + pulled(s).0.input.len() < usize::MAX
            &&& pulled(s).0.buffer.len() + pulled(s).0.input.len() < usize::MAX
            &&& pulled(s).0.replaying.len() == 0
            &&& s.input.len() > 0
        } else {
            &&& unfinished(s.replaying).len() > 0
            &&& unfinished(s.replaying).last().start < unfinished(s.replaying).last().end
                <= s.buffer.len()
        },
{
    lemma_unfinished(s.replaying, s.buffer.len());
    let t = pulled(s).0;
    assert(anchors_are_values(t));
    assert(scopes_record(t));
}

/// Retiring the innermost replay keeps a tape in order.
pub proof fn lemma_retired(s: TapeState<'_>)
    requires
        well_formed(s),
        s.replaying.len() > 0,
    ensures
        well_formed(TapeState { replaying: s.replaying.drop_last(), ..s }),
{
    let t = TapeState { replaying: s.replaying.drop_last(), ..s };
    assert(anchors_are_values(t));
    assert(scopes_record(t));
}

proof fn lemma_depth_push(events: Seq<Event<'_>>, event: Event<'_>)
    ensures
        depth_of(events.push(event)) == depth_of(events) + crate::event::net(event),
{
    assert(events.push(event).drop_last() =~= events);
}

/// An anchor still being read records one more event.
proof fn lemma_scope_push<'a>(
    buffer: Seq<Event<'a>>,
    scope: Scope,
    depth: int,
    event: Event<'a>,
)
    requires
        scope_records(buffer, scope, depth),
        scope.depth < depth,
    ensures
        scope_records(buffer.push(event), scope, depth + crate::event::net(event)),
        deeper(depth, event) == depth + crate::event::net(event),
{
    let events = buffer.skip(scope.start);
    let longer = buffer.push(event).skip(scope.start);
    assert(longer =~= events.push(event));
    lemma_depth_push(events, event);
    assert forall|k: int| 0 < k < longer.len() implies depth_of(#[trigger] longer.take(k))
        > 0 by {
        assert(longer.take(k) =~= events.take(k));
        if k == events.len() {
            assert(events.take(k) =~= events);
        }
    }
}

/// Recording one more event changes no recorded value.
proof fn lemma_anchors_push<'a>(s: TapeState<'a>, t: TapeState<'a>, event: Event<'a>)
    requires
        anchors_are_values(s),
        t.anchors == s.anchors,
        t.buffer == recorded(s, event).buffer,
        t.targets == recorded(s, event).targets,
    ensures
        anchors_are_values(t),
        s.buffer.is_prefix_of(t.buffer),
        s.targets.is_prefix_of(t.targets),
{
    assert forall|name: Seq<char>| #[trigger] t.anchors.contains_key(name) implies t.anchors[name].fits(
        t.buffer.len(),
    ) && is_value_of(run_events(t.buffer, t.anchors[name]), name) by {
        assert(s.anchors.contains_key(name));
        assert(run_events(t.buffer, t.anchors[name]) =~= run_events(s.buffer, s.anchors[name]));
    }
    assert forall|i: int| 0 <= i < t.targets.len() implies #[trigger] target_is_value(
        t.buffer,
        t.targets,
        i,
    ) by {
        if let Some(run) = t.targets[i] {
            if i < s.targets.len() {
                assert(target_is_value(s.buffer, s.targets, i));
                assert(t.targets[i] == s.targets[i]);
            } else {
                assert(s.anchors.contains_key(event.kind->name@));
            }
            assert(run_events(t.buffer, run) =~= run_events(s.buffer, run));
        }
    }
}

/// Recording an event that neither nests nor declares an anchor.
pub proof fn lemma_recorded<'a>(s: TapeState<'a>, event: Event<'a>)
    requires
        well_formed(s),
        s.buffer.len() + s.input.len() < usize::MAX,
        crate::event::net(event) == 0,
        declared(event) is None,
    ensures
        well_formed(recorded(s, event)),
{
    let t = recorded(s, event);
    lemma_anchors_push(s, t, event);
    assert forall|i: int| 0 <= i < t.open.len() implies scope_records(
        t.buffer,
        #[trigger] t.open[i],
        t.depth,
    ) by {
        lemma_scope_push(s.buffer, s.open[i], s.depth, event);
    }
}

proof fn lemma_closed<'a>(s: TapeState<'a>)
    requires
        s.buffer.len() <= usize::MAX,
        anchors_are_values(s),
        scopes_record(s),
    ensures
        ({
            let t = closed(s);
            &&& t == (TapeState { anchors: t.anchors, open: t.open, ..s })
            &&& anchors_are_values(t)
            &&& scopes_record(t)
            &&& forall|i: int| 0 <= i < t.open.len() ==> (#[trigger] t.open[i]).depth < t.depth
        }),
    decreases s.open.len(),
{
    if s.open.len() > 0 && s.open.last().depth >= s.depth {
        let scope = s.open.last();
        let run = Run { start: scope.start as usize, end: s.buffer.len() as usize };
        let u = TapeState {
            open: s.open.drop_last(),
            anchors: s.anchors.insert(scope.name, run),
            ..s
        };
        assert(scope_records(s.buffer, s.open[s.open.len() - 1], s.depth));
        assert(run_events(s.buffer, run) =~= s.buffer.skip(scope.start));
        assert forall|name: Seq<char>| #[trigger] u.anchors.contains_key(
            name,
        ) implies u.anchors[name].fits(u.buffer.len()) && is_value_of(
            run_events(u.buffer, u.anchors[name]),
            name,
        ) by {
            if name != scope.name {
                assert(s.anchors.contains_key(name));
            }
        }
        lemma_closed(u);
    }
}

/// Recording an event from the parser and following its nesting, before the anchors
/// that it completes are closed.
pub proof fn lemma_opened<'a>(s: TapeState<'a>, event: Event<'a>)
    requires
        well_formed(s),
        s.buffer.len() + s.input.len() < usize::MAX,
    ensures
        ({
            let depth = deeper(s.depth, event);
            let m = TapeState { depth, nesting: depth, ..recorded(s, event) };
            &&& anchors_are_values(m)
            &&& scopes_record(m)
            &&& m.buffer.len() + m.input.len() <= usize::MAX
        }),
{
    let r = recorded(s, event);
    let depth = deeper(s.depth, event);
    let m = TapeState { depth, nesting: depth, ..r };
    lemma_anchors_push(s, m, event);
    assert forall|i: int| 0 <= i < m.open.len() implies scope_records(
        m.buffer,
        #[trigger] m.open[i],
        m.depth,
    ) by {
        if i < s.open.len() {
            lemma_scope_push(s.buffer, s.open[i], s.depth, event);
        } else {
            let events = m.buffer.skip(m.open[i].start);
            assert(events =~= Seq::empty().push(event));
            lemma_depth_push(Seq::empty(), event);
        }
    }
    assert forall|i: int, j: int| 0 <= i < j < m.open.len() implies (#[trigger] m.open[i]).depth < (
    #[trigger] m.open[j]).depth by {
        if j < s.open.len() {
            assert(s.open[i].depth < s.open[j].depth);
        } else {
            assert(s.open[i].depth < s.depth);
        }
    }
}

/// Recording an event from the parser and following its nesting.
pub proof fn lemma_live<'a>(s: TapeState<'a>, event: Event<'a>)
    requires
        well_formed(s),
        s.depth + s.input.len() < usize::MAX,
        s.buffer.len() + s.input.len() < usize::MAX,
    ensures
        well_formed(advanced(recorded(s, event), event)),
        recorded(s, event).buffer.len() + s.input.len() <= usize::MAX,
{
    lemma_opened(s, event);
    let depth = deeper(s.depth, event);
    lemma_closed(TapeState { depth, nesting: depth, ..recorded(s, event) });
}

/// What an alias stands for is one recorded value, the one that declares its anchor.
pub proof fn lemma_stands_for<'a>(s: TapeState<'a>)
    requires
        well_formed(s),
    ensures
        ({
            let (taken, got) = pulled(s);
            match got {
                Some((live, Ok(event))) => {
                    let kept = if live {
                        recorded(taken, event)
                    } else {
                        taken
                    };
                    event.kind matches EventKind::Alias { name } ==> (stands_for(
                        kept,
                        live,
                        name@,
                    ) matches Some(run) ==> run.fits(s.buffer.len()) && is_value_of(
                        run_events(s.buffer, run),
                        name@,
                    ) && (!live ==> run.end < kept.replaying.last().start))
                },
                _ => true,
            }
        }),
{
    lemma_pulled(s);
    let (taken, got) = pulled(s);
    if let Some((live, Ok(event))) = got {
        if let EventKind::Alias { name } = event.kind {
            if !live {
                let at = unfinished(s.replaying).last().start as int;
                assert(taken.replaying.last().start == at + 1);
                assert(target_is_value(s.buffer, s.targets, at));
            }
        }
    }
}

/// Queueing a replay.
pub proof fn lemma_expanded<'a>(
    s: TapeState<'a>,
    run: Option<Run>,
    name: Seq<char>,
    span: Span,
)
    requires
        well_formed(s),
        run matches Some(r) ==> r.fits(s.buffer.len()),
    ensures
        well_formed(expanded(s, run, name, span).0),
{
    let t = expanded(s, run, name, span).0;
    assert(anchors_are_values(t));
    assert(scopes_record(t));
}

/// Handing out a replayed event.
pub proof fn lemma_replayed<'a>(s: TapeState<'a>, event: Event<'a>)
    requires
        well_formed(s),
    ensures
        well_formed(handed_out(s, event, false).0),
{
    let t = handed_out(s, event, false).0;
    assert(anchors_are_values(t));
    assert(scopes_record(t));
}

/// Every request keeps a tape in order.
pub proof fn lemma_next_keeps<'a>(s: TapeState<'a>)
    requires
        well_formed(s),
    ensures
        well_formed(tape_next(s).0),
    decreases s.limits.max_alias_expansions - s.expansions,
{
    lemma_pulled(s);
    let (taken, got) = pulled(s);
    if let Some((live, Ok(event))) = got {
        let kept = if live {
            recorded(taken, event)
        } else {
            taken
        };
        match event.kind {
            EventKind::Alias { name } => {
                if live {
                    lemma_recorded(taken, event);
                }
                lemma_stands_for(s);
                let run = stands_for(kept, live, name@);
                lemma_expanded(kept, run, name@, event.span);
                let (next, refused) = expanded(kept, run, name@, event.span);
                if refused is None {
                    lemma_next_keeps(next);
                }
            },
            _ => {
                if live {
                    lemma_live(taken, event);
                } else {
                    lemma_replayed(taken, event);
                }
            },
        }
    }
}

// ---- the whole stream --------------------------------------------------

/// How many events runs cover together.
pub open spec fn covered(runs: Seq<Run>) -> int
    decreases runs.len(),
{
    if runs.len() == 0 {
        0
    } else {
        covered(runs.drop_last()) + runs.last().size()
    }
}

/// How many items a tape can still yield at most: what the parser holds, what is
/// queued for replay, and what the budget lets aliases add.
pub open spec fn potential(s: TapeState<'_>) -> int {
    s.input.len() + covered(s.replaying) + (if s.expanded < s.limits.max_total_alias_nodes {
        s.limits.max_total_alias_nodes - s.expanded
    } else {
        0
    })
}

/// Everything a tape will still yield.
pub open spec fn delivered<'a>(s: TapeState<'a>) -> Seq<Result<Event<'a>, Failure>>
    decreases potential(s),
    when well_formed(s)
    via delivered_decreases
{
    match tape_next(s).1 {
        Some(item) => seq![item] + delivered(tape_next(s).0),
        None => Seq::empty(),
    }
}

#[via_fn]
proof fn delivered_decreases<'a>(s: TapeState<'a>) {
    lemma_next_shrinks(s);
}

proof fn lemma_covered(runs: Seq<Run>)
    ensures
        covered(runs) >= 0,
        covered(unfinished(runs)) == covered(runs),
    decreases runs.len(),
{
    if runs.len() > 0 {
        lemma_covered(runs.drop_last());
    }
}

proof fn lemma_closed_fields(s: TapeState<'_>)
    ensures
        closed(s) == (TapeState { anchors: closed(s).anchors, open: closed(s).open, ..s }),
    decreases s.open.len(),
{
    if s.open.len() > 0 && s.open.last().depth >= s.depth {
        let scope = s.open.last();
        let run = Run { start: scope.start as usize, end: s.buffer.len() as usize };
        lemma_closed_fields(
            TapeState { open: s.open.drop_last(), anchors: s.anchors.insert(scope.name, run), ..s },
        );
    }
}

/// Following an event from the parser changes depth, nesting, anchors and open
/// scopes, and nothing else.
pub proof fn lemma_advanced_fields<'a>(s: TapeState<'a>, event: Event<'a>)
    ensures
        ({
            let t = advanced(s, event);
            t == (TapeState {
                depth: deeper(s.depth, event),
                nesting: deeper(s.depth, event),
                anchors: t.anchors,
                open: t.open,
                ..s
            })
        }),
{
    let depth = deeper(s.depth, event);
    lemma_closed_fields(TapeState { depth, nesting: depth, ..s });
}

/// The budgets of a tape never change.
pub proof fn lemma_limits_stay<'a>(s: TapeState<'a>)
    ensures
        tape_next(s).0.limits == s.limits,
    decreases s.limits.max_alias_expansions - s.expansions,
{
    let (taken, got) = pulled(s);
    if let Some((live, Ok(event))) = got {
        let kept = if live {
            recorded(taken, event)
        } else {
            taken
        };
        match event.kind {
            EventKind::Alias { name } => {
                let run = stands_for(kept, live, name@);
                let (next, refused) = expanded(kept, run, name@, event.span);
                if refused is None {
                    lemma_limits_stay(next);
                }
            },
            _ => {
                if live {
                    lemma_advanced_fields(kept, event);
                }
            },
        }
    }
}

/// Every item a tape yields uses up some of what it can still yield.
pub proof fn lemma_next_shrinks<'a>(s: TapeState<'a>)
    requires
        well_formed(s),
    ensures
        0 <= potential(tape_next(s).0) <= potential(s),
        tape_next(s).1 is Some ==> potential(tape_next(s).0) < potential(s),
    decreases s.limits.max_alias_expansions - s.expansions,
{
    lemma_pulled(s);
    lemma_covered(s.replaying);
    let (taken, got) = pulled(s);
    lemma_covered(taken.replaying);
    if taken.replaying.len() > 0 {
        let left = unfinished(s.replaying);
        assert(taken.replaying.drop_last() =~= left.drop_last());
    }
    assert(got is Some ==> potential(taken) < potential(s));
    if let Some((live, Ok(event))) = got {
        let kept = if live {
            recorded(taken, event)
        } else {
            taken
        };
        match event.kind {
            EventKind::Alias { name } => {
                if live {
                    lemma_recorded(taken, event);
                }
                lemma_stands_for(s);
                let run = stands_for(kept, live, name@);
                lemma_expanded(kept, run, name@, event.span);
                let (next, refused) = expanded(kept, run, name@, event.span);
                if refused is None {
                    assert(next.replaying.drop_last() =~= kept.replaying);
                    lemma_next_shrinks(next);
                }
            },
            _ => {
                if live {
                    let depth = deeper(kept.depth, event);
                    lemma_closed_fields(TapeState { depth, nesting: depth, ..kept });
                }
            },
        }
    }
}

/// A tape that has nothing to yield stays that way.
pub proof fn lemma_stays_empty<'a>(s: TapeState<'a>)
    requires
        well_formed(s),
        tape_next(s).1 is None,
    ensures
        delivered(s).len() == 0,
        delivered(tape_next(s).0).len() == 0,
    decreases s.limits.max_alias_expansions - s.expansions,
{
    lemma_next_keeps(s);
    lemma_pulled(s);
    let (taken, got) = pulled(s);
    match got {
        Some((live, Ok(event))) => {
            let kept = if live {
                recorded(taken, event)
            } else {
                taken
            };
            if let EventKind::Alias { name } = event.kind {
                if live {
                    lemma_recorded(taken, event);
                }
                lemma_stands_for(s);
                let run = stands_for(kept, live, name@);
                lemma_expanded(kept, run, name@, event.span);
                lemma_stays_empty(expanded(kept, run, name@, event.span).0);
            }
        },
        _ => {},
    }
}

} // verus!
