//! What an alias stands for.

use vstd::prelude::*;

use super::model::{Run, TapeState};
use crate::error::Failure;
use crate::event::{Event, EventKind};

verus! {

/// The recorded events from one place to another, with every alias replaced by the
/// value that it was recorded with, aliases in that value included.
pub open spec fn written_out<'a>(
    buffer: Seq<Event<'a>>,
    targets: Seq<Option<Run>>,
    from: int,
    to: int,
) -> Seq<Event<'a>>
    decreases to, to - from,
{
    if 0 <= from < to {
        let tail = written_out(buffer, targets, from + 1, to);
        if buffer[from].kind is Alias {
            match targets[from] {
                Some(run) => if run.end <= from {
                    written_out(buffer, targets, run.start as int, run.end as int) + tail
                } else {
                    tail
                },
                None => tail,
            }
        } else {
            seq![buffer[from]] + tail
        }
    } else {
        Seq::empty()
    }
}

/// Whether every alias met on the way was defined when it was read.
pub open spec fn resolves<'a>(
    buffer: Seq<Event<'a>>,
    targets: Seq<Option<Run>>,
    from: int,
    to: int,
) -> bool
    decreases to, to - from,
{
    0 <= from < to ==> {
        &&& buffer[from].kind is Alias ==> match targets[from] {
            Some(run) => run.end <= from && resolves(
                buffer,
                targets,
                run.start as int,
                run.end as int,
            ),
            None => false,
        }
        &&& resolves(buffer, targets, from + 1, to)
    }
}

/// How many aliases are expanded on the way, and how many recorded events they stand
/// for.
pub open spec fn cost<'a>(
    buffer: Seq<Event<'a>>,
    targets: Seq<Option<Run>>,
    from: int,
    to: int,
) -> (int, int)
    decreases to, to - from,
{
    if 0 <= from < to {
        let (count, size) = cost(buffer, targets, from + 1, to);
        match targets[from] {
            Some(run) => if buffer[from].kind is Alias && run.end <= from {
                let (inner, within) = cost(
                    buffer,
                    targets,
                    run.start as int,
                    run.end as int,
                );
                (1 + inner + count, run.size() + within + size)
            } else {
                (count, size)
            },
            None => (count, size),
        }
    } else {
        (0, 0)
    }
}

/// A run with every alias in it replaced by the value that it was recorded with.
pub open spec fn run_written<'a>(s: TapeState<'a>, run: Run) -> Seq<Event<'a>> {
    written_out(s.buffer, s.targets, run.start as int, run.end as int)
}

/// Whether every alias in a run was defined when it was read.
pub open spec fn run_resolves<'a>(s: TapeState<'a>, run: Run) -> bool {
    resolves(s.buffer, s.targets, run.start as int, run.end as int)
}

/// What replaying a run takes out of the budgets, its own events aside.
pub open spec fn run_cost<'a>(s: TapeState<'a>, run: Run) -> (int, int) {
    cost(s.buffer, s.targets, run.start as int, run.end as int)
}

/// The nesting after a run of events.
pub open spec fn nested(nesting: int, events: Seq<Event<'_>>) -> int
    decreases events.len(),
{
    if events.len() == 0 {
        nesting
    } else {
        nested(super::model::deeper(nesting, events[0]), events.skip(1))
    }
}

/// Whether a run of events never nests deeper than `limit`.
pub open spec fn nests_within(nesting: int, events: Seq<Event<'_>>, limit: int) -> bool
    decreases events.len(),
{
    events.len() > 0 ==> {
        &&& crate::event::net(events[0]) > 0 ==> nesting < limit
        &&& nests_within(super::model::deeper(nesting, events[0]), events.skip(1), limit)
    }
}

proof fn lemma_nested_sum<'a>(
    nesting: int,
    left: Seq<Event<'a>>,
    right: Seq<Event<'a>>,
    limit: int,
)
    ensures
        nested(nesting, left + right) == nested(nested(nesting, left), right),
        nests_within(nesting, left + right, limit) <==> nests_within(nesting, left, limit)
            && nests_within(nested(nesting, left), right, limit),
    decreases left.len(),
{
    if left.len() == 0 {
        assert(left + right =~= right);
    } else {
        assert((left + right).skip(1) =~= left.skip(1) + right);
        lemma_nested_sum(
            super::model::deeper(nesting, left[0]),
            left.skip(1),
            right,
            limit,
        );
    }
}

proof fn lemma_cost<'a>(
    buffer: Seq<Event<'a>>,
    targets: Seq<Option<Run>>,
    from: int,
    to: int,
)
    ensures
        cost(buffer, targets, from, to).0 >= 0,
        cost(buffer, targets, from, to).1 >= 0,
    decreases to, to - from,
{
    if 0 <= from < to {
        lemma_cost(buffer, targets, from + 1, to);
        if let Some(run) = targets[from] {
            if run.end <= from {
                lemma_cost(buffer, targets, run.start as int, run.end as int);
            }
        }
    }
}

/// A tape whose innermost replay is over, at this price.
pub open spec fn replayed<'a>(s: TapeState<'a>, out: Seq<Event<'a>>, price: (int, int)) -> TapeState<
    'a,
> {
    TapeState {
        replaying: s.replaying.drop_last(),
        nesting: nested(s.nesting, out),
        expansions: s.expansions + price.0,
        expanded: s.expanded + price.1,
        ..s
    }
}

/// Whether a tape's budgets allow a replay at this price.
pub open spec fn affords<'a>(s: TapeState<'a>, out: Seq<Event<'a>>, price: (int, int)) -> bool {
    &&& s.expansions + price.0 <= s.limits.max_alias_expansions
    &&& s.expanded + price.1 <= s.limits.max_total_alias_nodes
    &&& nests_within(s.nesting, out, s.limits.max_depth as int)
}

/// A replay yields its recorded events with every alias written out, and then the
/// tape goes on as if there had been no replay.
pub proof fn law_a_replay_is_written_out<'a>(s: TapeState<'a>)
    requires
        super::model::well_formed(s),
        s.replaying.len() > 0,
        run_resolves(s, s.replaying.last()),
        affords(s, run_written(s, s.replaying.last()), run_cost(s, s.replaying.last())),
    ensures
        ({
            let run = s.replaying.last();
            let out = run_written(s, run);
            let t = replayed(s, out, run_cost(s, run));
            &&& super::model::well_formed(t)
            &&& super::model::delivered(s) == crate::stream::source::yields(out)
                + super::model::delivered(t)
        }),
    decreases s.replaying.last().end, s.replaying.last().size(),
{
    let run = s.replaying.last();
    assert(run == s.replaying[s.replaying.len() - 1]);
    let out = run_written(s, run);
    let price = run_cost(s, run);
    let t = replayed(s, out, price);
    super::model::lemma_next_keeps(s);
    if run.start >= run.end {
        super::model::lemma_retired(s);
        assert(t =~= (TapeState { replaying: s.replaying.drop_last(), ..s }));
        assert(super::model::pulled(s) == super::model::pulled(t));
        lemma_same_next(s, t);
        assert(crate::stream::source::yields(out) + super::model::delivered(t)
            =~= super::model::delivered(t));
    } else {
        super::model::lemma_pulled(s);
        super::model::lemma_stands_for(s);
        let (taken, got) = super::model::pulled(s);
        let at = run.start as int;
        let event = s.buffer[at];
        let rest = taken.replaying.last();
        assert(got == Some((false, Ok::<Event<'a>, Failure>(event))));
        assert(rest.start == at + 1 && rest.end == run.end);
        assert(taken.replaying.drop_last() =~= s.replaying.drop_last());
        let tail = run_written(s, rest);
        match event.kind {
            EventKind::Alias { name } => {
                let to = s.targets[at]->0;
                let first = run_written(s, to);
                let paid = run_cost(s, to);
                lemma_cost(s.buffer, s.targets, at + 1, run.end as int);
                lemma_cost(s.buffer, s.targets, to.start as int, to.end as int);
                lemma_nested_sum(s.nesting, first, tail, s.limits.max_depth as int);
                super::model::lemma_expanded(taken, Some(to), name@, event.span);
                let (next, refused) = super::model::expanded(taken, Some(to), name@, event.span);
                assert(refused is None);
                assert(super::model::tape_next(s) == super::model::tape_next(next));
                lemma_delivered_same(s, next);
                assert(next.replaying.last() == to);
                law_a_replay_is_written_out(next);
                let after = replayed(next, first, paid);
                assert(after.replaying =~= taken.replaying);
                law_a_replay_is_written_out(after);
                let end = replayed(after, tail, run_cost(s, rest));
                assert(end =~= t);
                lemma_yields_sum(first, tail);
                assert(super::model::delivered(s) =~= crate::stream::source::yields(out)
                    + super::model::delivered(t));
            },
            _ => {
                let (next, item) = super::model::handed_out(taken, event, false);
                assert(out.skip(1) =~= tail);
                assert(out[0] == event);
                super::model::lemma_replayed(taken, event);
                assert(s.targets[at] is None) by {
                    assert(super::model::target_is_value(s.buffer, s.targets, at));
                }
                law_a_replay_is_written_out(next);
                let end = replayed(next, tail, price);
                assert(end =~= t);
                assert(super::model::delivered(s) =~= seq![Ok(event)] + super::model::delivered(
                    next,
                ));
                assert(super::model::delivered(s) =~= crate::stream::source::yields(out)
                    + super::model::delivered(t));
            },
        }
    }
}

/// Whether the first `count` items of a stream hold no failure.
pub open spec fn calm<'a>(items: Seq<Result<Event<'a>, Failure>>, count: nat) -> bool {
    forall|i: int| 0 <= i < count && i < items.len() ==> #[trigger] items[i] is Ok
}

/// What follows calm events is calm, as far as the whole was.
pub proof fn lemma_calm_rest<'a>(
    items: Seq<Result<Event<'a>, Failure>>,
    left: Seq<Event<'a>>,
    right: Seq<Result<Event<'a>, Failure>>,
    count: nat,
)
    requires
        items == crate::stream::source::yields(left) + right,
        calm(items, left.len() + count),
    ensures
        calm(right, count),
{
    assert forall|i: int| 0 <= i < count && i < right.len() implies #[trigger] right[i] is Ok by {
        assert(items[left.len() + i] == right[i]);
    }
}

/// Writing out a value that declares an anchor gives at least the event that does.
proof fn lemma_written_out_some<'a>(s: TapeState<'a>, run: Run, name: Seq<char>)
    requires
        run.fits(s.buffer.len()),
        super::model::is_value_of(super::model::run_events(s.buffer, run), name),
    ensures
        run_written(s, run).len() > 0,
{
    let events = super::model::run_events(s.buffer, run);
    assert(events[0] == s.buffer[run.start as int]);
    assert(events[0].kind !is Alias);
}

/// A replay that yields what it stands for without a failure is within the budgets.
pub proof fn law_a_replay_without_failure_is_afforded<'a>(s: TapeState<'a>)
    requires
        super::model::well_formed(s),
        s.replaying.len() > 0,
        s.expanded <= s.limits.max_total_alias_nodes,
        run_resolves(s, s.replaying.last()),
        calm(super::model::delivered(s), run_written(s, s.replaying.last()).len()),
    ensures
        affords(s, run_written(s, s.replaying.last()), run_cost(s, s.replaying.last())),
    decreases s.replaying.last().end, s.replaying.last().size(),
{
    let run = s.replaying.last();
    assert(run == s.replaying[s.replaying.len() - 1]);
    let out = run_written(s, run);
    super::model::lemma_next_keeps(s);
    if run.start < run.end {
        super::model::lemma_pulled(s);
        super::model::lemma_stands_for(s);
        let (taken, got) = super::model::pulled(s);
        let at = run.start as int;
        let event = s.buffer[at];
        let rest = taken.replaying.last();
        assert(got == Some((false, Ok::<Event<'a>, Failure>(event))));
        assert(rest.start == at + 1 && rest.end == run.end);
        assert(taken.replaying.drop_last() =~= s.replaying.drop_last());
        let tail = run_written(s, rest);
        match event.kind {
            EventKind::Alias { name } => {
                let to = s.targets[at]->0;
                let first = run_written(s, to);
                let paid = run_cost(s, to);
                lemma_written_out_some(s, to, name@);
                super::model::lemma_expanded(taken, Some(to), name@, event.span);
                let (next, refused) = super::model::expanded(taken, Some(to), name@, event.span);
                if refused is Some {
                    assert(super::model::delivered(s)[0] is Err);
                }
                assert(super::model::tape_next(s) == super::model::tape_next(next));
                lemma_delivered_same(s, next);
                assert(next.replaying.last() == to);
                assert(calm(super::model::delivered(next), first.len()));
                law_a_replay_without_failure_is_afforded(next);
                law_a_replay_is_written_out(next);
                let after = replayed(next, first, paid);
                assert(after.replaying =~= taken.replaying);
                lemma_calm_rest(
                    super::model::delivered(s),
                    first,
                    super::model::delivered(after),
                    tail.len(),
                );
                law_a_replay_without_failure_is_afforded(after);
                lemma_nested_sum(s.nesting, first, tail, s.limits.max_depth as int);
            },
            _ => {
                let (next, item) = super::model::handed_out(taken, event, false);
                assert(out.skip(1) =~= tail);
                assert(out[0] == event);
                if item is Err {
                    assert(super::model::delivered(s)[0] is Err);
                }
                super::model::lemma_replayed(taken, event);
                assert(s.targets[at] is None) by {
                    assert(super::model::target_is_value(s.buffer, s.targets, at));
                }
                assert(super::model::delivered(s) =~= crate::stream::source::yields(seq![event])
                    + super::model::delivered(next));
                lemma_calm_rest(
                    super::model::delivered(s),
                    seq![event],
                    super::model::delivered(next),
                    tail.len(),
                );
                law_a_replay_without_failure_is_afforded(next);
            },
        }
    }
}

proof fn lemma_same_next<'a>(s: TapeState<'a>, t: TapeState<'a>)
    requires
        super::model::well_formed(s),
        super::model::well_formed(t),
        super::model::pulled(s) == super::model::pulled(t),
        s.limits == t.limits,
        s.expansions == t.expansions,
    ensures
        super::model::delivered(s) == super::model::delivered(t),
{
    assert(super::model::tape_next(s) == super::model::tape_next(t));
}

proof fn lemma_delivered_same<'a>(s: TapeState<'a>, t: TapeState<'a>)
    requires
        super::model::well_formed(s),
        super::model::well_formed(t),
        super::model::tape_next(s) == super::model::tape_next(t),
    ensures
        super::model::delivered(s) == super::model::delivered(t),
{
}

/// A source yields a run of events piece by piece.
pub proof fn lemma_yields_sum<'a>(left: Seq<Event<'a>>, right: Seq<Event<'a>>)
    ensures
        crate::stream::source::yields(left + right) == crate::stream::source::yields(left)
            + crate::stream::source::yields(right),
{
    assert(crate::stream::source::yields(left + right) =~= crate::stream::source::yields(left)
        + crate::stream::source::yields(right));
}

/// Written-out values end as deep as they began.
proof fn lemma_written_out_nests<'a>(s: TapeState<'a>, from: int, to: int, nesting: int)
    requires
        super::model::anchors_are_values(s),
        0 <= from <= to <= s.buffer.len(),
        resolves(s.buffer, s.targets, from, to),
        forall|k: int|
            from <= k <= to ==> nesting + super::model::depth_of(
                #[trigger] s.buffer.subrange(from, k),
            ) >= 0,
    ensures
        nested(nesting, written_out(s.buffer, s.targets, from, to)) == nesting
            + super::model::depth_of(s.buffer.subrange(from, to)),
    decreases to, to - from,
{
    if from == to {
        assert(s.buffer.subrange(from, to) =~= Seq::empty());
    } else {
        let event = s.buffer[from];
        let events = s.buffer.subrange(from, to);
        let next = nesting + crate::event::net(event);
        assert(s.buffer.subrange(from, from) =~= Seq::empty());
        assert(nesting + super::model::depth_of(s.buffer.subrange(from, from)) >= 0);
        assert forall|k: int| from + 1 <= k <= to implies next + super::model::depth_of(
            #[trigger] s.buffer.subrange(from + 1, k),
        ) >= 0 by {
            let longer = s.buffer.subrange(from, k);
            super::laws::lemma_depth_first(longer);
            assert(longer.skip(1) =~= s.buffer.subrange(from + 1, k));
            assert(nesting + super::model::depth_of(longer) >= 0);
        }
        super::laws::lemma_depth_first(events);
        assert(events.skip(1) =~= s.buffer.subrange(from + 1, to));
        assert(s.buffer.subrange(from + 1, from + 1) =~= Seq::empty());
        assert(next + super::model::depth_of(s.buffer.subrange(from + 1, from + 1)) >= 0);
        lemma_written_out_nests(s, from + 1, to, next);
        let tail = written_out(s.buffer, s.targets, from + 1, to);
        if event.kind is Alias {
            let run = s.targets[from]->0;
            assert(super::model::target_is_value(s.buffer, s.targets, from));
            lemma_value_nests(s, run, nesting);
            lemma_nested_sum(nesting, run_written(s, run), tail, 0);
        } else {
            let out = written_out(s.buffer, s.targets, from, to);
            assert(out[0] == event);
            assert(out.skip(1) =~= tail);
        }
    }
}

proof fn lemma_value_nests<'a>(s: TapeState<'a>, run: Run, nesting: int)
    requires
        super::model::anchors_are_values(s),
        run.fits(s.buffer.len()),
        run_resolves(s, run),
        super::model::is_value(super::model::run_events(s.buffer, run)),
        nesting >= 0,
    ensures
        nested(nesting, run_written(s, run)) == nesting,
    decreases run.end, run.end - run.start + 1,
{
    let from = run.start as int;
    let to = run.end as int;
    let inner = super::model::run_events(s.buffer, run);
    assert forall|k: int| from <= k <= to implies nesting + super::model::depth_of(
        #[trigger] s.buffer.subrange(from, k),
    ) >= 0 by {
        assert(s.buffer.subrange(from, k) =~= inner.take(k - from));
        if k == from {
            assert(inner.take(0) =~= Seq::empty());
        } else if k == to {
            assert(inner.take(k - from) =~= inner);
        }
    }
    lemma_written_out_nests(s, from, to, nesting);
}

/// An alias stands for the value it names: in its place a tape yields the events that
/// built that value, with the aliases among them written out in turn, and then the
/// rest of the document.
pub proof fn law_an_alias_stands_for_its_value<'a>(s: TapeState<'a>, alias: Event<'a>)
    requires
        super::model::well_formed(s),
        s.replaying.len() == 0,
        s.input.len() > 0,
        s.input[0] == Ok::<Event<'a>, Failure>(alias),
        alias.kind is Alias,
        s.anchors.contains_key(alias.kind->name@),
        ({
            let run = s.anchors[alias.kind->name@];
            let price = run_cost(s, run);
            &&& run_resolves(s, run)
            &&& affords(s, run_written(s, run), (1 + price.0, run.size() + price.1))
        }),
    ensures
        ({
            let run = s.anchors[alias.kind->name@];
            let price = run_cost(s, run);
            let t = TapeState {
                expansions: s.expansions + 1 + price.0,
                expanded: s.expanded + run.size() + price.1,
                ..super::model::recorded(super::model::pulled(s).0, alias)
            };
            &&& super::model::well_formed(t)
            &&& super::model::delivered(s) == crate::stream::source::yields(run_written(s, run))
                + super::model::delivered(t)
        }),
{
    super::model::lemma_pulled(s);
    let (taken, got) = super::model::pulled(s);
    let kept = super::model::recorded(taken, alias);
    super::model::lemma_recorded(taken, alias);
    let name = alias.kind->name@;
    let run = s.anchors[name];
    assert(s.anchors.contains_key(name));
    super::model::lemma_expanded(kept, Some(run), name, alias.span);
    lemma_written_later(s, kept, run.start as int, run.end as int);
    let out = run_written(s, run);
    let price = run_cost(s, run);
    lemma_cost(s.buffer, s.targets, run.start as int, run.end as int);
    let (next, refused) = super::model::expanded(kept, Some(run), name, alias.span);
    assert(refused is None);
    assert(super::model::tape_next(s) == super::model::tape_next(next));
    lemma_delivered_same(s, next);
    assert(next.replaying.last() == run);
    law_a_replay_is_written_out(next);
    lemma_value_nests(s, run, s.nesting);
    let t = TapeState {
        expansions: s.expansions + 1 + price.0,
        expanded: s.expanded + run.size() + price.1,
        ..kept
    };
    assert(replayed(next, out, price) =~= t);
}

/// Recording more changes nothing that is recorded already.
pub proof fn lemma_written_later<'a>(s: TapeState<'a>, t: TapeState<'a>, from: int, to: int)
    requires
        s.buffer.is_prefix_of(t.buffer),
        s.targets.is_prefix_of(t.targets),
        s.targets.len() == s.buffer.len(),
        to <= s.buffer.len(),
    ensures
        written_out(t.buffer, t.targets, from, to) == written_out(s.buffer, s.targets, from, to),
        resolves(t.buffer, t.targets, from, to) == resolves(s.buffer, s.targets, from, to),
        cost(t.buffer, t.targets, from, to) == cost(s.buffer, s.targets, from, to),
    decreases to, to - from,
{
    if 0 <= from < to {
        assert(t.buffer[from] == s.buffer[from]);
        assert(t.targets[from] == s.targets[from]);
        lemma_written_later(s, t, from + 1, to);
        if let Some(run) = s.targets[from] {
            if run.end <= from {
                lemma_written_later(s, t, run.start as int, run.end as int);
            }
        }
    }
}

/// An alias whose value comes without a failure is within the budgets.
pub proof fn law_an_alias_without_failure_is_afforded<'a>(s: TapeState<'a>, alias: Event<'a>)
    requires
        super::model::well_formed(s),
        s.replaying.len() == 0,
        s.expanded <= s.limits.max_total_alias_nodes,
        s.input.len() > 0,
        s.input[0] == Ok::<Event<'a>, Failure>(alias),
        alias.kind is Alias,
        s.anchors.contains_key(alias.kind->name@),
        run_resolves(s, s.anchors[alias.kind->name@]),
        calm(
            super::model::delivered(s),
            run_written(s, s.anchors[alias.kind->name@]).len(),
        ),
    ensures
        ({
            let run = s.anchors[alias.kind->name@];
            let price = run_cost(s, run);
            affords(s, run_written(s, run), (1 + price.0, run.size() + price.1))
        }),
{
    super::model::lemma_pulled(s);
    super::model::lemma_next_keeps(s);
    let (taken, got) = super::model::pulled(s);
    let kept = super::model::recorded(taken, alias);
    super::model::lemma_recorded(taken, alias);
    let name = alias.kind->name@;
    let run = s.anchors[name];
    assert(s.anchors.contains_key(name));
    super::model::lemma_expanded(kept, Some(run), name, alias.span);
    lemma_written_later(s, kept, run.start as int, run.end as int);
    lemma_written_out_some(s, run, name);
    let (next, refused) = super::model::expanded(kept, Some(run), name, alias.span);
    if refused is Some {
        assert(super::model::delivered(s)[0] is Err);
    }
    assert(super::model::tape_next(s) == super::model::tape_next(next));
    lemma_delivered_same(s, next);
    assert(next.replaying.last() == run);
    law_a_replay_without_failure_is_afforded(next);
}

// ---- failures on the way -----------------------------------------------

/// Whether a stream yields these events and then a failure.
pub open spec fn fails_after<'a>(
    items: Seq<Result<Event<'a>, Failure>>,
    out: Seq<Event<'a>>,
) -> bool {
    &&& out.len() < items.len()
    &&& items.take(out.len() as int) == crate::stream::source::yields(out)
    &&& items[out.len() as int] is Err
}

/// What fails after some events fails after them behind others.
pub proof fn lemma_fails_behind<'a>(
    items: Seq<Result<Event<'a>, Failure>>,
    left: Seq<Event<'a>>,
    right: Seq<Result<Event<'a>, Failure>>,
    out: Seq<Event<'a>>,
)
    requires
        items == crate::stream::source::yields(left) + right,
        fails_after(right, out),
    ensures
        fails_after(items, left + out),
{
    lemma_yields_sum(left, out);
    assert(items.take((left + out).len() as int) =~= crate::stream::source::yields(left)
        + right.take(out.len() as int));
}

/// What is calm, and calm behind that, is calm.
pub proof fn lemma_calm_sum<'a>(
    items: Seq<Result<Event<'a>, Failure>>,
    left: Seq<Event<'a>>,
    right: Seq<Result<Event<'a>, Failure>>,
    count: nat,
)
    requires
        items == crate::stream::source::yields(left) + right,
        calm(right, count),
    ensures
        calm(items, left.len() + count),
{
    assert forall|i: int|
        0 <= i < left.len() + count && i < items.len() implies #[trigger] items[i] is Ok by {
        if i >= left.len() {
            assert(items[i] == right[i - left.len()]);
        }
    }
}

/// A replay that does not come without a failure yields a part of what it stands for,
/// and then the failure.
pub proof fn law_a_failed_replay_stops_on_the_way<'a>(s: TapeState<'a>) -> (out: Seq<Event<'a>>)
    requires
        super::model::well_formed(s),
        s.replaying.len() > 0,
        s.expanded <= s.limits.max_total_alias_nodes,
        run_resolves(s, s.replaying.last()),
        !calm(super::model::delivered(s), run_written(s, s.replaying.last()).len()),
    ensures
        out.len() < run_written(s, s.replaying.last()).len(),
        out.is_prefix_of(run_written(s, s.replaying.last())),
        fails_after(super::model::delivered(s), out),
    decreases s.replaying.last().end, s.replaying.last().size(),
{
    let run = s.replaying.last();
    assert(run == s.replaying[s.replaying.len() - 1]);
    let whole = run_written(s, run);
    let all = super::model::delivered(s);
    let none = Seq::<Event<'a>>::empty();
    super::model::lemma_next_keeps(s);
    assert(run.start < run.end);
    super::model::lemma_pulled(s);
    super::model::lemma_stands_for(s);
    let (taken, got) = super::model::pulled(s);
    let at = run.start as int;
    let event = s.buffer[at];
    let rest = taken.replaying.last();
    assert(got == Some((false, Ok::<Event<'a>, Failure>(event))));
    assert(rest.start == at + 1 && rest.end == run.end);
    assert(taken.replaying.drop_last() =~= s.replaying.drop_last());
    let tail = run_written(s, rest);
    match event.kind {
        EventKind::Alias { name } => {
            let to = s.targets[at]->0;
            let first = run_written(s, to);
            lemma_written_out_some(s, to, name@);
            super::model::lemma_expanded(taken, Some(to), name@, event.span);
            let (next, refused) = super::model::expanded(taken, Some(to), name@, event.span);
            if refused is Some {
                assert(all[0] is Err);
                assert(all.take(0) =~= crate::stream::source::yields(none));
                none
            } else {
                assert(super::model::tape_next(s) == super::model::tape_next(next));
                lemma_delivered_same(s, next);
                assert(next.replaying.last() == to);
                if calm(all, first.len()) {
                    law_a_replay_without_failure_is_afforded(next);
                    law_a_replay_is_written_out(next);
                    let after = replayed(next, first, run_cost(s, to));
                    assert(after.replaying =~= taken.replaying);
                    let later = super::model::delivered(after);
                    if calm(later, tail.len()) {
                        lemma_calm_sum(all, first, later, tail.len());
                    }
                    let out = law_a_failed_replay_stops_on_the_way(after);
                    lemma_fails_behind(all, first, later, out);
                    first + out
                } else {
                    law_a_failed_replay_stops_on_the_way(next)
                }
            }
        },
        _ => {
            let (next, item) = super::model::handed_out(taken, event, false);
            assert(whole =~= seq![event] + tail);
            if item is Err {
                assert(all[0] is Err);
                assert(all.take(0) =~= crate::stream::source::yields(none));
                none
            } else {
                super::model::lemma_replayed(taken, event);
                let later = super::model::delivered(next);
                assert(all =~= crate::stream::source::yields(seq![event]) + later);
                if calm(later, tail.len()) {
                    lemma_calm_sum(all, seq![event], later, tail.len());
                }
                let out = law_a_failed_replay_stops_on_the_way(next);
                lemma_fails_behind(all, seq![event], later, out);
                seq![event] + out
            }
        },
    }
}

} // verus!
