//! Expanding aliases off a stream, and resolving them in a tree.

use vstd::prelude::*;

use super::model::{Run, Scope, TapeState};
use super::resolution::Anchored;
use crate::error::Failure;
use crate::event::{Event, EventKind};
use crate::node::Node;
use crate::stream::value::tree::Tree;
use crate::types::YamlVersion;

pub mod anchors;
pub mod refusal;

verus! {

// ---- writing out, piece by piece ---------------------------------------

/// Whether the recorded events from one place to another, written out, are these.
spec fn writes<'a>(s: TapeState<'a>, from: int, to: int, out: Seq<Event<'a>>) -> bool {
    &&& super::expansion::resolves(s.buffer, s.targets, from, to)
    &&& super::expansion::written_out(s.buffer, s.targets, from, to) == out
}

proof fn lemma_writes_sum<'a>(
    s: TapeState<'a>,
    from: int,
    middle: int,
    to: int,
    out: (Seq<Event<'a>>, Seq<Event<'a>>),
)
    requires
        0 <= from <= middle <= to,
        writes(s, from, middle, out.0),
        writes(s, middle, to, out.1),
    ensures
        writes(s, from, to, out.0 + out.1),
    decreases middle - from,
{
    if from == middle {
        assert(out.0 + out.1 =~= out.1);
    } else {
        let tail = super::expansion::written_out(s.buffer, s.targets, from + 1, middle);
        lemma_writes_sum(s, from + 1, middle, to, (tail, out.1));
        assert(super::expansion::written_out(s.buffer, s.targets, from, to) =~= out.0 + out.1);
    }
}

proof fn lemma_writes_one<'a>(s: TapeState<'a>, at: int)
    requires
        0 <= at < s.buffer.len(),
        s.buffer[at].kind !is Alias,
    ensures
        writes(s, at, at + 1, seq![s.buffer[at]]),
{
    assert(super::expansion::written_out(s.buffer, s.targets, at + 1, at + 1) =~= Seq::empty());
    assert(super::expansion::resolves(s.buffer, s.targets, at + 1, at + 1));
    assert(super::expansion::written_out(s.buffer, s.targets, at, at + 1) =~= seq![s.buffer[at]]);
}

/// Whether one tape has recorded all that another has.
spec fn records<'a>(t: TapeState<'a>, s: TapeState<'a>) -> bool {
    &&& s.buffer.is_prefix_of(t.buffer)
    &&& s.targets.is_prefix_of(t.targets)
}

/// Whether a tape defines exactly these anchors, each standing for its tree.
spec fn knows<'a>(s: TapeState<'a>, anchored: Anchored<'a>) -> bool {
    &&& forall|name: Seq<char>| #[trigger]
        anchored.contains_key(name) ==> s.anchors.contains_key(name) && writes(
            s,
            s.anchors[name].start as int,
            s.anchors[name].end as int,
            crate::stream::value::tree::events_of(anchored[name]),
        )
    &&& forall|name: Seq<char>| #[trigger]
        s.anchors.contains_key(name) ==> anchored.contains_key(name)
}

/// What a tape knows, it knows after recording more.
proof fn lemma_still_knows<'a>(s: TapeState<'a>, t: TapeState<'a>, anchored: Anchored<'a>)
    requires
        super::model::anchors_are_values(s),
        records(t, s),
        t.anchors == s.anchors,
        knows(s, anchored),
    ensures
        knows(t, anchored),
{
    assert forall|name: Seq<char>| #[trigger] anchored.contains_key(
        name,
    ) implies t.anchors.contains_key(name) && writes(
        t,
        t.anchors[name].start as int,
        t.anchors[name].end as int,
        crate::stream::value::tree::events_of(anchored[name]),
    ) by {
        assert(s.anchors.contains_key(name));
        let run = s.anchors[name];
        super::expansion::lemma_written_later(s, t, run.start as int, run.end as int);
    }
}

/// A tape knows an anchor once that is defined, in place of any earlier definition.
proof fn lemma_knows_defined<'a>(
    s: TapeState<'a>,
    t: TapeState<'a>,
    anchored: Anchored<'a>,
    name: Seq<char>,
    run: Run,
    tree: Tree<'a>,
)
    requires
        super::model::anchors_are_values(s),
        records(t, s),
        t.anchors == s.anchors.insert(name, run),
        knows(s, anchored),
        writes(t, run.start as int, run.end as int, crate::stream::value::tree::events_of(tree)),
    ensures
        knows(t, anchored.insert(name, tree)),
{
    let more = anchored.insert(name, tree);
    assert forall|other: Seq<char>| #[trigger] more.contains_key(
        other,
    ) implies t.anchors.contains_key(other) && writes(
        t,
        t.anchors[other].start as int,
        t.anchors[other].end as int,
        crate::stream::value::tree::events_of(more[other]),
    ) by {
        if other != name {
            assert(anchored.contains_key(other));
            assert(s.anchors.contains_key(other));
            let old_run = s.anchors[other];
            super::expansion::lemma_written_later(
                s,
                t,
                old_run.start as int,
                old_run.end as int,
            );
        }
    }
    assert forall|other: Seq<char>| #[trigger] t.anchors.contains_key(
        other,
    ) implies more.contains_key(other) by {
        if other != name {
            assert(s.anchors.contains_key(other));
        }
    }
}

// ---- one event off the parser ------------------------------------------

/// An event from the parser that is no alias is yielded as it is.
proof fn lemma_passed_on<'a>(
    s: TapeState<'a>,
    event: Event<'a>,
    rest: Seq<Result<Event<'a>, Failure>>,
)
    requires
        super::model::well_formed(s),
        s.replaying.len() == 0,
        s.input == seq![Ok::<Event<'a>, Failure>(event)] + rest,
        event.kind !is Alias,
    ensures
        ({
            let kept = super::model::recorded(TapeState { input: rest, ..s }, event);
            let t = super::model::tape_next(s).0;
            &&& t == super::model::advanced(kept, event)
            &&& t == (TapeState {
                depth: super::model::deeper(s.depth, event),
                nesting: super::model::deeper(s.depth, event),
                anchors: t.anchors,
                open: t.open,
                ..kept
            })
            &&& super::model::well_formed(t)
            &&& super::model::delivered(s) == crate::stream::source::yields(seq![event])
                + super::model::delivered(t)
        }),
{
    super::model::lemma_pulled(s);
    super::model::lemma_next_keeps(s);
    let (taken, got) = super::model::pulled(s);
    assert(s.input.skip(1) =~= rest);
    assert(s.input[0] == Ok::<Event<'a>, Failure>(event));
    assert(taken =~= (TapeState { input: rest, ..s }));
    let kept = super::model::recorded(taken, event);
    super::model::lemma_advanced_fields(kept, event);
    let t = super::model::tape_next(s).0;
    assert(t == super::model::advanced(kept, event));
    assert(super::model::delivered(s) =~= crate::stream::source::yields(seq![event])
        + super::model::delivered(t));
}

/// A scalar is recorded inside an anchored value, and defines its own anchor.
proof fn lemma_scalar_passed_on<'a>(
    s: TapeState<'a>,
    event: Event<'a>,
    rest: Seq<Result<Event<'a>, Failure>>,
)
    requires
        super::model::well_formed(s),
        s.replaying.len() == 0,
        s.input == seq![Ok::<Event<'a>, Failure>(event)] + rest,
        event.kind is Scalar,
    ensures
        ({
            let t = super::model::tape_next(s).0;
            let run = Run {
                start: (t.buffer.len() - 1) as usize,
                end: t.buffer.len() as usize,
            };
            &&& t.open == s.open
            &&& records(t, s)
            &&& t.buffer == (if s.open.len() > 0 || super::model::declared(event) is Some {
                s.buffer.push(event)
            } else {
                s.buffer
            })
            &&& match super::model::declared(event) {
                Some(name) => t.anchors == s.anchors.insert(name, run),
                None => t.anchors == s.anchors,
            }
        }),
{
    lemma_passed_on(s, event, rest);
    super::model::lemma_pulled(s);
    let kept = super::model::recorded(TapeState { input: rest, ..s }, event);
    let depth = super::model::deeper(kept.depth, event);
    let m = TapeState { depth, nesting: depth, ..kept };
    match super::model::declared(event) {
        Some(name) => {
            let run = Run {
                start: (kept.buffer.len() - 1) as usize,
                end: kept.buffer.len() as usize,
            };
            let u = TapeState {
                open: m.open.drop_last(),
                anchors: m.anchors.insert(name, run),
                ..m
            };
            assert(m.open.last() == (Scope {
                name,
                start: kept.buffer.len() - 1,
                depth: s.depth,
            }));
            assert(super::model::closed(m) == super::model::closed(u));
            assert(u.open =~= s.open);
            lemma_nothing_to_close(s, u);
        },
        None => {
            lemma_nothing_to_close(s, m);
        },
    }
}

proof fn lemma_nothing_to_close<'a>(s: TapeState<'a>, t: TapeState<'a>)
    requires
        super::model::well_formed(s),
        t.open == s.open,
        t.depth >= s.depth,
    ensures
        super::model::closed(t) == t,
{
    if s.open.len() > 0 {
        assert(s.open[s.open.len() - 1].depth < s.depth);
    }
}

/// The scope that a collection start opens, if it declares an anchor.
spec fn with_scope<'a>(s: TapeState<'a>, start: Event<'a>) -> Seq<Scope> {
    match super::model::declared(start) {
        Some(name) => s.open.push(
            Scope { name, start: s.buffer.len() as int, depth: s.depth },
        ),
        None => s.open,
    }
}

/// A collection start opens its scope.
proof fn lemma_start_passed_on<'a>(
    s: TapeState<'a>,
    event: Event<'a>,
    rest: Seq<Result<Event<'a>, Failure>>,
)
    requires
        super::model::well_formed(s),
        s.replaying.len() == 0,
        s.input == seq![Ok::<Event<'a>, Failure>(event)] + rest,
        crate::event::net(event) == 1,
    ensures
        ({
            let t = super::model::tape_next(s).0;
            &&& records(t, s)
            &&& t.depth == s.depth + 1
            &&& t.anchors == s.anchors
            &&& t.open == with_scope(s, event)
            &&& t.buffer == (if t.open.len() > 0 {
                s.buffer.push(event)
            } else {
                s.buffer
            })
        }),
{
    lemma_passed_on(s, event, rest);
    let kept = super::model::recorded(TapeState { input: rest, ..s }, event);
    let depth = super::model::deeper(kept.depth, event);
    let m = TapeState { depth, nesting: depth, ..kept };
    assert(kept.open =~= with_scope(s, event));
    if m.open.len() > 0 && super::model::declared(event) is None {
        assert(s.open[s.open.len() - 1].depth < s.depth);
    }
    assert(super::model::closed(m) == m);
}

/// A collection end closes the scope that its start opened, and no other.
proof fn lemma_end_passed_on<'a>(
    s: TapeState<'a>,
    start: Event<'a>,
    t: TapeState<'a>,
    event: Event<'a>,
    rest: Seq<Result<Event<'a>, Failure>>,
)
    requires
        super::model::well_formed(s),
        super::model::well_formed(t),
        t.replaying.len() == 0,
        t.input == seq![Ok::<Event<'a>, Failure>(event)] + rest,
        crate::event::net(event) == -1,
        t.depth == s.depth + 1,
        t.open == with_scope(s, start),
    ensures
        ({
            let u = super::model::tape_next(t).0;
            let run = Run { start: s.buffer.len() as usize, end: u.buffer.len() as usize };
            &&& records(u, t)
            &&& u.depth == s.depth
            &&& u.open == s.open
            &&& u.anchors == (match super::model::declared(start) {
                Some(name) => t.anchors.insert(name, run),
                None => t.anchors,
            })
            &&& u.buffer == (if t.open.len() > 0 {
                t.buffer.push(event)
            } else {
                t.buffer
            })
        }),
{
    lemma_passed_on(t, event, rest);
    let kept = super::model::recorded(TapeState { input: rest, ..t }, event);
    let depth = super::model::deeper(kept.depth, event);
    let m = TapeState { depth, nesting: depth, ..kept };
    match super::model::declared(start) {
        Some(name) => {
            let run = Run { start: s.buffer.len() as usize, end: m.buffer.len() as usize };
            let u = TapeState {
                open: m.open.drop_last(),
                anchors: m.anchors.insert(name, run),
                ..m
            };
            assert(m.open.last() == (Scope {
                name,
                start: s.buffer.len() as int,
                depth: s.depth,
            }));
            assert(super::model::closed(m) == super::model::closed(u));
            assert(u.open =~= s.open);
            lemma_nothing_to_close(s, u);
        },
        None => {
            lemma_nothing_to_close(s, m);
        },
    }
}

// ---- a whole tree off the parser ---------------------------------------

/// Whether a tape is about to read these events from the parser, knows these anchors,
/// and will yield `count` items without a failure.
spec fn ready<'a>(
    s: TapeState<'a>,
    raw: Seq<Event<'a>>,
    rest: Seq<Result<Event<'a>, Failure>>,
    anchored: Anchored<'a>,
    count: nat,
) -> bool {
    &&& super::model::well_formed(s)
    &&& s.replaying.len() == 0
    &&& s.expanded <= s.limits.max_total_alias_nodes
    &&& s.input == crate::stream::source::yields(raw) + rest
    &&& knows(s, anchored)
    &&& super::expansion::calm(super::model::delivered(s), count)
}

/// Whether one tape is what another becomes by yielding `out`, and has recorded it if
/// that was inside an anchored value.
spec fn has_read<'a>(s: TapeState<'a>, t: TapeState<'a>, out: Seq<Event<'a>>) -> bool {
    &&& super::model::well_formed(t)
    &&& t.replaying.len() == 0
    &&& t.expanded <= t.limits.max_total_alias_nodes
    &&& t.open == s.open
    &&& t.depth == s.depth
    &&& records(t, s)
    &&& s.open.len() > 0 ==> writes(t, s.buffer.len() as int, t.buffer.len() as int, out)
    &&& super::model::delivered(s) == crate::stream::source::yields(out)
        + super::model::delivered(t)
}

proof fn lemma_read_both<'a>(
    s: TapeState<'a>,
    t: TapeState<'a>,
    u: TapeState<'a>,
    out: (Seq<Event<'a>>, Seq<Event<'a>>),
)
    requires
        has_read(s, t, out.0),
        has_read(t, u, out.1),
    ensures
        has_read(s, u, out.0 + out.1),
{
    super::expansion::lemma_yields_sum(out.0, out.1);
    assert(super::model::delivered(s) =~= crate::stream::source::yields(out.0 + out.1)
        + super::model::delivered(u));
    if s.open.len() > 0 {
        let from = s.buffer.len() as int;
        let middle = t.buffer.len() as int;
        super::expansion::lemma_written_later(t, u, from, middle);
        lemma_writes_sum(u, from, middle, u.buffer.len() as int, out);
    }
}

/// Reading an alias yields the tree that it stands for.
proof fn lemma_alias_read<'a>(
    s: TapeState<'a>,
    event: Event<'a>,
    rest: Seq<Result<Event<'a>, Failure>>,
    anchored: Anchored<'a>,
    count: nat,
) -> (t: TapeState<'a>)
    requires
        ready(s, seq![event], rest, anchored, count),
        event.kind is Alias,
        anchored.contains_key(event.kind->name@),
        count >= crate::stream::value::tree::events_of(anchored[event.kind->name@]).len(),
    ensures
        has_read(s, t, crate::stream::value::tree::events_of(anchored[event.kind->name@])),
        t.input == rest,
        knows(t, anchored),
{
    let name = event.kind->name@;
    let out = crate::stream::value::tree::events_of(anchored[name]);
    assert(s.input[0] == Ok::<Event<'a>, Failure>(event));
    assert(s.input.skip(1) =~= rest);
    super::model::lemma_pulled(s);
    let taken = super::model::pulled(s).0;
    let kept = super::model::recorded(taken, event);
    assert(s.anchors.contains_key(name));
    let run = s.anchors[name];
    super::expansion::law_an_alias_without_failure_is_afforded(s, event);
    super::expansion::law_an_alias_stands_for_its_value(s, event);
    let price = super::expansion::run_cost(s, run);
    let t = TapeState {
        expansions: s.expansions + 1 + price.0,
        expanded: s.expanded + run.size() + price.1,
        ..kept
    };
    lemma_still_knows(s, t, anchored);
    if s.open.len() > 0 {
        let at = s.buffer.len() as int;
        super::expansion::lemma_written_later(s, t, run.start as int, run.end as int);
        assert(t.targets[at] == Some(run));
        assert(super::expansion::written_out(t.buffer, t.targets, at + 1, at + 1)
            =~= Seq::empty());
        assert(super::expansion::resolves(t.buffer, t.targets, at + 1, at + 1));
        assert(super::expansion::written_out(t.buffer, t.targets, at, at + 1) =~= out);
    }
    t
}

/// Reading a scalar yields it, and defines its anchor.
proof fn lemma_scalar_read<'a>(
    s: TapeState<'a>,
    event: Event<'a>,
    rest: Seq<Result<Event<'a>, Failure>>,
    anchored: Anchored<'a>,
    count: nat,
) -> (t: TapeState<'a>)
    requires
        ready(s, seq![event], rest, anchored, count),
        event.kind is Scalar,
    ensures
        has_read(s, t, seq![event]),
        t.input == rest,
        knows(t, super::resolution::defined(anchored, event, Tree::Leaf(event))),
{
    assert(s.input =~= seq![Ok::<Event<'a>, Failure>(event)] + rest);
    lemma_passed_on(s, event, rest);
    lemma_scalar_passed_on(s, event, rest);
    let t = super::model::tape_next(s).0;
    if t.buffer.len() > s.buffer.len() {
        lemma_writes_one(t, s.buffer.len() as int);
    }
    if let Some(name) = super::model::declared(event) {
        lemma_knows_defined(s, t, anchored, name, t.anchors[name], Tree::Leaf(event));
    } else {
        lemma_still_knows(s, t, anchored);
    }
    t
}

/// Reading a collection start.
proof fn lemma_start_read<'a>(
    s: TapeState<'a>,
    start: Event<'a>,
    inner: Seq<Event<'a>>,
    end: Event<'a>,
    rest: Seq<Result<Event<'a>, Failure>>,
    anchored: Anchored<'a>,
    count: nat,
) -> (t: TapeState<'a>)
    requires
        ready(s, seq![start] + inner + seq![end], rest, anchored, count + 1),
        crate::event::net(start) == 1,
    ensures
        t == super::model::tape_next(s).0,
        ready(t, inner, seq![Ok::<Event<'a>, Failure>(end)] + rest, anchored, count),
        t.depth == s.depth + 1,
        t.anchors == s.anchors,
        records(t, s),
        t.open == with_scope(s, start),
        t.buffer == (if t.open.len() > 0 {
            s.buffer.push(start)
        } else {
            s.buffer
        }),
        super::model::delivered(s) == crate::stream::source::yields(seq![start])
            + super::model::delivered(t),
{
    let later = crate::stream::source::yields(inner) + (seq![Ok::<Event<'a>, Failure>(end)]
        + rest);
    assert(s.input =~= seq![Ok::<Event<'a>, Failure>(start)] + later);
    lemma_passed_on(s, start, later);
    lemma_start_passed_on(s, start, later);
    let t = super::model::tape_next(s).0;
    lemma_still_knows(s, t, anchored);
    super::expansion::lemma_calm_rest(
        super::model::delivered(s),
        seq![start],
        super::model::delivered(t),
        count,
    );
    t
}

/// Reading a collection end completes the tree.
proof fn lemma_end_read<'a>(
    whole: Tree<'a>,
    within: Anchored<'a>,
    s: TapeState<'a>,
    start: Event<'a>,
    t: TapeState<'a>,
    inner: Seq<Event<'a>>,
    u: TapeState<'a>,
    end: Event<'a>,
    rest: Seq<Result<Event<'a>, Failure>>,
) -> (v: TapeState<'a>)
    requires
        super::model::well_formed(s),
        super::model::well_formed(t),
        crate::stream::value::tree::events_of(whole) == seq![start] + inner + seq![end],
        crate::event::net(start) == 1,
        crate::event::net(end) == -1,
        t.depth == s.depth + 1,
        t.open == with_scope(s, start),
        records(t, s),
        t.buffer == (if t.open.len() > 0 {
            s.buffer.push(start)
        } else {
            s.buffer
        }),
        super::model::delivered(s) == crate::stream::source::yields(seq![start])
            + super::model::delivered(t),
        has_read(t, u, inner),
        u.input == seq![Ok::<Event<'a>, Failure>(end)] + rest,
        knows(u, within),
    ensures
        has_read(s, v, crate::stream::value::tree::events_of(whole)),
        v.input == rest,
        knows(v, super::resolution::defined(within, start, whole)),
{
    let out = crate::stream::value::tree::events_of(whole);
    lemma_passed_on(u, end, rest);
    lemma_end_passed_on(s, start, u, end, rest);
    let v = super::model::tape_next(u).0;
    assert(super::model::delivered(s) =~= crate::stream::source::yields(out)
        + super::model::delivered(v)) by {
        super::expansion::lemma_yields_sum(seq![start] + inner, seq![end]);
        super::expansion::lemma_yields_sum(seq![start], inner);
    }
    let from = s.buffer.len() as int;
    let to = v.buffer.len() as int;
    if t.open.len() > 0 {
        super::expansion::lemma_written_later(u, v, from + 1, to - 1);
        lemma_writes_one(v, from);
        lemma_writes_one(v, to - 1);
        lemma_writes_sum(v, from, from + 1, to - 1, (seq![start], inner));
        lemma_writes_sum(v, from, to - 1, to, (seq![start] + inner, seq![end]));
    }
    if let Some(name) = super::model::declared(start) {
        lemma_knows_defined(u, v, within, name, v.anchors[name], whole);
    } else {
        lemma_still_knows(u, v, within);
    }
    v
}

/// Reading the events of a tree yields the events of the tree with its aliases
/// resolved.
proof fn lemma_tree_read<'a>(
    tree: Tree<'a>,
    anchored: Anchored<'a>,
    s: TapeState<'a>,
    rest: Seq<Result<Event<'a>, Failure>>,
    count: nat,
) -> (t: TapeState<'a>)
    requires
        super::resolution::resolved(tree, anchored) is Some,
        ready(s, crate::stream::value::tree::events_of(tree), rest, anchored, count),
        count >= crate::stream::value::tree::events_of(
            (super::resolution::resolved(tree, anchored)->0).0,
        ).len(),
    ensures
        has_read(
            s,
            t,
            crate::stream::value::tree::events_of((super::resolution::resolved(tree, anchored)->0).0),
        ),
        t.input == rest,
        knows(t, (super::resolution::resolved(tree, anchored)->0).1),
    decreases tree,
{
    match tree {
        Tree::Leaf(event) => match event.kind {
            EventKind::Alias { name } => lemma_alias_read(s, event, rest, anchored, count),
            _ => lemma_scalar_read(s, event, rest, anchored, count),
        },
        Tree::List { start, items, end } => {
            let (trees, within) = super::resolution::resolved_items(items, anchored)->0;
            let whole = Tree::List { start, items: trees, end };
            let raw = crate::stream::value::tree::events_of_items(items);
            let out = crate::stream::value::tree::events_of_items(trees);
            let ending = seq![Ok::<Event<'a>, Failure>(end)] + rest;
            let left = (count - 1) as nat;
            let t = lemma_start_read(s, start, raw, end, rest, anchored, left);
            let u = lemma_items_read(items, anchored, t, ending, left);
            lemma_end_read(whole, within, s, start, t, out, u, end, rest)
        },
        Tree::Table { opens, entries, closes } => {
            let (trees, within) = super::resolution::resolved_entries(entries, anchored)->0;
            let whole = Tree::Table { opens, entries: trees, closes };
            let raw = crate::stream::value::tree::events_of_entries(entries);
            let out = crate::stream::value::tree::events_of_entries(trees);
            let ending = seq![Ok::<Event<'a>, Failure>(closes)] + rest;
            let left = (count - 1) as nat;
            let t = lemma_start_read(s, opens, raw, closes, rest, anchored, left);
            let u = lemma_entries_read(entries, anchored, t, ending, left);
            lemma_end_read(whole, within, s, opens, t, out, u, closes, rest)
        },
    }
}

proof fn lemma_items_read<'a>(
    items: Seq<Tree<'a>>,
    anchored: Anchored<'a>,
    s: TapeState<'a>,
    rest: Seq<Result<Event<'a>, Failure>>,
    count: nat,
) -> (t: TapeState<'a>)
    requires
        super::resolution::resolved_items(items, anchored) is Some,
        ready(s, crate::stream::value::tree::events_of_items(items), rest, anchored, count),
        count >= crate::stream::value::tree::events_of_items(
            (super::resolution::resolved_items(items, anchored)->0).0,
        ).len(),
    ensures
        has_read(
            s,
            t,
            crate::stream::value::tree::events_of_items(
                (super::resolution::resolved_items(items, anchored)->0).0,
            ),
        ),
        t.input == rest,
        knows(t, (super::resolution::resolved_items(items, anchored)->0).1),
    decreases items,
{
    if items.len() == 0 {
        assert(s.input =~= rest);
        lemma_nothing_read(s);
        s
    } else {
        let (first, next) = super::resolution::resolved(items[0], anchored)->0;
        let (more, after) = super::resolution::resolved_items(items.drop_first(), next)->0;
        assert((seq![first] + more).drop_first() =~= more);
        let raw = (
            crate::stream::value::tree::events_of(items[0]),
            crate::stream::value::tree::events_of_items(items.drop_first()),
        );
        let out = (
            crate::stream::value::tree::events_of(first),
            crate::stream::value::tree::events_of_items(more),
        );
        let later = crate::stream::source::yields(raw.1) + rest;
        lemma_ready_first(s, raw, rest, anchored, count);
        let t = lemma_tree_read(items[0], anchored, s, later, count);
        lemma_ready_next(s, t, out, count);
        let u = lemma_items_read(items.drop_first(), next, t, rest, out.1.len());
        lemma_read_both(s, t, u, out);
        u
    }
}

proof fn lemma_entries_read<'a>(
    entries: Seq<(Tree<'a>, Tree<'a>)>,
    anchored: Anchored<'a>,
    s: TapeState<'a>,
    rest: Seq<Result<Event<'a>, Failure>>,
    count: nat,
) -> (t: TapeState<'a>)
    requires
        super::resolution::resolved_entries(entries, anchored) is Some,
        ready(s, crate::stream::value::tree::events_of_entries(entries), rest, anchored, count),
        count >= crate::stream::value::tree::events_of_entries(
            (super::resolution::resolved_entries(entries, anchored)->0).0,
        ).len(),
    ensures
        has_read(
            s,
            t,
            crate::stream::value::tree::events_of_entries(
                (super::resolution::resolved_entries(entries, anchored)->0).0,
            ),
        ),
        t.input == rest,
        knows(t, (super::resolution::resolved_entries(entries, anchored)->0).1),
    decreases entries,
{
    if entries.len() == 0 {
        assert(s.input =~= rest);
        lemma_nothing_read(s);
        s
    } else {
        let (key, next) = super::resolution::resolved(entries[0].0, anchored)->0;
        let (value, later) = super::resolution::resolved(entries[0].1, next)->0;
        let (more, after) = super::resolution::resolved_entries(entries.drop_first(), later)->0;
        assert((seq![(key, value)] + more).drop_first() =~= more);
        let keys = crate::stream::value::tree::events_of(entries[0].0);
        let values = crate::stream::value::tree::events_of(entries[0].1);
        let tail = crate::stream::value::tree::events_of_entries(entries.drop_first());
        let key_out = crate::stream::value::tree::events_of(key);
        let value_out = crate::stream::value::tree::events_of(value);
        let tail_out = crate::stream::value::tree::events_of_entries(more);
        assert(keys + values + tail =~= keys + (values + tail));
        lemma_ready_first(s, (keys, values + tail), rest, anchored, count);
        let then = crate::stream::source::yields(values + tail) + rest;
        let t = lemma_tree_read(entries[0].0, anchored, s, then, count);
        lemma_ready_next(s, t, (key_out, value_out + tail_out), count);
        let left = (value_out + tail_out).len();
        lemma_ready_first(t, (values, tail), rest, next, left);
        let last = crate::stream::source::yields(tail) + rest;
        let u = lemma_tree_read(entries[0].1, next, t, last, left);
        lemma_ready_next(t, u, (value_out, tail_out), left);
        let v = lemma_entries_read(entries.drop_first(), later, u, rest, tail_out.len());
        lemma_read_both(s, t, u, (key_out, value_out));
        lemma_read_both(s, u, v, (key_out + value_out, tail_out));
        v
    }
}

proof fn lemma_nothing_read<'a>(s: TapeState<'a>)
    requires
        super::model::well_formed(s),
        s.replaying.len() == 0,
        s.expanded <= s.limits.max_total_alias_nodes,
    ensures
        has_read(s, s, Seq::empty()),
{
    assert(super::model::delivered(s) =~= crate::stream::source::yields(Seq::empty())
        + super::model::delivered(s));
}

proof fn lemma_ready_first<'a>(
    s: TapeState<'a>,
    raw: (Seq<Event<'a>>, Seq<Event<'a>>),
    rest: Seq<Result<Event<'a>, Failure>>,
    anchored: Anchored<'a>,
    count: nat,
)
    requires
        ready(s, raw.0 + raw.1, rest, anchored, count),
    ensures
        ready(s, raw.0, crate::stream::source::yields(raw.1) + rest, anchored, count),
{
    super::expansion::lemma_yields_sum(raw.0, raw.1);
    assert(crate::stream::source::yields(raw.0 + raw.1) + rest =~= crate::stream::source::yields(
        raw.0,
    ) + (crate::stream::source::yields(raw.1) + rest));
}

proof fn lemma_ready_next<'a>(
    s: TapeState<'a>,
    t: TapeState<'a>,
    out: (Seq<Event<'a>>, Seq<Event<'a>>),
    count: nat,
)
    requires
        has_read(s, t, out.0),
        super::expansion::calm(super::model::delivered(s), count),
        count >= (out.0 + out.1).len(),
    ensures
        super::expansion::calm(super::model::delivered(t), out.1.len()),
{
    super::expansion::lemma_calm_rest(
        super::model::delivered(s),
        out.0,
        super::model::delivered(t),
        out.1.len(),
    );
}

// ---- the two paths agree -----------------------------------------------

/// Whether a tape has defined no anchor yet and is about to read these events from the
/// parser.
pub open spec fn about_to_read<'a>(
    s: TapeState<'a>,
    events: Seq<Event<'a>>,
    rest: Seq<Result<Event<'a>, Failure>>,
) -> bool {
    &&& super::model::well_formed(s)
    &&& s.replaying.len() == 0
    &&& s.expanded <= s.limits.max_total_alias_nodes
    &&& s.anchors == Map::<Seq<char>, Run>::empty()
    &&& s.input == crate::stream::source::yields(events) + rest
}

/// A tape over the events of a tree yields the events of that tree with its aliases
/// resolved, and then the rest of the document, unless it reports a failure on the way.
pub proof fn law_a_tape_resolves_the_aliases_of_a_tree<'a>(
    tree: Tree<'a>,
    whole: Tree<'a>,
    s: TapeState<'a>,
    rest: Seq<Result<Event<'a>, Failure>>,
) -> (t: TapeState<'a>)
    requires
        super::resolution::resolved_whole(tree) == Some(whole),
        about_to_read(s, crate::stream::value::tree::events_of(tree), rest),
        super::expansion::calm(
            super::model::delivered(s),
            crate::stream::value::tree::events_of(whole).len(),
        ),
    ensures
        super::model::well_formed(t),
        t.replaying.len() == 0,
        t.input == rest,
        super::model::delivered(s) == crate::stream::source::yields(
            crate::stream::value::tree::events_of(whole),
        ) + super::model::delivered(t),
{
    let count = crate::stream::value::tree::events_of(whole).len();
    assert(knows(s, Map::empty()));
    lemma_tree_read(tree, Map::empty(), s, rest, count)
}

/// The streaming path agrees with the tree path: reading a value step by step off a tape
/// gives what the node says that a composer makes of the same events, aliases resolved
/// and merge keys folded, and it fails if the node does not say a value. A tape that
/// reports a failure on the way refuses the value.
pub proof fn law_streaming_agrees_with_the_tree_across_aliases<'a, 'n>(
    node: Node<'n>,
    tree: Tree<'a>,
    plain: Tree<'a>,
    whole: Tree<'a>,
    s: TapeState<'a>,
    rest: Seq<Result<Event<'a>, Failure>>,
    version: YamlVersion,
    merge_keys: bool,
    fuel: nat,
) -> (t: TapeState<'a>)
    requires
        super::resolution::resolved_whole(tree) == Some(plain),
        crate::stream::value::folding::folded(plain, merge_keys) == Some(whole),
        crate::stream::value::tree::composed(node, whole),
        fuel >= crate::stream::value::tree::steps(whole),
        about_to_read(s, crate::stream::value::tree::events_of(tree), rest),
        super::expansion::calm(
            super::model::delivered(s),
            crate::stream::value::tree::events_of(plain).len(),
        ),
    ensures
        super::model::well_formed(t),
        t.replaying.len() == 0,
        t.input == rest,
        crate::stream::value::tree::streamed(
            super::model::delivered(s),
            version,
            merge_keys,
            fuel,
        ) == (match crate::stream::value::tree::node_shape(node, version) {
            Some(shape) => Some((shape, super::model::delivered(t))),
            None => None,
        }),
{
    let t = law_a_tape_resolves_the_aliases_of_a_tree(tree, plain, s, rest);
    crate::stream::value::tree::law_streaming_agrees_with_the_folded_tree(
        node,
        plain,
        whole,
        super::model::delivered(t),
        version,
        merge_keys,
        fuel,
    );
    t
}

} // verus!
