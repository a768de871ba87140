//! A replayable event tape, for resolving aliases without a node tree.
//!
//! A tree resolves an alias by copying a node that is already built. A stream has
//! no nodes, so it replays the **events** that built the anchored value instead.

use vstd::hash_map::StringHashMap;
use vstd::prelude::*;

use crate::error::{Error, ErrorKind, Failure};
use crate::event::{Event, EventKind};
use crate::limits::{ParserConfig, ResourceLimits};
use crate::stream::source::EventSource;
use crate::text::cow_str;
use crate::types::Span;
use model::{Run, Scope, TapeState};

pub mod agreement;
pub mod charges;
pub mod expansion;
pub mod laws;
pub mod model;
pub mod resolution;

verus! {

/// An anchor whose value is still being read.
struct OpenScope {
    /// The anchor's name.
    name: String,
    /// Where its recorded events start.
    start: usize,
    /// The nesting depth it was declared at.
    depth: usize,
}

/// The open anchors of a tape, as its model has them.
spec fn scopes(open: Seq<OpenScope>) -> Seq<Scope> {
    open.map_values(
        |s: OpenScope| Scope { name: s.name@, start: s.start as int, depth: s.depth as int },
    )
}

/// The anchor an event declares, if any.
///
/// Only three event kinds can carry one.
fn declared_anchor<'e>(event: &'e Event<'_>) -> (name: Option<&'e str>)
    ensures
        match model::declared(*event) {
            Some(n) => name matches Some(s) && s@ == n,
            None => name is None,
        },
        match event.kind {
            EventKind::Scalar { anchor: Some(n), .. } => name matches Some(s) && s@ == n@,
            EventKind::SequenceStart { anchor: Some(n), .. } => name matches Some(s) && s@ == n@,
            EventKind::MappingStart { anchor: Some(n), .. } => name matches Some(s) && s@ == n@,
            _ => name is None,
        },
{
    let anchor = match &event.kind {
        EventKind::Scalar { anchor, .. } => anchor,
        EventKind::SequenceStart { anchor, .. } => anchor,
        EventKind::MappingStart { anchor, .. } => anchor,
        _ => {
            return None;
        },
    };
    match anchor {
        Some(name) => Some(cow_str(name)),
        None => None,
    }
}

/// Parser events, with the ability to replay an anchored span.
pub struct Tape<'a, P: EventSource<'a>> {
    parser: P,
    /// Every recorded event, in one flat buffer.
    ///
    /// **Not a `Vec` per anchor.** Nested anchors -- `&x {p: &y 1}` -- cost nothing
    /// extra, because `y`'s run sits *inside* `x`'s.
    buffer: Vec<Event<'a>>,
    /// For every recorded event, the run in `buffer` of the value that it names, if it
    /// is an alias of a defined anchor.
    ///
    /// Kept because an anchor may be redefined: an alias inside an anchored value keeps
    /// the meaning it had when it was read.
    targets: Vec<Option<Run>>,
    /// Anchor name to its run in `buffer`.
    anchors: StringHashMap<Run>,
    /// Anchors whose value is still being read, innermost last.
    ///
    /// Recording continues while this is non-empty, so an outer anchor still open
    /// keeps collecting after an inner one closes.
    open: Vec<OpenScope>,
    /// Nesting depth of the events read from the parser.
    depth: usize,
    /// Nesting depth of the events handed out.
    nesting: usize,
    /// Runs still being replayed, innermost last.
    ///
    /// A stack rather than one cursor: an alias inside an anchored value expands
    /// while that value is itself being replayed.
    replaying: Vec<Run>,
    /// How many aliases have been expanded, and how many events they stand for.
    ///
    /// Expansion is where a small document becomes a large one. Both counters are
    /// charged before a replay begins.
    expansions: usize,
    expanded_events: usize,
    /// Limits governing the counters above.
    limits: ResourceLimits,
}

impl<'a, P: EventSource<'a>> View for Tape<'a, P> {
    type V = TapeState<'a>;

    closed spec fn view(&self) -> TapeState<'a> {
        TapeState {
            input: self.parser.remaining(),
            buffer: self.buffer@,
            targets: self.targets@,
            anchors: self.anchors@,
            open: scopes(self.open@),
            depth: self.depth as int,
            nesting: self.nesting as int,
            replaying: self.replaying@,
            expansions: self.expansions as int,
            expanded: self.expanded_events as int,
            limits: self.limits,
        }
    }
}

impl<'a, P: EventSource<'a>> Tape<'a, P> {
    /// Whether the tape's parser is in working order.
    pub closed spec fn parses(&self) -> bool {
        self.parser.inv()
    }

    /// What holds of every tape.
    pub open spec fn keeps(&self) -> bool {
        self.parses() && model::well_formed(self@)
    }

    /// Creates a tape over a parser's events, with default limits.
    pub fn new(parser: P) -> (tape: Self)
        requires
            parser.inv(),
            parser.remaining().len() <= usize::MAX,
        ensures
            tape.keeps(),
            tape@ == model::fresh(
                parser.remaining(),
                (ResourceLimits {
                    max_alias_expansions: 1024,
                    max_total_alias_nodes: 100_000,
                    max_depth: 192,
                }),
            ),
    {
        Self::with_config(parser, ParserConfig::default())
    }

    /// Creates a tape over a parser's events, with caller-supplied limits.
    pub fn with_config(parser: P, config: ParserConfig) -> (tape: Self)
        requires
            parser.inv(),
            parser.remaining().len() <= usize::MAX,
        ensures
            tape.keeps(),
            tape@ == model::fresh(parser.remaining(), config.limits),
    {
        let tape = Tape {
            parser,
            buffer: Vec::new(),
            targets: Vec::new(),
            anchors: StringHashMap::new(),
            open: Vec::new(),
            depth: 0,
            nesting: 0,
            replaying: Vec::new(),
            expansions: 0,
            expanded_events: 0,
            limits: config.limits,
        };
        assert(tape@ =~= model::fresh(parser.remaining(), config.limits));
        tape
    }

    /// Yields the next event, resolving aliases and recording anchored spans.
    ///
    /// Recording is **lazy**: the buffer stays empty until an anchor is actually
    /// seen.
    ///
    /// An alias never reaches the caller. It is replaced by the events of the value
    /// it names, so a consumer reads an aliased value with no knowledge that aliases
    /// exist.
    pub fn next(&mut self) -> (item: Option<Result<Event<'a>, Error>>)
        requires
            old(self).keeps(),
        ensures
            final(self).keeps(),
            final(self)@ == model::tape_next(old(self)@).0,
            match item {
                Some(i) => model::tape_next(old(self)@).1 == Some(
                    crate::stream::source::outcome(i),
                ),
                None => model::tape_next(old(self)@).1 is None,
            },
    {
        let ghost start = self@;
        loop
            invariant
                self.keeps(),
                start == old(self)@,
                model::tape_next(self@) == model::tape_next(start),
            decreases self@.limits.max_alias_expansions - self@.expansions,
        {
            let ghost before = self@;
            proof {
                model::lemma_pulled(before);
            }
            // `pull` also reports where the event came from. That answer is only
            // correct once the exhausted replays are gone, so it is not asked
            // separately.
            let (live, event) = match self.pull() {
                None => {
                    return None;
                },
                Some((_, Err(error))) => {
                    return Some(Err(error));
                },
                Some((live, Ok(event))) => (live, event),
            };
            let ghost taken = self@;
            if live {
                self.record(&event);
            }
            // The alias event is what gets recorded above, not its expansion.
            // Replaying a span that contains one therefore expands it again.
            if let EventKind::Alias { name } = &event.kind {
                proof {
                    if live {
                        model::lemma_recorded(taken, event);
                    }
                    model::lemma_stands_for(before);
                }
                let run = self.aliased(live, cow_str(name));
                proof {
                    model::lemma_expanded(self@, run, name@, event.span);
                }
                if let Err(error) = self.expand(run, cow_str(name), event.span) {
                    return Some(Err(error));
                }
                continue ;
            }
            if live {
                proof {
                    model::lemma_live(taken, event);
                }
                self.advance_scopes(&event);
                return Some(Ok(event));
            }
            proof {
                model::lemma_replayed(taken, event);
            }
            return match self.follow(&event) {
                Ok(()) => Some(Ok(event)),
                Err(error) => Some(Err(error)),
            };
        }
    }

    /// Takes the next event, and reports whether it came from the parser.
    fn pull(&mut self) -> (got: Option<(bool, Result<Event<'a>, Error>)>)
        requires
            old(self).keeps(),
        ensures
            final(self).parses(),
            final(self)@ == model::pulled(old(self)@).0,
            match got {
                Some((live, item)) => model::pulled(old(self)@).1 == Some(
                    (live, crate::stream::source::outcome(item)),
                ),
                None => model::pulled(old(self)@).1 is None,
            },
    {
        let ghost start = self@;
        proof {
            model::lemma_pulled(start);
        }
        while self.replaying.len() > 0
            invariant
                self.keeps(),
                start == old(self)@,
                model::unfinished(self.replaying@) == model::unfinished(start.replaying),
                self@ == (TapeState { replaying: self.replaying@, ..start }),
            decreases self.replaying@.len(),
        {
            let last: usize = self.replaying.len() - 1;
            let run = self.replaying[last];
            assert(self@.replaying[last as int].fits(self@.buffer.len()));
            if run.start < run.end {
                self.replaying.pop();
                self.replaying.push(Run { start: run.start + 1, end: run.end });
                assert(self@ =~= model::pulled(start).0);
                return Some((false, Ok(self.buffer[run.start].clone())));
            }
            let ghost before = self@;
            self.replaying.pop();
            assert(self@ =~= (TapeState { replaying: before.replaying.drop_last(), ..before }));
            proof {
                model::lemma_retired(before);
            }
        }
        let ghost left = self.parser.remaining();
        assert(self.replaying@ =~= Seq::empty());
        match self.parser.next_event() {
            Some(item) => {
                assert(left.skip(1) =~= self.parser.remaining());
                assert(self@ =~= model::pulled(start).0);
                Some((true, item))
            },
            None => {
                assert(left =~= self.parser.remaining());
                assert(self@ =~= model::pulled(start).0);
                None
            },
        }
    }

    /// Buffers an event when it may later need replaying, and opens any scope it
    /// declares.
    fn record(&mut self, event: &Event<'a>)
        requires
            old(self).parses(),
        ensures
            final(self).parses(),
            final(self)@ == model::recorded(old(self)@, *event),
    {
        let ghost start = self@;
        let anchor = declared_anchor(event);
        // Recorded when either a scope is open -- the event is part of some anchored
        // value -- or the event declares an anchor, since the span has to start at
        // that event rather than after it.
        if self.open.len() > 0 || anchor.is_some() {
            let target = match &event.kind {
                EventKind::Alias { name } => self.lookup(cow_str(name)),
                _ => None,
            };
            self.buffer.push(event.clone());
            self.targets.push(target);
        }
        if let Some(name) = anchor {
            let scope = OpenScope {
                name: name.to_owned(),
                start: self.buffer.len() - 1,
                depth: self.depth,
            };
            self.open.push(scope);
        }
        assert(self@.open =~= model::recorded(start, *event).open);
        assert(self@ =~= model::recorded(start, *event));
    }

    /// Tracks nesting depth and closes every scope the event completes.
    fn advance_scopes(&mut self, event: &Event<'a>)
        requires
            old(self).parses(),
            old(self)@.depth < usize::MAX,
        ensures
            final(self).parses(),
            final(self)@ == model::advanced(old(self)@, *event),
    {
        let ghost start = self@;
        match event.kind {
            EventKind::SequenceStart { .. } => {
                self.depth = self.depth + 1;
            },
            EventKind::MappingStart { .. } => {
                self.depth = self.depth + 1;
            },
            // `saturating_sub`: an unbalanced end event is a malformed document, and
            // must not underflow.
            EventKind::SequenceEnd => {
                self.depth = self.depth.saturating_sub(1);
            },
            EventKind::MappingEnd => {
                self.depth = self.depth.saturating_sub(1);
            },
            _ => {},
        }
        self.nesting = self.depth;
        // A scope closes once the stream is back at the depth it opened at: a scalar
        // anchor closes immediately, a collection anchor at its matching end event.
        while self.open.len() > 0 && self.open[self.open.len() - 1].depth >= self.depth
            invariant
                self.parses(),
                model::closed(self@) == model::advanced(start, *event),
            ensures
                self.open@.len() > 0 ==> self.open@[self.open@.len() - 1].depth < self.depth,
            decreases self.open@.len(),
        {
            let ghost before = self@;
            if let Some(scope) = self.open.pop() {
                assert(before.open.last() == (Scope {
                    name: scope.name@,
                    start: scope.start as int,
                    depth: scope.depth as int,
                }));
                // A repeated anchor name replaces the earlier span: an alias refers
                // to the most recent definition.
                let run = Run { start: scope.start, end: self.buffer.len() };
                self.anchors.insert(scope.name, run);
                assert(self@.open =~= before.open.drop_last());
            }
        }
        assert(model::closed(self@) == self@) by {
            if self.open@.len() > 0 {
                assert(self@.open.last().depth == self.open@[self.open@.len() - 1].depth);
            }
        }
    }

    /// The run that `name` stands for, if it is defined.
    ///
    /// An anchor still being read is not defined yet, so `&x [*x]` reports an
    /// undefined alias instead of looping forever.
    fn lookup(&self, name: &str) -> (run: Option<Run>)
        ensures
            run == model::looked_up(self@.anchors, name@),
    {
        match self.anchors.get(name) {
            Some(run) => Some(*run),
            None => None,
        }
    }

    /// The run that an alias stands for which was just taken, if it is defined.
    fn aliased(&self, live: bool, name: &str) -> (run: Option<Run>)
        requires
            self.keeps(),
            !live ==> self@.replaying.len() > 0 && self@.replaying.last().start > 0,
        ensures
            run == model::stands_for(self@, live, name@),
    {
        if live {
            self.lookup(name)
        } else {
            let last: usize = self.replaying.len() - 1;
            assert(self@.replaying[last as int].fits(self@.buffer.len()));
            self.targets[self.replaying[last].start - 1]
        }
    }

    /// Queues a run of recorded events that `name` stands for.
    fn expand(&mut self, run: Option<Run>, name: &str, span: Span) -> (queued: Result<(), Error>)
        requires
            old(self).keeps(),
            run matches Some(r) ==> r.fits(old(self)@.buffer.len()),
        ensures
            final(self).parses(),
            final(self)@ == model::expanded(old(self)@, run, name@, span).0,
            match queued {
                Ok(()) => model::expanded(old(self)@, run, name@, span).1 is None,
                Err(error) => model::expanded(old(self)@, run, name@, span).1 == Some(error@),
            },
    {
        let ghost start = self@;
        let ghost asked = run;
        let run = match run {
            Some(run) => run,
            None => {
                return Err(Error::new(ErrorKind::UndefinedAlias(name.to_owned()), span));
            },
        };
        // Charged before the replay is queued, so a document cannot spend the budget
        // and then be told it was over it.
        if self.expansions >= self.limits.max_alias_expansions {
            let limit = self.limits.max_alias_expansions;
            return Err(Error::new(ErrorKind::AliasExpansionLimitExceeded { limit }, span));
        }
        self.expansions = self.expansions + 1;
        let size: usize = run.end - run.start;
        let within = match self.expanded_events.checked_add(size) {
            Some(total) => {
                self.expanded_events = total;
                total <= self.limits.max_total_alias_nodes
            },
            None => {
                self.expanded_events = usize::MAX;
                false
            },
        };
        if !within {
            let limit = self.limits.max_total_alias_nodes;
            assert(self@ =~= model::expanded(start, asked, name@, span).0);
            return Err(Error::new(ErrorKind::AliasMaterializationLimitExceeded { limit }, span));
        }
        self.replaying.push(run);
        assert(self@ =~= model::expanded(start, asked, name@, span).0);
        Ok(())
    }

    /// Follows the nesting of a replayed event, and bounds the depth that an alias
    /// introduces.
    ///
    /// The parser bounds what it reads. Expansion happens afterwards, and the
    /// expanded stream is what a consumer recurses through.
    fn follow(&mut self, event: &Event<'a>) -> (followed: Result<(), Error>)
        requires
            old(self).keeps(),
        ensures
            final(self).parses(),
            final(self)@ == model::handed_out(old(self)@, *event, false).0,
            match followed {
                Ok(()) => model::handed_out(old(self)@, *event, false).1 == Ok::<Event<'a>, Failure>(
                    *event,
                ),
                Err(error) => model::handed_out(old(self)@, *event, false).1 == Err::<
                    Event<'a>,
                    Failure,
                >(error@),
            },
    {
        let ghost start = self@;
        let starts = match event.kind {
            EventKind::SequenceStart { .. } => true,
            EventKind::MappingStart { .. } => true,
            EventKind::SequenceEnd => {
                self.nesting = self.nesting.saturating_sub(1);
                false
            },
            EventKind::MappingEnd => {
                self.nesting = self.nesting.saturating_sub(1);
                false
            },
            _ => false,
        };
        if starts {
            if self.nesting >= self.limits.max_depth {
                self.replaying.clear();
                self.nesting = self.depth;
                let limit = self.limits.max_depth;
                assert(self@ =~= model::handed_out(start, *event, false).0);
                return Err(Error::new(ErrorKind::DepthLimitExceeded { limit }, event.span));
            }
            self.nesting = self.nesting + 1;
        }
        assert(self@ =~= model::handed_out(start, *event, false).0);
        Ok(())
    }

    /// The events that built `name`, or `None` if it was never anchored.
    ///
    /// `None` rather than a panic: an undefined alias is a defect in the document.
    pub fn replay(&self, name: &str) -> (events: Option<&[Event<'a>]>)
        requires
            self.keeps(),
        ensures
            match events {
                Some(e) => self@.anchors.contains_key(name@) && e@ == model::run_events(
                    self@.buffer,
                    self@.anchors[name@],
                ) && model::is_value_of(e@, name@),
                None => !self@.anchors.contains_key(name@),
            },
    {
        match self.anchors.get(name) {
            Some(run) => {
                assert(self@.anchors.contains_key(name@));
                Some(vstd::slice::slice_subrange(self.buffer.as_slice(), run.start, run.end))
            },
            None => None,
        }
    }

    /// How many events have been recorded.
    pub fn buffered_events(&self) -> (count: usize)
        ensures
            count == self@.buffer.len(),
    {
        self.buffer.len()
    }
}

impl<'a, P: EventSource<'a>> EventSource<'a> for Tape<'a, P> {
    open spec fn inv(&self) -> bool {
        self.keeps()
    }

    open spec fn remaining(&self) -> Seq<Result<Event<'a>, Failure>> {
        model::delivered(self@)
    }

    fn next_event(&mut self) -> (item: Option<Result<Event<'a>, Error>>) {
        let ghost start = self@;
        let item = self.next();
        proof {
            if item is None {
                model::lemma_stays_empty(start);
            }
        }
        item
    }
}

} // verus!
