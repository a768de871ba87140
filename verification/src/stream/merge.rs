//! Splitting the value of a `<<` merge key into the entries it contributes.

use std::collections::VecDeque;

use vstd::prelude::*;
use vstd::slice::slice_subrange;
use vstd::string::*;

use crate::error::{DeError, DeFailure};
use crate::event::{Event, EventKind};
use crate::text::{cow_str, same_text};

verus! {

// ---- runs of events ----------------------------------------------------

/// How many events complete a value that is `depth` collections deep already.
pub open spec fn extent_from(events: Seq<Event<'_>>, depth: int) -> int
    decreases events.len(),
{
    if events.len() == 0 {
        0
    } else {
        let next = crate::stream::tape::model::deeper(depth, events[0]);
        if next == 0 {
            1
        } else {
            1 + extent_from(events.skip(1), next)
        }
    }
}

/// How many events form the value at the start of a run.
///
/// A scalar is one event and a collection runs to its matching end. Without a
/// matching end it is the whole run.
pub open spec fn extent(events: Seq<Event<'_>>) -> int {
    extent_from(events, 0)
}

/// The value at the start of a run.
pub open spec fn head<'de>(events: Seq<Event<'de>>) -> Seq<Event<'de>> {
    events.take(extent(events))
}

/// What follows the value at the start of a run.
pub open spec fn rest<'de>(events: Seq<Event<'de>>) -> Seq<Event<'de>> {
    events.skip(extent(events))
}

/// The text of a run that is a single scalar.
pub open spec fn lone_text(events: Seq<Event<'_>>) -> Option<Seq<char>> {
    if events.len() == 1 {
        match events[0].kind {
            EventKind::Scalar { value, .. } => Some(value@),
            _ => None,
        }
    } else {
        None
    }
}

/// The events between a collection's start and end.
pub open spec fn inside<'de>(events: Seq<Event<'de>>) -> Seq<Event<'de>> {
    if events.len() < 2 {
        Seq::empty()
    } else {
        events.subrange(1, events.len() - 1)
    }
}

/// Whether a run starts a mapping.
pub open spec fn starts_mapping(events: Seq<Event<'_>>) -> bool {
    events.len() > 0 && events[0].kind is MappingStart
}

/// A value covers at least one event, and no more than there are.
pub proof fn lemma_extent(events: Seq<Event<'_>>, depth: int)
    ensures
        0 <= extent_from(events, depth) <= events.len(),
        events.len() > 0 ==> extent_from(events, depth) > 0,
    decreases events.len(),
{
    if events.len() > 0 {
        lemma_extent(
            events.skip(1),
            crate::stream::tape::model::deeper(depth, events[0]),
        );
    }
}

/// How many events form the value starting at `events[0]`.
///
/// A scalar is one event; a collection runs to its matching end.
pub fn value_extent(events: &[Event<'_>]) -> (count: usize)
    ensures
        count == extent(events@),
        count <= events@.len(),
        events@.len() > 0 ==> count > 0,
{
    let mut depth: usize = 0;
    let mut i: usize = 0;
    proof {
        lemma_extent(events@, 0);
        assert(events@.skip(0) =~= events@);
    }
    while i < events.len()
        invariant
            i <= events@.len(),
            depth <= i,
            extent(events@) == i + extent_from(events@.skip(i as int), depth as int),
            extent(events@) <= events@.len(),
            events@.len() > 0 ==> extent(events@) > 0,
        decreases events@.len() - i,
    {
        assert(events@.skip(i as int)[0] == events@[i as int]);
        assert(events@.skip(i as int).skip(1) =~= events@.skip(i + 1));
        match events[i].kind {
            EventKind::SequenceStart { .. } => {
                depth = depth + 1;
            },
            EventKind::MappingStart { .. } => {
                depth = depth + 1;
            },
            EventKind::SequenceEnd => {
                depth = depth.saturating_sub(1);
            },
            EventKind::MappingEnd => {
                depth = depth.saturating_sub(1);
            },
            _ => {},
        }
        i = i + 1;
        if depth == 0 {
            return i;
        }
    }
    events.len()
}

/// The text of a run that is a single scalar, or `None` for any other shape.
///
/// Only scalar keys take part in precedence: two non-scalar keys cannot collide by
/// text.
pub fn scalar_text<'e>(events: &'e [Event<'_>]) -> (text: Option<&'e str>)
    ensures
        match lone_text(events@) {
            Some(t) => text matches Some(s) && s@ == t,
            None => text is None,
        },
        text is Some <==> events@.len() == 1 && events@[0].kind is Scalar,
        text matches Some(s) ==> s@ == events@[0].kind->value@,
{
    if events.len() != 1 {
        return None;
    }
    match &events[0].kind {
        EventKind::Scalar { value, .. } => Some(cow_str(value)),
        _ => None,
    }
}

/// Whether a run of events is a mapping.
pub fn is_mapping(events: &[Event<'_>]) -> (yes: bool)
    ensures
        yes == starts_mapping(events@),
{
    if events.len() == 0 {
        return false;
    }
    match events[0].kind {
        EventKind::MappingStart { .. } => true,
        _ => false,
    }
}

/// The events between a collection's start and end.
pub fn inner_events<'e, 'de>(events: &'e [Event<'de>]) -> (inner: &'e [Event<'de>])
    ensures
        inner@ == inside(events@),
{
    if events.len() < 2 {
        let none = slice_subrange(events, 0, 0);
        assert(none@ =~= inside(events@));
        return none;
    }
    slice_subrange(events, 1, events.len() - 1)
}

/// Copies a run of events.
fn copy_events<'de>(events: &[Event<'de>]) -> (copy: Vec<Event<'de>>)
    ensures
        copy@ == events@,
{
    let mut copy: Vec<Event<'de>> = Vec::new();
    let mut i: usize = 0;
    while i < events.len()
        invariant
            i <= events@.len(),
            copy@ == events@.take(i as int),
        decreases events@.len() - i,
    {
        copy.push(events[i].clone());
        i = i + 1;
    }
    copy
}

// ---- merge sources -----------------------------------------------------

/// What a merge value contributes: entries in source order, and the refusal that
/// stopped it, if one did.
pub struct Contribution<'de> {
    /// Key and value runs.
    pub entries: Seq<(Seq<Event<'de>>, Seq<Event<'de>>)>,
    /// Why it stopped.
    pub refused: Option<DeFailure>,
}

/// The refusal of a `<<` value that cannot supply entries.
pub open spec fn merge_refusal(events: Seq<Event<'_>>) -> DeFailure {
    let found = if events.len() == 0 {
        "nothing"@
    } else {
        events[0].kind.label()
    };
    DeFailure::Message(
        "expected mapping or sequence of mappings for '<<' merge key, found "@ + found,
    )
}

/// Whether a key asks for a merge.
pub open spec fn is_merge_key(key: Seq<Event<'_>>, merge_keys: bool) -> bool {
    merge_keys && lone_text(key) == Some("<<"@)
}

/// What the pairs of a mapping state themselves, what they inherit through `<<`, and
/// the refusal that stopped them.
pub open spec fn pairs<'de>(events: Seq<Event<'de>>, merge_keys: bool) -> (
    Contribution<'de>,
    Seq<(Seq<Event<'de>>, Seq<Event<'de>>)>,
)
    decreases events.len(), 0int,
    via pairs_decreases
{
    if events.len() == 0 || rest(events).len() == 0 {
        (Contribution { entries: Seq::empty(), refused: None }, Seq::empty())
    } else {
        let key = head(events);
        let value = head(rest(events));
        let tail = rest(rest(events));
        if is_merge_key(key, merge_keys) {
            let merged = sources(value, merge_keys);
            if merged.refused is Some {
                (
                    Contribution { entries: Seq::empty(), refused: merged.refused },
                    merged.entries,
                )
            } else {
                let (own, inherited) = pairs(tail, merge_keys);
                (own, merged.entries + inherited)
            }
        } else {
            let (own, inherited) = pairs(tail, merge_keys);
            (Contribution { entries: seq![(key, value)] + own.entries, ..own }, inherited)
        }
    }
}

/// What a mapping contributes: what it states itself, then what it inherits.
pub open spec fn mapping_entries<'de>(events: Seq<Event<'de>>, merge_keys: bool) -> Contribution<
    'de,
>
    decreases events.len(), 1int,
    via mapping_decreases
{
    let (own, inherited) = pairs(inside(events), merge_keys);
    if own.refused is Some {
        own
    } else {
        Contribution { entries: own.entries + inherited, refused: None }
    }
}

/// What the mappings of a sequence contribute, the earlier ones first.
pub open spec fn items_entries<'de>(events: Seq<Event<'de>>, merge_keys: bool) -> Contribution<'de>
    decreases events.len(), 2int,
    via items_decreases
{
    if events.len() == 0 {
        Contribution { entries: Seq::empty(), refused: None }
    } else if !starts_mapping(head(events)) {
        Contribution { entries: Seq::empty(), refused: Some(merge_refusal(head(events))) }
    } else {
        let first = mapping_entries(head(events), merge_keys);
        if first.refused is Some {
            first
        } else {
            let others = items_entries(rest(events), merge_keys);
            Contribution { entries: first.entries + others.entries, refused: others.refused }
        }
    }
}

/// What a `<<` value contributes: a mapping its entries, a sequence those of its
/// mappings. Any other value is refused.
pub open spec fn sources<'de>(events: Seq<Event<'de>>, merge_keys: bool) -> Contribution<'de>
    decreases events.len(), 3int,
    via sources_decreases
{
    if starts_mapping(events) {
        mapping_entries(events, merge_keys)
    } else if events.len() > 0 && events[0].kind is SequenceStart {
        items_entries(inside(events), merge_keys)
    } else {
        Contribution { entries: Seq::empty(), refused: Some(merge_refusal(events)) }
    }
}

#[via_fn]
proof fn pairs_decreases<'de>(events: Seq<Event<'de>>, merge_keys: bool) {
    lemma_extent(events, 0);
    lemma_extent(rest(events), 0);
}

#[via_fn]
proof fn mapping_decreases<'de>(events: Seq<Event<'de>>, merge_keys: bool) {
}

#[via_fn]
proof fn items_decreases<'de>(events: Seq<Event<'de>>, merge_keys: bool) {
    lemma_extent(events, 0);
}

#[via_fn]
proof fn sources_decreases<'de>(events: Seq<Event<'de>>, merge_keys: bool) {
}

/// Recorded entries, as runs of events.
pub open spec fn entries_of<'de>(recorded: Seq<(Vec<Event<'de>>, Vec<Event<'de>>)>) -> Seq<
    (Seq<Event<'de>>, Seq<Event<'de>>),
> {
    recorded.map_values(|e: (Vec<Event<'de>>, Vec<Event<'de>>)| (e.0@, e.1@))
}

/// Whether a split went as `wanted` says, on top of what was there `before`.
pub open spec fn split_as<'de>(
    before: Seq<(Vec<Event<'de>>, Vec<Event<'de>>)>,
    after: Seq<(Vec<Event<'de>>, Vec<Event<'de>>)>,
    done: Result<(), DeError>,
    wanted: Contribution<'de>,
) -> bool {
    &&& entries_of(after) == entries_of(before) + wanted.entries
    &&& match done {
        Ok(()) => wanted.refused is None,
        Err(error) => wanted.refused == Some(error@),
    }
}

/// The error for a `<<` value that cannot supply entries.
pub fn merge_value_error(events: &[Event<'_>]) -> (error: DeError)
    ensures
        error@ == merge_refusal(events@),
{
    let found: &str = if events.len() == 0 {
        "nothing"
    } else {
        events[0].kind.name()
    };
    DeError::Message(
        "expected mapping or sequence of mappings for '<<' merge key, found ".to_owned().concat(
            found,
        ),
    )
}

/// Splits one `<<` value into the entries it contributes, in source order.
///
/// Accepts a mapping, or a sequence of mappings. Anything else is an error: a merge
/// source has to have entries to contribute.
pub fn split_merge_sources<'de>(
    events: &[Event<'de>],
    out: &mut VecDeque<(Vec<Event<'de>>, Vec<Event<'de>>)>,
    merge_keys: bool,
) -> (done: Result<(), DeError>)
    ensures
        split_as(old(out)@, final(out)@, done, sources(events@, merge_keys)),
    decreases events@.len(), 3int,
{
    if is_mapping(events) {
        return push_mapping_entries(events, out, merge_keys);
    }
    let is_sequence = events.len() > 0 && match events[0].kind {
        EventKind::SequenceStart { .. } => true,
        _ => false,
    };
    let ghost start = entries_of(out@);
    if !is_sequence {
        assert(start + Seq::empty() =~= start);
        return Err(merge_value_error(events));
    }
    let mut left = inner_events(events);
    let ghost items = left@;
    let ghost wanted = items_entries(items, merge_keys);
    let ghost mut pushed: Seq<(Seq<Event<'de>>, Seq<Event<'de>>)> = Seq::empty();
    assert(pushed + wanted.entries =~= wanted.entries);
    assert(start + pushed =~= start);
    while left.len() > 0
        invariant
            left@.len() < events@.len(),
            start == entries_of(old(out)@),
            wanted == sources(events@, merge_keys),
            entries_of(out@) == start + pushed,
            wanted.entries == pushed + items_entries(left@, merge_keys).entries,
            wanted.refused == items_entries(left@, merge_keys).refused,
        decreases left@.len(),
    {
        let ghost here = left@;
        let count: usize = value_extent(left);
        let item = slice_subrange(left, 0, count);
        let tail = slice_subrange(left, count, left.len());
        assert(item@ =~= head(here));
        assert(tail@ =~= rest(here));
        if !is_mapping(item) {
            assert(pushed + Seq::empty() =~= pushed);
            return Err(merge_value_error(item));
        }
        let ghost first = mapping_entries(item@, merge_keys);
        let step = push_mapping_entries(item, out, merge_keys);
        proof {
            assert(start + pushed + first.entries =~= start + (pushed + first.entries));
            if first.refused is None {
                assert(pushed + items_entries(here, merge_keys).entries =~= (pushed
                    + first.entries) + items_entries(tail@, merge_keys).entries);
            }
            pushed = pushed + first.entries;
        }
        if let Err(error) = step {
            return Err(error);
        }
        left = tail;
    }
    assert(pushed + Seq::empty() =~= pushed);
    Ok(())
}

/// Splits a mapping's events into (key, value) runs and appends them.
///
/// A `<<` inside a merge source is expanded here too: a replayed source consists of
/// its raw events, so an inherited merge key would otherwise reach the caller as a
/// literal `<<` entry.
pub fn push_mapping_entries<'de>(
    events: &[Event<'de>],
    out: &mut VecDeque<(Vec<Event<'de>>, Vec<Event<'de>>)>,
    merge_keys: bool,
) -> (done: Result<(), DeError>)
    ensures
        split_as(old(out)@, final(out)@, done, mapping_entries(events@, merge_keys)),
    decreases events@.len(), 1int,
{
    // What this source inherits ranks below what it states itself, so it is held
    // back and appended after.
    let mut inherited: VecDeque<(Vec<Event<'de>>, Vec<Event<'de>>)> = VecDeque::new();
    let mut left = inner_events(events);
    let ghost start = entries_of(out@);
    let ghost (own, later) = pairs(left@, merge_keys);
    let ghost mut pushed: Seq<(Seq<Event<'de>>, Seq<Event<'de>>)> = Seq::empty();
    assert(pushed + own.entries =~= own.entries);
    assert(start + pushed =~= start);
    assert(entries_of(inherited@) =~= Seq::empty());
    assert(entries_of(inherited@) + later =~= later);
    while left.len() > 0
        invariant
            left@.len() == 0 || left@.len() < events@.len(),
            start == entries_of(old(out)@),
            (own, later) == pairs(inside(events@), merge_keys),
            entries_of(out@) == start + pushed,
            own.entries == pushed + pairs(left@, merge_keys).0.entries,
            own.refused == pairs(left@, merge_keys).0.refused,
            own.refused is None ==> later == entries_of(inherited@) + pairs(left@, merge_keys).1,
        decreases left@.len(),
    {
        let ghost here = left@;
        let count: usize = value_extent(left);
        let key = slice_subrange(left, 0, count);
        let tail = slice_subrange(left, count, left.len());
        assert(key@ =~= head(here));
        assert(tail@ =~= rest(here));
        if tail.len() == 0 {
            // A key with no value: there is nothing to merge, so it is dropped.
            left = tail;
        } else {
            let size: usize = value_extent(tail);
            let value = slice_subrange(tail, 0, size);
            let after = slice_subrange(tail, size, tail.len());
            assert(value@ =~= head(rest(here)));
            assert(after@ =~= rest(rest(here)));
            let merges = merge_keys && match scalar_text(key) {
                Some(text) => same_text(text, "<<"),
                None => false,
            };
            assert(merges == is_merge_key(key@, merge_keys));
            if merges {
                let step = split_merge_sources(value, &mut inherited, merge_keys);
                if let Err(error) = step {
                    assert(pushed + Seq::empty() =~= pushed);
                    return Err(error);
                }
                assert(own.refused is None ==> later =~= entries_of(inherited@) + pairs(
                    after@,
                    merge_keys,
                ).1);
            } else {
                let ghost already = out@;
                out.push_back((copy_events(key), copy_events(value)));
                proof {
                    assert(entries_of(out@) =~= entries_of(already).push((key@, value@)));
                    assert(start + pushed.push((key@, value@)) =~= (start + pushed).push(
                        (key@, value@),
                    ));
                    assert(pushed + pairs(here, merge_keys).0.entries =~= pushed.push(
                        (key@, value@),
                    ) + pairs(after@, merge_keys).0.entries);
                    pushed = pushed.push((key@, value@));
                }
            }
            left = after;
        }
    }
    proof {
        assert(pairs(left@, merge_keys).0.refused is None);
        assert(pushed + Seq::empty() =~= pushed);
        assert(entries_of(inherited@) + Seq::empty() =~= entries_of(inherited@));
    }
    let ghost already = out@;
    let ghost held = inherited@;
    out.append(&mut inherited);
    assert(entries_of(out@) =~= entries_of(already) + entries_of(held));
    assert(start + pushed + later =~= start + (pushed + later));
    Ok(())
}

} // verus!
