//! Which entries a mapping with merge keys has, and in which order.

use vstd::prelude::*;

use super::{Entry, KeyStep, MapState, ValueStep};
use crate::error::Failure;
use crate::event::Event;
use crate::stream::value::Coming;

verus! {

// ---- whole values ------------------------------------------------------

proof fn lemma_prefix_depth<'de>(events: Seq<Event<'de>>, k: int)
    requires
        0 <= k < events.len(),
    ensures
        crate::stream::tape::model::depth_of(events.take(k + 1))
            == crate::stream::tape::model::depth_of(events.take(k)) + crate::event::net(events[k]),
{
    assert(events.take(k + 1).drop_last() =~= events.take(k));
}

proof fn lemma_captured_from<'de>(value: Seq<Event<'de>>, more: Coming<'de>, k: int)
    requires
        crate::stream::tape::model::is_value(value),
        0 <= k < value.len(),
    ensures
        crate::stream::value::captured(
            crate::stream::source::yields(value.skip(k)) + more,
            crate::stream::tape::model::depth_of(value.take(k)),
        ) == (more, Ok::<Seq<Event<'de>>, crate::error::DeFailure>(value.skip(k))),
    decreases value.len() - k,
{
    let depth = crate::stream::tape::model::depth_of(value.take(k));
    let left = value.skip(k);
    let coming = crate::stream::source::yields(left) + more;
    let event = value[k];
    assert(left[0] == event);
    assert(coming[0] == Ok::<Event<'de>, Failure>(event));
    assert(coming.skip(1) =~= crate::stream::source::yields(value.skip(k + 1)) + more);
    lemma_prefix_depth(value, k);
    if k == 0 {
        assert(value.take(0) =~= Seq::empty());
    }
    if k + 1 < value.len() {
        assert(crate::stream::tape::model::depth_of(value.take(k + 1)) > 0);
        lemma_captured_from(value, more, k + 1);
        assert(left =~= seq![event] + value.skip(k + 1));
    } else {
        assert(value.take(k + 1) =~= value);
        assert(coming.skip(1) =~= more);
        assert(left =~= seq![event]);
    }
}

/// Capturing reads exactly the value at the front of a stream.
pub proof fn law_capturing_reads_one_value<'de>(value: Seq<Event<'de>>, more: Coming<'de>)
    requires
        crate::stream::tape::model::is_value(value),
    ensures
        crate::stream::value::captured(crate::stream::source::yields(value) + more, 0) == (
            more,
            Ok::<Seq<Event<'de>>, crate::error::DeFailure>(value),
        ),
{
    assert(value.take(0) =~= Seq::empty());
    assert(value.skip(0) =~= value);
    lemma_captured_from(value, more, 0);
}

proof fn lemma_extent_from<'de>(value: Seq<Event<'de>>, more: Seq<Event<'de>>, k: int)
    requires
        crate::stream::tape::model::is_value(value),
        0 <= k < value.len(),
    ensures
        crate::stream::merge::extent_from(
            value.skip(k) + more,
            crate::stream::tape::model::depth_of(value.take(k)),
        ) == value.len() - k,
    decreases value.len() - k,
{
    let events = value.skip(k) + more;
    assert(events[0] == value[k]);
    assert(events.skip(1) =~= value.skip(k + 1) + more);
    lemma_prefix_depth(value, k);
    if k == 0 {
        assert(value.take(0) =~= Seq::empty());
    }
    if k + 1 < value.len() {
        assert(crate::stream::tape::model::depth_of(value.take(k + 1)) > 0);
        lemma_extent_from(value, more, k + 1);
    } else {
        assert(value.take(k + 1) =~= value);
    }
}

/// Measuring finds exactly the value at the front of a run.
pub proof fn law_measuring_finds_one_value<'de>(value: Seq<Event<'de>>, more: Seq<Event<'de>>)
    requires
        crate::stream::tape::model::is_value(value),
    ensures
        crate::stream::merge::extent(value + more) == value.len(),
        crate::stream::merge::head(value + more) == value,
        crate::stream::merge::rest(value + more) == more,
{
    assert(value.take(0) =~= Seq::empty());
    assert(value.skip(0) =~= value);
    lemma_extent_from(value, more, 0);
    assert(crate::stream::merge::head(value + more) =~= value);
    assert(crate::stream::merge::rest(value + more) =~= more);
}

/// A value that starts with a scalar is that scalar, and no value starts with an end.
pub proof fn lemma_value_starts(value: Seq<Event<'_>>)
    requires
        crate::stream::tape::model::is_value(value),
    ensures
        crate::event::net(value[0]) >= 0,
        crate::stream::merge::lone_text(value) == crate::stream::value::event_text(value[0]),
{
    lemma_prefix_depth(value, 0);
    assert(value.take(0) =~= Seq::empty());
    if value.len() > 1 {
        assert(crate::stream::tape::model::depth_of(value.take(1)) > 0);
    } else {
        assert(value.take(1) =~= value);
    }
}

// ---- which merged entries survive --------------------------------------

/// The merged entries that nothing claims: not a key that was seen, nor one that an
/// earlier merged entry has.
pub open spec fn survivors<'de>(seen: Set<Seq<char>>, merged: Seq<Entry<'de>>) -> Seq<Entry<'de>>
    decreases merged.len(),
{
    if merged.len() == 0 {
        Seq::empty()
    } else {
        match crate::stream::merge::lone_text(merged[0].0) {
            Some(text) => if seen.contains(text) {
                survivors(seen, merged.skip(1))
            } else {
                seq![merged[0]] + survivors(seen.insert(text), merged.skip(1))
            },
            None => seq![merged[0]] + survivors(seen, merged.skip(1)),
        }
    }
}

/// Whether a merged entry prevails: its key is no scalar, or was neither seen before
/// nor supplied by an earlier merged entry.
pub open spec fn prevails<'de>(seen: Set<Seq<char>>, merged: Seq<Entry<'de>>, i: int) -> bool {
    crate::stream::merge::lone_text(merged[i].0) matches Some(text) ==> {
        &&& !seen.contains(text)
        &&& forall|j: int|
            0 <= j < i ==> crate::stream::merge::lone_text(#[trigger] merged[j].0) != Some(text)
    }
}

/// The merged entries that survive are those that prevail, in source order: an
/// explicit key beats a merged one, an earlier source beats a later one, and an entry
/// whose key is no scalar is always kept.
pub proof fn law_precedence<'de>(seen: Set<Seq<char>>, merged: Seq<Entry<'de>>) -> (numbers: Seq<
    int,
>)
    ensures
        survivors(seen, merged) == numbers.map_values(|i: int| merged[i]),
        forall|a: int, b: int| 0 <= a < b < numbers.len() ==> numbers[a] < numbers[b],
        forall|a: int|
            0 <= a < numbers.len() ==> 0 <= #[trigger] numbers[a] < merged.len() && prevails(
                seen,
                merged,
                numbers[a],
            ),
        forall|i: int|
            0 <= i < merged.len() && #[trigger] prevails(seen, merged, i) ==> numbers.contains(i),
    decreases merged.len(),
{
    if merged.len() == 0 {
        assert(survivors(seen, merged) =~= Seq::<int>::empty().map_values(|i: int| merged[i]));
        Seq::empty()
    } else {
        let tail = merged.skip(1);
        let text = crate::stream::merge::lone_text(merged[0].0);
        let taken = text is Some && seen.contains(text->0);
        let next = if text is Some {
            seen.insert(text->0)
        } else {
            seen
        };
        if taken {
            assert(next =~= seen);
        }
        let later = law_precedence(next, tail);
        let moved = later.map_values(|i: int| i + 1);
        let numbers = if taken {
            moved
        } else {
            seq![0int] + moved
        };
        let offset: int = if taken {
            0
        } else {
            1
        };
        assert(survivors(seen, merged) =~= numbers.map_values(|i: int| merged[i])) by {
            assert forall|a: int| 0 <= a < later.len() implies tail[#[trigger] later[a]]
                == merged[later[a] + 1] by {}
        }
        assert forall|i: int| 0 < i < merged.len() implies (prevails(seen, merged, i)
            == #[trigger] prevails(next, tail, i - 1)) by {
            lemma_prevails_later(seen, merged, next, i);
        }
        assert forall|a: int| 0 <= a < numbers.len() implies 0 <= #[trigger] numbers[a]
            < merged.len() && prevails(seen, merged, numbers[a]) by {
            if taken || a > 0 {
                assert(numbers[a] == later[a - offset] + 1);
                assert(prevails(next, tail, later[a - offset]));
                lemma_prevails_later(seen, merged, next, numbers[a]);
            }
        }
        assert forall|i: int| 0 <= i < merged.len() && #[trigger] prevails(
            seen,
            merged,
            i,
        ) implies numbers.contains(i) by {
            if i == 0 {
                assert(!taken);
                assert(numbers[0] == 0);
            } else {
                lemma_prevails_later(seen, merged, next, i);
                assert(prevails(next, tail, i - 1));
                let a = choose|a: int| 0 <= a < later.len() && later[a] == i - 1;
                assert(numbers[a + offset] == i);
            }
        }
        numbers
    }
}

proof fn lemma_prevails_later<'de>(
    seen: Set<Seq<char>>,
    merged: Seq<Entry<'de>>,
    next: Set<Seq<char>>,
    i: int,
)
    requires
        0 < i < merged.len(),
        next == (match crate::stream::merge::lone_text(merged[0].0) {
            Some(text) => seen.insert(text),
            None => seen,
        }),
    ensures
        prevails(seen, merged, i) == prevails(next, merged.skip(1), i - 1),
{
    let tail = merged.skip(1);
    assert(tail[i - 1] == merged[i]);
    if let Some(text) = crate::stream::merge::lone_text(merged[i].0) {
        if prevails(seen, merged, i) {
            assert(crate::stream::merge::lone_text(merged[0].0) != Some(text));
            assert forall|j: int| 0 <= j < i - 1 implies crate::stream::merge::lone_text(
                #[trigger] tail[j].0,
            ) != Some(text) by {
                assert(tail[j] == merged[j + 1]);
            }
        }
        if prevails(next, tail, i - 1) {
            assert forall|j: int| 0 <= j < i implies crate::stream::merge::lone_text(
                #[trigger] merged[j].0,
            ) != Some(text) by {
                if j > 0 {
                    assert(tail[j - 1] == merged[j]);
                }
            }
        }
    }
}

// ---- reading a whole mapping -------------------------------------------

/// The entries of a mapping, read to its end by a consumer that takes every key and
/// value whole; none if a step fails or `fuel` entries are not enough.
pub open spec fn read<'de>(
    m: MapState<'de>,
    coming: Coming<'de>,
    merge_keys: bool,
    fuel: nat,
) -> Option<Seq<Entry<'de>>>
    decreases fuel,
{
    let (keyed, at_key, step) = super::next_key(m, coming, merge_keys);
    match step {
        Err(_) => None,
        Ok(KeyStep::End) => Some(Seq::empty()),
        Ok(found) => if fuel == 0 {
            None
        } else {
            let (left, key) = match found {
                KeyStep::Recorded(run) => (at_key, Ok(run)),
                _ => crate::stream::value::captured(at_key, 0),
            };
            let (valued, at_value, place) = super::next_value(keyed, left);
            let (rest, value) = match place {
                Ok(ValueStep::Recorded(run)) => (at_value, Ok(run)),
                Ok(ValueStep::Live) => crate::stream::value::captured(at_value, 0),
                Err(f) => (at_value, Err(f)),
            };
            match (key, value, read(valued, rest, merge_keys, (fuel - 1) as nat)) {
                (Ok(k), Ok(v), Some(more)) => Some(seq![(k, v)] + more),
                _ => None,
            }
        },
    }
}

/// The events of entries, one after the other.
pub open spec fn laid_out<'de>(entries: Seq<Entry<'de>>) -> Seq<Event<'de>>
    decreases entries.len(),
{
    if entries.len() == 0 {
        Seq::empty()
    } else {
        entries[0].0 + entries[0].1 + laid_out(entries.skip(1))
    }
}

/// The entries that a mapping states itself.
pub open spec fn stated<'de>(entries: Seq<Entry<'de>>, merge_keys: bool) -> Seq<Entry<'de>>
    decreases entries.len(),
{
    if entries.len() == 0 {
        Seq::empty()
    } else if crate::stream::merge::is_merge_key(entries[0].0, merge_keys) {
        stated(entries.skip(1), merge_keys)
    } else {
        seq![entries[0]] + stated(entries.skip(1), merge_keys)
    }
}

/// The entries that a mapping's merge keys contribute, in the order they are written.
pub open spec fn contributed<'de>(entries: Seq<Entry<'de>>, merge_keys: bool) -> Seq<Entry<'de>>
    decreases entries.len(),
{
    if entries.len() == 0 {
        Seq::empty()
    } else if crate::stream::merge::is_merge_key(entries[0].0, merge_keys) {
        crate::stream::merge::sources(entries[0].1, merge_keys).entries + contributed(
            entries.skip(1),
            merge_keys,
        )
    } else {
        contributed(entries.skip(1), merge_keys)
    }
}

/// The texts that are claimed once a mapping's own scalar keys have been handed out.
pub open spec fn claimed<'de>(
    seen: Set<Seq<char>>,
    entries: Seq<Entry<'de>>,
    merge_keys: bool,
) -> Set<Seq<char>>
    decreases entries.len(),
{
    if entries.len() == 0 {
        seen
    } else {
        let next = match crate::stream::merge::lone_text(entries[0].0) {
            Some(text) => if merge_keys && text != "<<"@ {
                seen.insert(text)
            } else {
                seen
            },
            None => seen,
        };
        claimed(next, entries.skip(1), merge_keys)
    }
}

/// Whether every key and value is one value, and every merge key has a value it can
/// merge.
pub open spec fn readable<'de>(entries: Seq<Entry<'de>>, merge_keys: bool) -> bool {
    forall|i: int|
        #![trigger entries[i]]
        0 <= i < entries.len() ==> {
            &&& crate::stream::tape::model::is_value(entries[i].0)
            &&& crate::stream::tape::model::is_value(entries[i].1)
            &&& crate::stream::merge::is_merge_key(entries[i].0, merge_keys)
                ==> crate::stream::merge::sources(entries[i].1, merge_keys).refused is None
        }
}

proof fn lemma_drain<'de>(m: MapState<'de>, coming: Coming<'de>, merge_keys: bool, fuel: nat)
    requires
        m.draining,
        m.pending is None,
        fuel >= m.merged.len(),
    ensures
        read(m, coming, merge_keys, fuel) == Some(survivors(m.seen, m.merged)),
    decreases m.merged.len(),
{
    if m.merged.len() > 0 {
        let (key, value) = m.merged[0];
        let left = MapState { merged: m.merged.skip(1), ..m };
        let text = crate::stream::merge::lone_text(key);
        if text is Some && m.seen.contains(text->0) {
            lemma_drain(left, coming, merge_keys, fuel);
            assert(super::next_merged(m) == super::next_merged(left));
            assert(super::next_key(m, coming, merge_keys) == super::next_key(
                left,
                coming,
                merge_keys,
            ));
        } else {
            let (next, step) = super::next_merged(m);
            let after = MapState { pending: None, ..next };
            lemma_drain(after, coming, merge_keys, (fuel - 1) as nat);
            assert(super::next_value(next, coming).0 =~= after);
        }
    }
}

/// The events of a key and a value, with more to come.
pub open spec fn entry_ahead<'de>(
    key: Seq<Event<'de>>,
    value: Seq<Event<'de>>,
    rest: Coming<'de>,
) -> Coming<'de> {
    crate::stream::source::yields(key) + (crate::stream::source::yields(value) + rest)
}

/// A mapping that has handed out the key of an ordinary entry.
pub open spec fn keyed<'de>(m: MapState<'de>, key: Seq<Event<'de>>, merge_keys: bool) -> MapState<'de> {
    match crate::stream::merge::lone_text(key) {
        Some(text) => if merge_keys {
            MapState { seen: m.seen.insert(text), ..m }
        } else {
            m
        },
        None => m,
    }
}

/// An ordinary key is read off the stream.
pub proof fn lemma_ordinary_key<'de>(
    m: MapState<'de>,
    key: Seq<Event<'de>>,
    more: Coming<'de>,
    merge_keys: bool,
)
    requires
        !m.draining,
        crate::stream::tape::model::is_value(key),
        !crate::stream::merge::is_merge_key(key, merge_keys),
    ensures
        super::next_key(m, crate::stream::source::yields(key) + more, merge_keys) == (
            keyed(m, key, merge_keys),
            crate::stream::source::yields(key) + more,
            Ok::<KeyStep<'de>, crate::error::DeFailure>(KeyStep::Live),
        ),
{
    let coming = crate::stream::source::yields(key) + more;
    assert(coming[0] == Ok::<Event<'de>, Failure>(key[0]));
    lemma_value_starts(key);
}

proof fn lemma_read_ordinary<'de>(
    m: MapState<'de>,
    key: Seq<Event<'de>>,
    value: Seq<Event<'de>>,
    rest: Coming<'de>,
    merge_keys: bool,
    fuel: nat,
)
    requires
        !m.draining,
        m.pending is None,
        fuel > 0,
        crate::stream::tape::model::is_value(key),
        crate::stream::tape::model::is_value(value),
        !crate::stream::merge::is_merge_key(key, merge_keys),
    ensures
        read(m, entry_ahead(key, value, rest), merge_keys, fuel) == (match read(
            keyed(m, key, merge_keys),
            rest,
            merge_keys,
            (fuel - 1) as nat,
        ) {
            Some(more) => Some(seq![(key, value)] + more),
            None => None,
        }),
{
    let from_value: Coming<'de> = crate::stream::source::yields(value) + rest;
    assert(from_value[0] == Ok::<Event<'de>, Failure>(value[0]));
    lemma_ordinary_key(m, key, from_value, merge_keys);
    law_capturing_reads_one_value(key, from_value);
    law_capturing_reads_one_value(value, rest);
}

/// A merge key is passed over, and the entries of its value are put by.
pub proof fn lemma_merge_key<'de>(
    m: MapState<'de>,
    key: Seq<Event<'de>>,
    value: Seq<Event<'de>>,
    rest: Coming<'de>,
    merge_keys: bool,
)
    requires
        !m.draining,
        crate::stream::tape::model::is_value(key),
        crate::stream::tape::model::is_value(value),
        crate::stream::merge::is_merge_key(key, merge_keys),
        crate::stream::merge::sources(value, merge_keys).refused is None,
    ensures
        super::next_key(m, entry_ahead(key, value, rest), merge_keys) == super::next_key(
            MapState {
                merged: m.merged + crate::stream::merge::sources(value, merge_keys).entries,
                ..m
            },
            rest,
            merge_keys,
        ),
{
    let from_value: Coming<'de> = crate::stream::source::yields(value) + rest;
    let coming = entry_ahead(key, value, rest);
    assert(key.len() == 1);
    assert(coming[0] == Ok::<Event<'de>, Failure>(key[0]));
    assert(crate::stream::value::beyond(coming) =~= from_value);
    law_capturing_reads_one_value(value, rest);
}

proof fn lemma_read_merge<'de>(
    m: MapState<'de>,
    key: Seq<Event<'de>>,
    value: Seq<Event<'de>>,
    rest: Coming<'de>,
    merge_keys: bool,
    fuel: nat,
)
    requires
        !m.draining,
        crate::stream::tape::model::is_value(key),
        crate::stream::tape::model::is_value(value),
        crate::stream::merge::is_merge_key(key, merge_keys),
        crate::stream::merge::sources(value, merge_keys).refused is None,
    ensures
        read(m, entry_ahead(key, value, rest), merge_keys, fuel) == read(
            MapState {
                merged: m.merged + crate::stream::merge::sources(value, merge_keys).entries,
                ..m
            },
            rest,
            merge_keys,
            fuel,
        ),
{
    lemma_merge_key(m, key, value, rest, merge_keys);
}

proof fn lemma_read_end<'de>(
    m: MapState<'de>,
    end: Event<'de>,
    more: Coming<'de>,
    merge_keys: bool,
    fuel: nat,
)
    requires
        !m.draining,
        m.pending is None,
        end.kind is MappingEnd,
        fuel >= m.merged.len(),
    ensures
        read(m, seq![Ok(end)] + more, merge_keys, fuel) == Some(survivors(m.seen, m.merged)),
{
    let closing: Coming<'de> = seq![Ok(end)] + more;
    assert(closing[0] == Ok::<Event<'de>, Failure>(end));
    if m.merged.len() > 0 {
        let turned = MapState { draining: true, ..m };
        let after = crate::stream::value::beyond(closing);
        lemma_drain(turned, after, merge_keys, fuel);
        assert(super::next_key(m, closing, merge_keys) == super::next_key(
            turned,
            after,
            merge_keys,
        ));
    }
}

pub proof fn lemma_readable_tail<'de>(entries: Seq<Entry<'de>>, merge_keys: bool)
    requires
        readable(entries, merge_keys),
        entries.len() > 0,
    ensures
        readable(entries.skip(1), merge_keys),
        crate::stream::tape::model::is_value(entries[0].0),
        crate::stream::tape::model::is_value(entries[0].1),
        crate::stream::merge::is_merge_key(entries[0].0, merge_keys)
            ==> crate::stream::merge::sources(entries[0].1, merge_keys).refused is None,
{
    let tail = entries.skip(1);
    assert forall|i: int|
        #![trigger tail[i]]
        0 <= i < tail.len() implies crate::stream::tape::model::is_value(tail[i].0)
        && crate::stream::tape::model::is_value(tail[i].1) && (crate::stream::merge::is_merge_key(
        tail[i].0,
        merge_keys,
    ) ==> crate::stream::merge::sources(tail[i].1, merge_keys).refused is None) by {
        assert(tail[i] == entries[i + 1]);
    }
}

proof fn lemma_read_stated<'de>(
    m: MapState<'de>,
    entries: Seq<Entry<'de>>,
    end: Event<'de>,
    more: Coming<'de>,
    merge_keys: bool,
    fuel: nat,
)
    requires
        !m.draining,
        m.pending is None,
        end.kind is MappingEnd,
        readable(entries, merge_keys),
        fuel >= entries.len() + m.merged.len() + contributed(entries, merge_keys).len(),
    ensures
        read(
            m,
            crate::stream::source::yields(laid_out(entries)) + (seq![Ok(end)] + more),
            merge_keys,
            fuel,
        ) == Some(
            stated(entries, merge_keys) + survivors(
                claimed(m.seen, entries, merge_keys),
                m.merged + contributed(entries, merge_keys),
            ),
        ),
    decreases entries.len(),
{
    let closing: Coming<'de> = seq![Ok(end)] + more;
    let coming = crate::stream::source::yields(laid_out(entries)) + closing;
    let merged = m.merged + contributed(entries, merge_keys);
    let goal = stated(entries, merge_keys) + survivors(
        claimed(m.seen, entries, merge_keys),
        merged,
    );
    if entries.len() == 0 {
        assert(coming =~= closing);
        assert(merged =~= m.merged);
        assert(goal =~= survivors(m.seen, m.merged));
        lemma_read_end(m, end, more, merge_keys, fuel);
    } else {
        let (key, value) = entries[0];
        let tail = entries.skip(1);
        let rest: Coming<'de> = crate::stream::source::yields(laid_out(tail)) + closing;
        assert(coming =~= entry_ahead(key, value, rest));
        lemma_readable_tail(entries, merge_keys);
        if crate::stream::merge::is_merge_key(key, merge_keys) {
            let given = crate::stream::merge::sources(value, merge_keys).entries;
            let next = MapState { merged: m.merged + given, ..m };
            lemma_read_merge(m, key, value, rest, merge_keys, fuel);
            lemma_read_stated(next, tail, end, more, merge_keys, fuel);
            assert(next.merged + contributed(tail, merge_keys) =~= merged);
        } else {
            let next = keyed(m, key, merge_keys);
            lemma_read_ordinary(m, key, value, rest, merge_keys, fuel);
            lemma_read_stated(next, tail, end, more, merge_keys, (fuel - 1) as nat);
            let later = stated(tail, merge_keys) + survivors(
                claimed(next.seen, tail, merge_keys),
                merged,
            );
            assert(seq![(key, value)] + later =~= goal);
        }
    }
}

/// A mapping has the entries it states itself, in the order they are written, and
/// after them the merged ones that nothing claims. Merge keys themselves are not
/// among them.
pub proof fn law_a_mapping_states_then_inherits<'de>(
    entries: Seq<Entry<'de>>,
    end: Event<'de>,
    more: Coming<'de>,
    merge_keys: bool,
    fuel: nat,
)
    requires
        end.kind is MappingEnd,
        readable(entries, merge_keys),
        fuel >= entries.len() + contributed(entries, merge_keys).len(),
    ensures
        read(
            super::unread(),
            crate::stream::source::yields(laid_out(entries)) + (seq![Ok(end)] + more),
            merge_keys,
            fuel,
        ) == Some(
            stated(entries, merge_keys) + survivors(
                claimed(Set::empty(), entries, merge_keys),
                contributed(entries, merge_keys),
            ),
        ),
{
    lemma_read_stated(super::unread(), entries, end, more, merge_keys, fuel);
    assert(super::unread::<'de>().merged + contributed(entries, merge_keys) =~= contributed(
        entries,
        merge_keys,
    ));
}

/// With merge keys off, a mapping has exactly the entries that are written: `<<` is
/// an ordinary key.
pub proof fn law_merge_keys_are_literal_when_off<'de>(
    entries: Seq<Entry<'de>>,
    end: Event<'de>,
    more: Coming<'de>,
    fuel: nat,
)
    requires
        end.kind is MappingEnd,
        readable(entries, false),
        fuel >= entries.len(),
    ensures
        read(
            super::unread(),
            crate::stream::source::yields(laid_out(entries)) + (seq![Ok(end)] + more),
            false,
            fuel,
        ) == Some(entries),
{
    lemma_all_stated(entries);
    law_a_mapping_states_then_inherits(entries, end, more, false, fuel);
    assert(entries + Seq::empty() =~= entries);
}

proof fn lemma_all_stated<'de>(entries: Seq<Entry<'de>>)
    ensures
        stated(entries, false) == entries,
        contributed(entries, false) == Seq::<Entry<'de>>::empty(),
    decreases entries.len(),
{
    if entries.len() > 0 {
        lemma_all_stated(entries.skip(1));
        assert(seq![entries[0]] + entries.skip(1) =~= entries);
    } else {
        assert(stated(entries, false) =~= entries);
    }
}

/// What a mapping states itself is claimed, wherever its merge keys stand.
pub proof fn law_explicit_keys_are_claimed<'de>(
    seen: Set<Seq<char>>,
    entries: Seq<Entry<'de>>,
    text: Seq<char>,
)
    ensures
        claimed(seen, entries, true).contains(text) <==> seen.contains(text) || exists|i: int|
            0 <= i < entries.len() && text != "<<"@ && crate::stream::merge::lone_text(
                (#[trigger] entries[i]).0,
            ) == Some(text),
    decreases entries.len(),
{
    if entries.len() > 0 {
        let tail = entries.skip(1);
        let first = crate::stream::merge::lone_text(entries[0].0);
        let next = match first {
            Some(t) => if t != "<<"@ {
                seen.insert(t)
            } else {
                seen
            },
            None => seen,
        };
        law_explicit_keys_are_claimed(next, tail, text);
        if exists|i: int|
            0 <= i < tail.len() && text != "<<"@ && crate::stream::merge::lone_text(
                (#[trigger] tail[i]).0,
            ) == Some(text) {
            let i = choose|i: int|
                0 <= i < tail.len() && text != "<<"@ && crate::stream::merge::lone_text(
                    (#[trigger] tail[i]).0,
                ) == Some(text);
            assert(entries[i + 1] == tail[i]);
        }
        if exists|i: int|
            0 <= i < entries.len() && text != "<<"@ && crate::stream::merge::lone_text(
                (#[trigger] entries[i]).0,
            ) == Some(text) {
            let i = choose|i: int|
                0 <= i < entries.len() && text != "<<"@ && crate::stream::merge::lone_text(
                    (#[trigger] entries[i]).0,
                ) == Some(text);
            if i > 0 {
                assert(tail[i - 1] == entries[i]);
            }
        }
    }
}

// ---- merge sources -----------------------------------------------------

/// A merge source contributes what it states itself before what it inherits: its own
/// key beats the one it inherits.
pub proof fn law_a_source_states_then_inherits<'de>(
    start: Event<'de>,
    entries: Seq<Entry<'de>>,
    end: Event<'de>,
    merge_keys: bool,
)
    requires
        start.kind is MappingStart,
        readable(entries, merge_keys),
    ensures
        ({
            let source = seq![start] + laid_out(entries) + seq![end];
            let given = crate::stream::merge::sources(source, merge_keys);
            &&& given.refused is None
            &&& given.entries == stated(entries, merge_keys) + contributed(entries, merge_keys)
        }),
{
    let source = seq![start] + laid_out(entries) + seq![end];
    assert(crate::stream::merge::inside(source) =~= laid_out(entries));
    assert(source[0] == start);
    lemma_pairs(entries, merge_keys);
}

proof fn lemma_pairs<'de>(entries: Seq<Entry<'de>>, merge_keys: bool)
    requires
        readable(entries, merge_keys),
    ensures
        ({
            let (own, inherited) = crate::stream::merge::pairs(laid_out(entries), merge_keys);
            &&& own.refused is None
            &&& own.entries == stated(entries, merge_keys)
            &&& inherited == contributed(entries, merge_keys)
        }),
    decreases entries.len(),
{
    let events = laid_out(entries);
    if entries.len() > 0 {
        let (key, value) = entries[0];
        let tail = entries.skip(1);
        lemma_readable_tail(entries, merge_keys);
        assert(events =~= key + (value + laid_out(tail)));
        law_measuring_finds_one_value(key, value + laid_out(tail));
        law_measuring_finds_one_value(value, laid_out(tail));
        lemma_pairs(tail, merge_keys);
    }
}

/// A merge value that is neither a mapping nor a sequence is refused.
pub proof fn law_only_collections_merge<'de>(value: Seq<Event<'de>>, merge_keys: bool)
    requires
        value.len() == 0 || !(value[0].kind is MappingStart || value[0].kind is SequenceStart),
    ensures
        crate::stream::merge::sources(value, merge_keys).refused == Some(
            crate::stream::merge::merge_refusal(value),
        ),
{
}

/// What several merge sources contribute, the earlier ones first.
pub open spec fn all_contributed<'de>(sources: Seq<Seq<Event<'de>>>, merge_keys: bool) -> Seq<
    Entry<'de>,
>
    decreases sources.len(),
{
    if sources.len() == 0 {
        Seq::empty()
    } else {
        crate::stream::merge::sources(sources[0], merge_keys).entries + all_contributed(
            sources.drop_first(),
            merge_keys,
        )
    }
}

/// Whether every source is one mapping that can be merged.
pub open spec fn mergeable<'de>(sources: Seq<Seq<Event<'de>>>, merge_keys: bool) -> bool {
    forall|i: int|
        #![trigger sources[i]]
        0 <= i < sources.len() ==> {
            &&& crate::stream::tape::model::is_value(sources[i])
            &&& crate::stream::merge::starts_mapping(sources[i])
            &&& crate::stream::merge::sources(sources[i], merge_keys).refused is None
        }
}

/// A sequence of mappings contributes what each of them does, the earlier ones first.
pub proof fn law_a_sequence_merges_in_order<'de>(
    start: Event<'de>,
    sources: Seq<Seq<Event<'de>>>,
    end: Event<'de>,
    merge_keys: bool,
)
    requires
        start.kind is SequenceStart,
        mergeable(sources, merge_keys),
    ensures
        ({
            let value = seq![start] + sources.flatten() + seq![end];
            let given = crate::stream::merge::sources(value, merge_keys);
            &&& given.refused is None
            &&& given.entries == all_contributed(sources, merge_keys)
        }),
{
    let value = seq![start] + sources.flatten() + seq![end];
    assert(crate::stream::merge::inside(value) =~= sources.flatten());
    assert(value[0] == start);
    lemma_items(sources, merge_keys);
}

proof fn lemma_items<'de>(sources: Seq<Seq<Event<'de>>>, merge_keys: bool)
    requires
        mergeable(sources, merge_keys),
    ensures
        ({
            let given = crate::stream::merge::items_entries(sources.flatten(), merge_keys);
            &&& given.refused is None
            &&& given.entries == all_contributed(sources, merge_keys)
        }),
    decreases sources.len(),
{
    if sources.len() > 0 {
        let first = sources[0];
        let tail = sources.drop_first();
        assert(sources.flatten() == first + tail.flatten());
        law_measuring_finds_one_value(first, tail.flatten());
        assert(mergeable(tail, merge_keys)) by {
            assert forall|i: int|
                #![trigger tail[i]]
                0 <= i < tail.len() implies crate::stream::tape::model::is_value(tail[i])
                && crate::stream::merge::starts_mapping(tail[i]) && crate::stream::merge::sources(
                tail[i],
                merge_keys,
            ).refused is None by {
                assert(tail[i] == sources[i + 1]);
            }
        }
        lemma_items(tail, merge_keys);
    }
}

/// Only the text of a key decides whether it merges: a quoted `"<<"` merges too.
pub proof fn law_quoting_does_not_stop_a_merge<'a, 'b>(
    left: Event<'a>,
    right: Event<'b>,
    merge_keys: bool,
)
    requires
        crate::stream::value::event_text(left) == crate::stream::value::event_text(right),
    ensures
        crate::stream::merge::is_merge_key(seq![left], merge_keys)
            == crate::stream::merge::is_merge_key(seq![right], merge_keys),
{
    assert(crate::stream::merge::lone_text(seq![left]) == crate::stream::value::event_text(left));
    assert(crate::stream::merge::lone_text(seq![right]) == crate::stream::value::event_text(
        right,
    ));
}

} // verus!
