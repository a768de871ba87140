//! Which keys are the same key, said over the values of their events.
//!
//! Style and tag play no part: `a`, `'a'` and `!!str a` are one key, and `'<<'` merges
//! as `<<` does.

use std::borrow::Cow;

use vstd::prelude::*;

use super::{Entry, KeyStep, MapState, NextKey, NextValue, ValueStep};
use crate::error::{DeError, DeFailure, Failure};
use crate::event::{Event, EventKind};
use crate::stream::merge::Contribution;
use crate::stream::value::Coming;
use crate::types::{ScalarStyle, Span, Tag};

verus! {

/// Whether a run is a single scalar event whose value is `text`.
pub open spec fn reads(run: Seq<Event<'_>>, text: Seq<char>) -> bool {
    run.len() == 1 && (run[0].kind matches EventKind::Scalar { value, .. } && value@ == text)
}

/// The text of a key that is a single scalar event is the value of that event, whatever
/// its style, anchor, tag and span.
pub proof fn law_the_text_of_a_key_is_its_value<'de>(
    value: Cow<'de, str>,
    style: ScalarStyle,
    anchor: Option<Cow<'de, str>>,
    tag: Option<Tag<'de>>,
    span: Span,
)
    ensures
        ({
            let event = Event { kind: EventKind::Scalar { value, style, anchor, tag }, span };
            &&& crate::stream::value::event_text(event) == Some(value@)
            &&& crate::stream::merge::lone_text(seq![event]) == Some(value@)
            &&& crate::stream::merge::is_merge_key(seq![event], true) <==> value@ == "<<"@
            &&& !crate::stream::merge::is_merge_key(seq![event], false)
        }),
{
}

/// A run has a text exactly if it is a single scalar event: no other event has one, and
/// no run of several, nor of none.
pub proof fn law_only_a_single_scalar_has_a_text(run: Seq<Event<'_>>, text: Seq<char>)
    ensures
        crate::stream::merge::lone_text(run) == Some(text) <==> reads(run, text),
        crate::stream::merge::is_merge_key(run, true) <==> reads(run, "<<"@),
        !crate::stream::merge::is_merge_key(run, false),
        run.len() > 0 ==> (crate::stream::value::event_text(run[0]) == Some(text) <==> reads(
            run.take(1),
            text,
        )),
{
}

// ---- whole mappings ----------------------------------------------------

/// The entries a mapping states itself: those whose key is not a scalar `<<`.
pub open spec fn own_entries<'de>(entries: Seq<Entry<'de>>) -> Seq<Entry<'de>>
    decreases entries.len(),
{
    if entries.len() == 0 {
        Seq::empty()
    } else if reads(entries[0].0, "<<"@) {
        own_entries(entries.skip(1))
    } else {
        seq![entries[0]] + own_entries(entries.skip(1))
    }
}

proof fn lemma_own<'de>(entries: Seq<Entry<'de>>)
    ensures
        super::laws::stated(entries, true) == own_entries(entries),
    decreases entries.len(),
{
    if entries.len() > 0 {
        law_only_a_single_scalar_has_a_text(entries[0].0, "<<"@);
        lemma_own(entries.skip(1));
    }
}

proof fn lemma_own_comes_from<'de>(entries: Seq<Entry<'de>>, a: int)
    requires
        0 <= a < own_entries(entries).len(),
    ensures
        exists|i: int| 0 <= i < entries.len() && #[trigger] entries[i] == own_entries(entries)[a],
        !reads(own_entries(entries)[a].0, "<<"@),
    decreases entries.len(),
{
    let tail = entries.skip(1);
    let own = own_entries(entries);
    if reads(entries[0].0, "<<"@) {
        lemma_own_comes_from(tail, a);
        let i = choose|i: int| 0 <= i < tail.len() && #[trigger] tail[i] == own_entries(tail)[a];
        assert(entries[i + 1] == own[a]);
    } else if a == 0 {
        assert(entries[0] == own[a]);
    } else {
        lemma_own_comes_from(tail, a - 1);
        let i = choose|i: int|
            0 <= i < tail.len() && #[trigger] tail[i] == own_entries(tail)[a - 1];
        assert(entries[i + 1] == own[a]);
    }
}

/// A mapping hands out its own entries first, as they are written, without its merge keys.
/// What it inherits follows, and repeats no key: no merged entry has a scalar key with the
/// value of another scalar key before it, explicit or merged. Nothing is inherited but
/// what the merge keys contribute.
pub proof fn law_no_merged_entry_repeats_a_key<'de>(
    entries: Seq<Entry<'de>>,
    end: Event<'de>,
    more: Coming<'de>,
    fuel: nat,
)
    requires
        end.kind is MappingEnd,
        super::laws::readable(entries, true),
        fuel >= entries.len() + super::laws::contributed(entries, true).len(),
    ensures
        ({
            let all = super::laws::read(
                super::unread(),
                crate::stream::source::yields(super::laws::laid_out(entries)) + (seq![Ok(end)]
                    + more),
                true,
                fuel,
            );
            let own = own_entries(entries);
            &&& all is Some
            &&& all->0.len() >= own.len()
            &&& all->0.take(own.len() as int) == own
            &&& forall|a: int, b: int, text: Seq<char>|
                0 <= a < b < all->0.len() && own.len() <= b && #[trigger] reads(all->0[a].0, text)
                    ==> !#[trigger] reads(all->0[b].0, text)
            &&& forall|b: int|
                own.len() <= b < all->0.len() ==> super::laws::contributed(
                    entries,
                    true,
                ).contains(#[trigger] all->0[b])
        }),
{
    let own = own_entries(entries);
    let given = super::laws::contributed(entries, true);
    let seen = super::laws::claimed(Set::empty(), entries, true);
    super::laws::law_a_mapping_states_then_inherits(entries, end, more, true, fuel);
    lemma_own(entries);
    let kept = super::laws::survivors(seen, given);
    let all = own + kept;
    assert(all.take(own.len() as int) =~= own);
    let numbers = super::laws::law_precedence(seen, given);
    assert forall|a: int, b: int, text: Seq<char>|
        0 <= a < b < all.len() && own.len() <= b && #[trigger] reads(
            all[a].0,
            text,
        ) implies !#[trigger] reads(all[b].0, text) by {
        let q = b - own.len();
        assert(all[b] == kept[q]);
        assert(kept[q] == given[numbers[q]]);
        law_only_a_single_scalar_has_a_text(all[a].0, text);
        law_only_a_single_scalar_has_a_text(all[b].0, text);
        assert(super::laws::prevails(seen, given, numbers[q]));
        if a < own.len() {
            assert(all[a] == own[a]);
            lemma_own_comes_from(entries, a);
            let i = choose|i: int| 0 <= i < entries.len() && #[trigger] entries[i] == own[a];
            super::laws::law_explicit_keys_are_claimed(Set::empty(), entries, text);
            assert(crate::stream::merge::lone_text(entries[i].0) == Some(text));
            assert(seen.contains(text));
        } else {
            let p = a - own.len();
            assert(all[a] == kept[p]);
            assert(kept[p] == given[numbers[p]]);
            assert(numbers[p] < numbers[q]);
            assert(crate::stream::merge::lone_text(given[numbers[p]].0) == Some(text));
        }
    }
    assert forall|b: int| own.len() <= b < all.len() implies given.contains(#[trigger] all[b]) by {
        let q = b - own.len();
        assert(all[b] == kept[q]);
        assert(kept[q] == given[numbers[q]]);
    }
}

/// What a merge key contributes is either handed out or claimed: an inherited entry whose
/// key is no scalar, or whose value no earlier key has, is among the entries of the
/// mapping.
pub proof fn law_an_unclaimed_entry_is_inherited<'de>(
    entries: Seq<Entry<'de>>,
    end: Event<'de>,
    more: Coming<'de>,
    fuel: nat,
    i: int,
)
    requires
        end.kind is MappingEnd,
        super::laws::readable(entries, true),
        fuel >= entries.len() + super::laws::contributed(entries, true).len(),
        0 <= i < super::laws::contributed(entries, true).len(),
        forall|text: Seq<char>, k: int|
            #[trigger] reads(super::laws::contributed(entries, true)[i].0, text) && 0 <= k
                < entries.len() ==> !reads((#[trigger] entries[k]).0, text) || text == "<<"@,
        forall|text: Seq<char>, j: int|
            #[trigger] reads(super::laws::contributed(entries, true)[i].0, text) && 0 <= j < i
                ==> !reads((#[trigger] super::laws::contributed(entries, true)[j]).0, text),
    ensures
        super::laws::read(
            super::unread(),
            crate::stream::source::yields(super::laws::laid_out(entries)) + (seq![Ok(end)] + more),
            true,
            fuel,
        ) matches Some(all) && all.contains(super::laws::contributed(entries, true)[i]),
{
    let given = super::laws::contributed(entries, true);
    let seen = super::laws::claimed(Set::empty(), entries, true);
    super::laws::law_a_mapping_states_then_inherits(entries, end, more, true, fuel);
    let own = super::laws::stated(entries, true);
    let kept = super::laws::survivors(seen, given);
    let numbers = super::laws::law_precedence(seen, given);
    if let Some(text) = crate::stream::merge::lone_text(given[i].0) {
        law_only_a_single_scalar_has_a_text(given[i].0, text);
        super::laws::law_explicit_keys_are_claimed(Set::empty(), entries, text);
        if seen.contains(text) {
            let k = choose|k: int|
                0 <= k < entries.len() && text != "<<"@ && crate::stream::merge::lone_text(
                    (#[trigger] entries[k]).0,
                ) == Some(text);
            law_only_a_single_scalar_has_a_text(entries[k].0, text);
        }
        assert forall|j: int| 0 <= j < i implies crate::stream::merge::lone_text(
            #[trigger] given[j].0,
        ) != Some(text) by {
            law_only_a_single_scalar_has_a_text(given[j].0, text);
        }
    }
    assert(super::laws::prevails(seen, given, i));
    let a = choose|a: int| 0 <= a < numbers.len() && numbers[a] == i;
    assert(kept[a] == given[i]);
    assert((own + kept)[own.len() + a] == given[i]);
}

/// A merge sequence with an item that is no mapping is refused at that item, and what it
/// found is named.
pub proof fn law_a_merge_sequence_holds_only_mappings<'de>(
    start: Event<'de>,
    sources: Seq<Seq<Event<'de>>>,
    item: Seq<Event<'de>>,
    others: Seq<Event<'de>>,
    end: Event<'de>,
)
    requires
        start.kind is SequenceStart,
        super::laws::mergeable(sources, true),
        crate::stream::tape::model::is_value(item),
        !(item[0].kind is MappingStart),
    ensures
        crate::stream::merge::sources(
            seq![start] + (sources.flatten() + (item + others)) + seq![end],
            true,
        ).refused == Some(crate::stream::merge::merge_refusal(item)),
{
    let inner = sources.flatten() + (item + others);
    let value = seq![start] + inner + seq![end];
    assert(crate::stream::merge::inside(value) =~= inner);
    assert(value[0] == start);
    lemma_refused_item(sources, item, others);
}

proof fn lemma_refused_item<'de>(
    sources: Seq<Seq<Event<'de>>>,
    item: Seq<Event<'de>>,
    others: Seq<Event<'de>>,
)
    requires
        super::laws::mergeable(sources, true),
        crate::stream::tape::model::is_value(item),
        !(item[0].kind is MappingStart),
    ensures
        crate::stream::merge::items_entries(
            sources.flatten() + (item + others),
            true,
        ).refused == Some(crate::stream::merge::merge_refusal(item)),
    decreases sources.len(),
{
    let inner = sources.flatten() + (item + others);
    if sources.len() == 0 {
        assert(inner =~= item + others);
        super::laws::law_measuring_finds_one_value(item, others);
    } else {
        let first = sources[0];
        let tail = sources.drop_first();
        assert(sources.flatten() == first + tail.flatten());
        let left = tail.flatten() + (item + others);
        assert(inner =~= first + left);
        super::laws::law_measuring_finds_one_value(first, left);
        assert(super::laws::mergeable(tail, true)) by {
            assert forall|i: int|
                #![trigger tail[i]]
                0 <= i < tail.len() implies crate::stream::tape::model::is_value(tail[i])
                && crate::stream::merge::starts_mapping(tail[i]) && crate::stream::merge::sources(
                tail[i],
                true,
            ).refused is None by {
                assert(tail[i] == sources[i + 1]);
            }
        }
        lemma_refused_item(tail, item, others);
    }
}

/// A scalar key `<<` is never handed out when merge keys are on, in whatever style it is
/// written and whatever it is tagged with: the entries of its value are put by, and the
/// next key is looked for behind it. A value that cannot be merged is refused there.
pub proof fn law_a_merge_key_is_passed_over<'de>(
    m: MapState<'de>,
    key: Event<'de>,
    value: Seq<Event<'de>>,
    rest: Coming<'de>,
)
    requires
        !m.draining,
        key.kind matches EventKind::Scalar { value: text, .. } && text@ == "<<"@,
        crate::stream::tape::model::is_value(value),
    ensures
        ({
            let coming: Coming<'de> = seq![Ok(key)] + (crate::stream::source::yields(value) + rest);
            let given = crate::stream::merge::sources(value, true);
            let next = MapState { merged: m.merged + given.entries, ..m };
            super::next_key(m, coming, true) == match given.refused {
                None => super::next_key(next, rest, true),
                Some(f) => (next, rest, Err::<KeyStep<'de>, DeFailure>(f)),
            }
        }),
{
    let from_value: Coming<'de> = crate::stream::source::yields(value) + rest;
    let coming: Coming<'de> = seq![Ok(key)] + from_value;
    assert(coming[0] == Ok::<Event<'de>, Failure>(key));
    assert(crate::stream::value::beyond(coming) =~= from_value);
    super::laws::law_capturing_reads_one_value(value, rest);
}

/// A merge source that inherits from a value that cannot be merged cannot be merged itself,
/// whatever it states before.
pub proof fn law_a_refusal_reaches_the_outermost_merge<'de>(
    start: Event<'de>,
    entries: Seq<Entry<'de>>,
    key: Seq<Event<'de>>,
    value: Seq<Event<'de>>,
    others: Seq<Event<'de>>,
    end: Event<'de>,
)
    requires
        start.kind is MappingStart,
        super::laws::readable(entries, true),
        reads(key, "<<"@),
        crate::stream::tape::model::is_value(value),
        crate::stream::merge::sources(value, true).refused is Some,
    ensures
        crate::stream::merge::sources(
            seq![start] + (super::laws::laid_out(entries) + (key + (value + others))) + seq![end],
            true,
        ).refused == crate::stream::merge::sources(value, true).refused,
{
    let inner = super::laws::laid_out(entries) + (key + (value + others));
    let source = seq![start] + inner + seq![end];
    assert(crate::stream::merge::inside(source) =~= inner);
    assert(source[0] == start);
    lemma_refused_pair(entries, key, value, others);
}

proof fn lemma_scalar_is_a_value(key: Seq<Event<'_>>, text: Seq<char>)
    requires
        reads(key, text),
    ensures
        crate::stream::tape::model::is_value(key),
{
    assert(key.drop_last() =~= Seq::empty());
    assert(crate::stream::tape::model::depth_of(key.drop_last()) == 0);
}

proof fn lemma_refused_pair<'de>(
    entries: Seq<Entry<'de>>,
    key: Seq<Event<'de>>,
    value: Seq<Event<'de>>,
    others: Seq<Event<'de>>,
)
    requires
        super::laws::readable(entries, true),
        reads(key, "<<"@),
        crate::stream::tape::model::is_value(value),
        crate::stream::merge::sources(value, true).refused is Some,
    ensures
        crate::stream::merge::pairs(
            super::laws::laid_out(entries) + (key + (value + others)),
            true,
        ).0.refused == crate::stream::merge::sources(value, true).refused,
    decreases entries.len(),
{
    let tail = key + (value + others);
    let events = super::laws::laid_out(entries) + tail;
    if entries.len() == 0 {
        assert(events =~= tail);
        lemma_scalar_is_a_value(key, "<<"@);
        law_only_a_single_scalar_has_a_text(key, "<<"@);
        super::laws::law_measuring_finds_one_value(key, value + others);
        super::laws::law_measuring_finds_one_value(value, others);
    } else {
        let (first, second) = entries[0];
        let later = entries.skip(1);
        let more = super::laws::laid_out(later) + tail;
        assert(events =~= first + (second + more));
        super::laws::lemma_readable_tail(entries, true);
        super::laws::law_measuring_finds_one_value(first, second + more);
        super::laws::law_measuring_finds_one_value(second, more);
        lemma_refused_pair(later, key, value, others);
    }
}

/// A key without a value at the end of a merge source contributes nothing.
pub proof fn law_a_key_without_a_value_contributes_nothing<'de>(
    start: Event<'de>,
    entries: Seq<Entry<'de>>,
    key: Seq<Event<'de>>,
    end: Event<'de>,
)
    requires
        start.kind is MappingStart,
        super::laws::readable(entries, true),
        crate::stream::tape::model::is_value(key),
    ensures
        crate::stream::merge::sources(
            seq![start] + (super::laws::laid_out(entries) + key) + seq![end],
            true,
        ) == crate::stream::merge::sources(
            seq![start] + super::laws::laid_out(entries) + seq![end],
            true,
        ),
{
    let inner = super::laws::laid_out(entries);
    let short = seq![start] + inner + seq![end];
    let long = seq![start] + (inner + key) + seq![end];
    assert(crate::stream::merge::inside(short) =~= inner);
    assert(crate::stream::merge::inside(long) =~= inner + key);
    assert(short[0] == start && long[0] == start);
    lemma_dropped_key(entries, key);
}

proof fn lemma_dropped_key<'de>(entries: Seq<Entry<'de>>, key: Seq<Event<'de>>)
    requires
        super::laws::readable(entries, true),
        crate::stream::tape::model::is_value(key),
    ensures
        crate::stream::merge::pairs(super::laws::laid_out(entries) + key, true)
            == crate::stream::merge::pairs(super::laws::laid_out(entries), true),
    decreases entries.len(),
{
    let events = super::laws::laid_out(entries);
    if entries.len() == 0 {
        assert(events + key =~= key);
        assert(key + Seq::empty() =~= key);
        super::laws::law_measuring_finds_one_value(key, Seq::empty());
    } else {
        let (first, second) = entries[0];
        let later = entries.skip(1);
        let more = super::laws::laid_out(later);
        assert(events =~= first + (second + more));
        assert(events + key =~= first + (second + (more + key)));
        super::laws::lemma_readable_tail(entries, true);
        super::laws::law_measuring_finds_one_value(first, second + more);
        super::laws::law_measuring_finds_one_value(second, more);
        super::laws::law_measuring_finds_one_value(first, second + (more + key));
        super::laws::law_measuring_finds_one_value(second, more + key);
        lemma_dropped_key(later, key);
    }
}

/// Inside a collection stands what is between its first event and its last; a run of less
/// than two events has no inside. A run is a mapping if it starts as one, in whatever style
/// and under whatever anchor and tag.
pub proof fn law_the_inside_is_between_the_ends<'de>(
    first: Event<'de>,
    inner: Seq<Event<'de>>,
    last: Event<'de>,
)
    ensures
        crate::stream::merge::inside(seq![first] + inner + seq![last]) == inner,
        crate::stream::merge::inside(seq![first]) == Seq::<Event<'de>>::empty(),
        crate::stream::merge::inside(Seq::<Event<'de>>::empty()) == Seq::<Event<'de>>::empty(),
        crate::stream::merge::starts_mapping(seq![first] + inner) <==> first.kind is MappingStart,
        !crate::stream::merge::starts_mapping(Seq::<Event<'de>>::empty()),
{
    let run = seq![first] + inner + seq![last];
    assert(crate::stream::merge::inside(run) =~= inner);
    assert((seq![first] + inner)[0] == first);
}

/// A split went as wanted exactly if it added the wanted entries, in order and as they are,
/// behind those that were there, and was refused as wanted.
pub proof fn law_a_split_adds_what_is_wanted<'de>(
    before: Seq<(Vec<Event<'de>>, Vec<Event<'de>>)>,
    after: Seq<(Vec<Event<'de>>, Vec<Event<'de>>)>,
    error: DeError,
    wanted: Contribution<'de>,
    i: int,
)
    ensures
        crate::stream::merge::split_as(before, after, Ok(()), wanted) ==> wanted.refused is None,
        crate::stream::merge::split_as(before, after, Err(error), wanted) ==> wanted.refused
            == Some(error@),
        crate::stream::merge::split_as(before, after, Ok(()), wanted)
            || crate::stream::merge::split_as(before, after, Err(error), wanted) ==> {
            &&& after.len() == before.len() + wanted.entries.len()
            &&& 0 <= i < before.len() ==> (after[i].0@, after[i].1@) == (
                before[i].0@,
                before[i].1@,
            )
            &&& 0 <= i < wanted.entries.len() ==> (
                after[before.len() + i].0@,
                after[before.len() + i].1@,
            ) == wanted.entries[i]
        },
{
    let old_entries = crate::stream::merge::entries_of(before);
    let new_entries = crate::stream::merge::entries_of(after);
    let all = old_entries + wanted.entries;
    if new_entries == all {
        assert(new_entries.len() == after.len());
        assert(old_entries.len() == before.len());
        if 0 <= i < before.len() {
            assert(new_entries[i] == (after[i].0@, after[i].1@));
            assert(old_entries[i] == (before[i].0@, before[i].1@));
            assert(all[i] == old_entries[i]);
        }
        if 0 <= i < wanted.entries.len() {
            let k = before.len() + i;
            assert(new_entries[k] == (after[k].0@, after[k].1@));
            assert(all[k] == wanted.entries[i]);
        }
    }
}

// ---- what is handed out ------------------------------------------------

/// What is handed out says where it is, and a recorded run is handed out whole.
pub proof fn law_a_step_says_where_it_is<'de>(run: Vec<Event<'de>>)
    ensures
        NextKey::<'de>::End@ == KeyStep::<'de>::End,
        NextKey::<'de>::Live@ == KeyStep::<'de>::Live,
        NextKey::Recorded(run)@ == KeyStep::Recorded(run@),
        NextValue::<'de>::Live@ == ValueStep::<'de>::Live,
        NextValue::Recorded(run)@ == ValueStep::Recorded(run@),
{
}

/// A mapping of which nothing has been read has claimed nothing, inherits nothing yet, and
/// has its own entries still to come.
pub proof fn law_an_unread_mapping_has_claimed_nothing<'de>(text: Seq<char>)
    ensures
        !super::unread::<'de>().seen.contains(text),
        super::unread::<'de>().merged.len() == 0,
        super::unread::<'de>().pending is None,
        !super::unread::<'de>().draining,
{
}

/// A refused merge value is named by its first event.
pub proof fn law_a_refused_merge_value_is_named<'de>(value: Seq<Event<'de>>)
    ensures
        crate::stream::merge::merge_refusal(value) == DeFailure::Message(
            "expected mapping or sequence of mappings for '<<' merge key, found "@ + (
            if value.len() == 0 {
                "nothing"@
            } else {
                value[0].kind.label()
            }),
        ),
{
}

} // verus!
