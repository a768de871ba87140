//! What an anchor stands for, said over the anchor that an event carries.

use std::borrow::Cow;

use vstd::prelude::*;

use crate::error::Failure;
use crate::event::{Event, EventKind};
use crate::stream::tape::model::TapeState;
use crate::stream::tape::resolution::Anchored;
use crate::stream::value::tree::Tree;
use crate::types::{CollectionStyle, ScalarStyle, Span, Tag};

verus! {

/// The name under which a tree is anchored: the anchor of its scalar, or of the event that
/// starts its collection.
pub open spec fn anchor_field<'a>(tree: Tree<'a>) -> Option<Cow<'a, str>> {
    match tree {
        Tree::Leaf(event) => match event.kind {
            EventKind::Scalar { anchor, .. } => anchor,
            _ => None,
        },
        Tree::List { start, .. } => match start.kind {
            EventKind::SequenceStart { anchor, .. } => anchor,
            _ => None,
        },
        Tree::Table { opens, .. } => match opens.kind {
            EventKind::MappingStart { anchor, .. } => anchor,
            _ => None,
        },
    }
}

/// A scalar, a sequence start or a mapping start declares the anchor it carries, in
/// whatever style it is written and whatever tag stands beside the anchor; without an
/// anchor it declares nothing.
pub proof fn law_an_event_declares_its_anchor<'a>(
    value: Cow<'a, str>,
    written: ScalarStyle,
    style: CollectionStyle,
    anchor: Option<Cow<'a, str>>,
    tag: Option<Tag<'a>>,
    span: Span,
)
    ensures
        ({
            let scalar = Event { kind: EventKind::Scalar { value, style: written, anchor, tag }, span };
            let list = Event { kind: EventKind::SequenceStart { anchor, tag, style }, span };
            let table = Event { kind: EventKind::MappingStart { anchor, tag, style }, span };
            match anchor {
                Some(name) => {
                    &&& super::super::model::declared(scalar) == Some(name@)
                    &&& super::super::model::declared(list) == Some(name@)
                    &&& super::super::model::declared(table) == Some(name@)
                },
                None => {
                    &&& super::super::model::declared(scalar) is None
                    &&& super::super::model::declared(list) is None
                    &&& super::super::model::declared(table) is None
                },
            }
        }),
{
}

/// No event declares an anchor but a scalar, a sequence start and a mapping start.
pub proof fn law_only_values_declare_anchors(event: Event<'_>)
    requires
        super::super::model::declared(event) is Some,
    ensures
        event.kind is Scalar || event.kind is SequenceStart || event.kind is MappingStart,
{
}

/// In a tree, an anchored value is defined once it is complete, and stands for itself with
/// its own aliases resolved: an alias of its name right after it is a copy of it.
pub proof fn law_an_alias_copies_the_value_it_names<'a>(
    value: Tree<'a>,
    alias: Event<'a>,
    anchored: Anchored<'a>,
    name: Cow<'a, str>,
)
    requires
        anchor_field(value) == Some(name),
        alias.kind matches EventKind::Alias { name: called } && called@ == name@,
    ensures
        super::super::resolution::resolved(value, anchored) matches Some((whole, after)) ==> {
            &&& after.contains_key(name@)
            &&& after[name@] == whole
            &&& super::super::resolution::resolved_items(
                seq![value, Tree::Leaf(alias)],
                anchored,
            ) == Some((seq![whole, whole], after))
            &&& super::super::resolution::resolved_entries(
                seq![(value, Tree::Leaf(alias))],
                anchored,
            ) == Some((seq![(whole, whole)], after))
        },
{
    if let Some((whole, after)) = super::super::resolution::resolved(value, anchored) {
        let leaf = Tree::Leaf(alias);
        assert(super::super::resolution::resolved(leaf, after) == Some((whole, after)));
        let items = seq![value, leaf];
        let tail = items.drop_first();
        assert(tail =~= seq![leaf]);
        assert(tail.drop_first() =~= Seq::empty());
        assert(super::super::resolution::resolved_items(tail.drop_first(), after) == Some(
            (Seq::<Tree<'a>>::empty(), after),
        ));
        assert(super::super::resolution::resolved_items(tail, after) == Some(
            (seq![whole] + Seq::<Tree<'a>>::empty(), after),
        ));
        assert(seq![whole] + (seq![whole] + Seq::<Tree<'a>>::empty()) =~= seq![whole, whole]);
        let entries = seq![(value, leaf)];
        assert(entries.drop_first() =~= Seq::empty());
        assert(super::super::resolution::resolved_entries(entries.drop_first(), after) == Some(
            (Seq::<(Tree<'a>, Tree<'a>)>::empty(), after),
        ));
        assert(seq![(whole, whole)] + Seq::<(Tree<'a>, Tree<'a>)>::empty() =~= seq![
            (whole, whole),
        ]);
    }
}

/// A value without an anchor defines none of its own: a scalar leaves the anchors as they
/// are, and a collection leaves those that its parts define.
pub proof fn law_a_value_without_an_anchor_defines_none<'a>(value: Tree<'a>, anchored: Anchored<'a>)
    requires
        anchor_field(value) is None,
    ensures
        super::super::resolution::resolved(value, anchored) matches Some((whole, after)) ==> (
        match value {
            Tree::Leaf(_) => after == anchored,
            Tree::List { items, .. } => super::super::resolution::resolved_items(
                items,
                anchored,
            ) matches Some((_, within)) && after == within,
            Tree::Table { entries, .. } => super::super::resolution::resolved_entries(
                entries,
                anchored,
            ) matches Some((_, within)) && after == within,
        }),
{
}

/// On a tape, an anchored value is defined once it is complete, in whatever style it is
/// written: an alias of its name right after it yields the events of that value once more,
/// with its own aliases resolved, unless the tape reports a failure on the way.
pub proof fn law_an_alias_repeats_the_value_it_names<'a>(
    value: Tree<'a>,
    whole: Tree<'a>,
    alias: Event<'a>,
    name: Cow<'a, str>,
    s: TapeState<'a>,
    rest: Seq<Result<Event<'a>, Failure>>,
) -> (states: (TapeState<'a>, TapeState<'a>))
    requires
        anchor_field(value) == Some(name),
        alias.kind matches EventKind::Alias { name: called } && called@ == name@,
        super::super::resolution::resolved_whole(value) == Some(whole),
        super::about_to_read(
            s,
            crate::stream::value::tree::events_of(value) + seq![alias],
            rest,
        ),
        super::super::expansion::calm(
            super::super::model::delivered(s),
            2 * crate::stream::value::tree::events_of(whole).len(),
        ),
    ensures
        ({
            let (t, u) = states;
            let out = crate::stream::value::tree::events_of(whole);
            &&& t.anchors.contains_key(name@)
            &&& super::super::expansion::run_written(t, t.anchors[name@]) == out
            &&& t.input == seq![Ok::<Event<'a>, Failure>(alias)] + rest
            &&& super::super::model::delivered(s) == crate::stream::source::yields(out)
                + super::super::model::delivered(t)
            &&& super::super::model::delivered(t) == crate::stream::source::yields(out)
                + super::super::model::delivered(u)
            &&& u.input == rest
            &&& super::super::model::well_formed(t)
            &&& super::super::model::well_formed(u)
        }),
{
    let raw = crate::stream::value::tree::events_of(value);
    let out = crate::stream::value::tree::events_of(whole);
    let none: Anchored<'a> = Map::empty();
    let (_, after) = super::super::resolution::resolved(value, none)->0;
    law_an_alias_copies_the_value_it_names(value, alias, none, name);
    assert(super::knows(s, none));
    super::lemma_ready_first(s, (raw, seq![alias]), rest, none, 2 * out.len());
    let then: Seq<Result<Event<'a>, Failure>> = crate::stream::source::yields(seq![alias]) + rest;
    let t = super::lemma_tree_read(value, none, s, then, 2 * out.len());
    assert((out + out).len() == 2 * out.len());
    super::lemma_ready_next(s, t, (out, out), 2 * out.len());
    assert(after.contains_key(name@));
    let u = super::lemma_alias_read(t, alias, rest, after, out.len());
    assert(then =~= seq![Ok::<Event<'a>, Failure>(alias)] + rest);
    (t, u)
}

} // verus!
