//! What lookups, accessors and copies do, said over the parts a node is made of.

use vstd::prelude::*;

use super::{Mapping, Node, Scalar, Sequence};
use crate::path::Step;
use crate::types::Tag;

verus! {

// ---- lookups -----------------------------------------------------------

/// Whether a node is a scalar with this text, however it is written.
pub open spec fn reads(node: Node<'_>, text: Seq<char>) -> bool {
    node matches Node::Scalar(s) && s.value@ == text
}

proof fn lemma_first_key(entries: Seq<(Node<'_>, Node<'_>)>, key: Seq<char>)
    ensures
        match super::first_key(entries, key) {
            Some(i) => 0 <= i < entries.len() && reads(entries[i].0, key) && forall|j: int|
                0 <= j < i ==> !reads((#[trigger] entries[j]).0, key),
            None => forall|j: int|
                0 <= j < entries.len() ==> !reads((#[trigger] entries[j]).0, key),
        },
    decreases entries.len(),
{
    if entries.len() > 0 && !reads(entries[0].0, key) {
        let rest = entries.skip(1);
        lemma_first_key(rest, key);
        let last = match super::first_key(rest, key) {
            Some(i) => i + 1,
            None => entries.len() as int,
        };
        assert forall|j: int| 0 <= j < last implies !reads((#[trigger] entries[j]).0, key) by {
            if j > 0 {
                assert(rest[j - 1] == entries[j]);
            }
        }
    }
}

/// In a mapping a step leads to the value of the first entry whose key is a scalar with
/// the step's text, in whatever style and under whatever tag the key is written.
pub proof fn law_a_step_finds_the_first_key<'a>(mapping: Mapping<'a>, key: Seq<char>, i: int, n: int)
    requires
        0 <= i < mapping.entries@.len(),
        mapping.entries@[i].0 matches Node::Scalar(s) && s.value@ == key,
        forall|j: int|
            0 <= j < i ==> !((#[trigger] mapping.entries@[j]).0 matches Node::Scalar(s) && s.value@
                == key),
    ensures
        Node::Mapping(mapping).next(Step::Key(key)) == Some(i),
        Node::Mapping(mapping).next(Step::Index(n, key)) == Some(i),
        Node::Mapping(mapping).child(i) == mapping.entries@[i].1,
        Node::Mapping(mapping).walk(seq![Step::Key(key)]) == Some(mapping.entries@[i].1),
        Node::Mapping(mapping).walk(seq![Step::Index(n, key)]) == Some(mapping.entries@[i].1),
{
    let entries = mapping.entries@;
    lemma_first_key(entries, key);
    assert(reads(entries[i].0, key));
    assert forall|j: int| 0 <= j < i implies !reads((#[trigger] entries[j]).0, key) by {}
    lemma_one_step(Node::Mapping(mapping), Step::Key(key));
    lemma_one_step(Node::Mapping(mapping), Step::Index(n, key));
}

/// In a mapping a step leads nowhere exactly if no key is a scalar with its text.
pub proof fn law_a_missing_key_leads_nowhere<'a>(mapping: Mapping<'a>, key: Seq<char>, n: int)
    ensures
        Node::Mapping(mapping).next(Step::Key(key)) is None <==> forall|j: int|
            0 <= j < mapping.entries@.len() ==> !((#[trigger] mapping.entries@[j]).0 matches
                Node::Scalar(s) && s.value@ == key),
        Node::Mapping(mapping).next(Step::Index(n, key)) == Node::Mapping(mapping).next(
            Step::Key(key),
        ),
{
    let entries = mapping.entries@;
    lemma_first_key(entries, key);
    if Node::Mapping(mapping).next(Step::Key(key)) is None {
        assert forall|j: int| 0 <= j < entries.len() implies !((#[trigger] entries[j]).0 matches
            Node::Scalar(s) && s.value@ == key) by {
            assert(!reads(entries[j].0, key));
        }
    } else {
        let i = Node::Mapping(mapping).next(Step::Key(key))->0;
        assert(reads(entries[i].0, key));
    }
}

/// In a sequence an index leads to the item it counts to, whatever its text, and past the
/// end nowhere; a key leads nowhere, and so does anything in a scalar.
pub proof fn law_an_index_counts_items<'a>(
    sequence: Sequence<'a>,
    scalar: Scalar<'a>,
    i: int,
    key: Seq<char>,
)
    ensures
        Node::Sequence(sequence).walk(seq![Step::Index(i, key)]) == (if 0 <= i
            < sequence.items@.len() {
            Some(sequence.items@[i])
        } else {
            None
        }),
        Node::Sequence(sequence).next(Step::Index(i, key)) == (if 0 <= i < sequence.items@.len() {
            Some(i)
        } else {
            None
        }),
        Node::Sequence(sequence).child(i) == sequence.items@[i],
        Node::Sequence(sequence).next(Step::Key(key)) is None,
        Node::Scalar(scalar).next(Step::Key(key)) is None,
        Node::Scalar(scalar).next(Step::Index(i, key)) is None,
{
    lemma_one_step(Node::Sequence(sequence), Step::Index(i, key));
}

proof fn lemma_one_step<'a>(node: Node<'a>, step: Step)
    ensures
        node.walk(seq![step]) == (match node.next(step) {
            Some(j) => Some(node.child(j)),
            None => None,
        }),
{
    let steps = seq![step];
    assert(steps.skip(1) =~= Seq::empty());
    if let Some(j) = node.next(step) {
        assert(node.child(j).walk(steps.skip(1)) == Some(node.child(j)));
    }
}

/// Steps are followed one after the other: walking two lists of steps is walking the
/// second from where the first leads. No steps at all lead to the node itself.
pub proof fn law_a_walk_goes_on_from_where_it_led<'a>(
    node: Node<'a>,
    first: Seq<Step>,
    second: Seq<Step>,
)
    ensures
        node.walk(Seq::empty()) == Some(node),
        node.walk(first + second) == (match node.walk(first) {
            Some(reached) => reached.walk(second),
            None => None,
        }),
    decreases first.len(),
{
    let steps = first + second;
    if first.len() == 0 {
        assert(steps =~= second);
    } else {
        assert(steps[0] == first[0]);
        assert(steps.skip(1) =~= first.skip(1) + second);
        if let Some(j) = node.next(first[0]) {
            law_a_walk_goes_on_from_where_it_led(node.child(j), first.skip(1), second);
        }
    }
}

/// A dot in a path goes one step further: what stands behind it is looked up in what the
/// path before it addresses.
pub proof fn law_a_path_goes_one_step_further<'a>(
    node: Node<'a>,
    path: Seq<char>,
    piece: Seq<char>,
)
    requires
        path.len() > 0,
        piece.len() > 0,
        !piece.contains('.'),
    ensures
        node.walk(crate::path::path_steps(Seq::empty())) == Some(node),
        node.walk(crate::path::path_steps(path.push('.') + piece)) == (match node.walk(
            crate::path::path_steps(path),
        ) {
            Some(reached) => reached.walk(crate::path::path_steps(piece)),
            None => None,
        }),
{
    crate::path::laws::law_a_dot_starts_a_step(path, piece);
    let before = crate::path::path_steps(path);
    let last = crate::path::path_steps(piece);
    assert(before.push(crate::path::piece_step(piece)) =~= before + last);
    law_a_walk_goes_on_from_where_it_led(node, before, last);
}

/// A path without a dot addresses the value of the first entry with that key, or the item
/// with that number.
pub proof fn law_a_path_of_one_piece<'a>(
    mapping: Mapping<'a>,
    sequence: Sequence<'a>,
    piece: Seq<char>,
    i: int,
    n: int,
)
    requires
        piece.len() > 0,
        !piece.contains('.'),
        0 <= n <= usize::MAX,
    ensures
        0 <= i < mapping.entries@.len() && (mapping.entries@[i].0 matches Node::Scalar(s)
            && s.value@ == piece) && (forall|j: int|
            0 <= j < i ==> !((#[trigger] mapping.entries@[j]).0 matches Node::Scalar(s) && s.value@
                == piece)) ==> Node::Mapping(mapping).walk(crate::path::path_steps(piece)) == Some(
            mapping.entries@[i].1,
        ),
        (forall|j: int|
            0 <= j < mapping.entries@.len() ==> !((#[trigger] mapping.entries@[j]).0 matches
                Node::Scalar(s) && s.value@ == piece)) ==> Node::Mapping(mapping).walk(
            crate::path::path_steps(piece),
        ) is None,
        Node::Sequence(sequence).walk(crate::path::path_steps(crate::text::decimal(n))) == (if n
            < sequence.items@.len() {
            Some(sequence.items@[n])
        } else {
            None
        }),
{
    crate::path::laws::law_a_dot_starts_a_step(Seq::empty(), piece);
    let step = crate::path::piece_step(piece);
    assert(crate::path::path_steps(piece) == seq![step]);
    crate::path::laws::law_a_piece_is_an_index_or_a_key(piece, 0);
    let count = match step {
        Step::Index(m, _) => m,
        _ => 0,
    };
    assert(step == Step::Key(piece) || step == Step::Index(count, piece));
    if 0 <= i < mapping.entries@.len() && (mapping.entries@[i].0 matches Node::Scalar(s) && s.value@
        == piece) && (forall|j: int|
        0 <= j < i ==> !((#[trigger] mapping.entries@[j]).0 matches Node::Scalar(s) && s.value@
            == piece)) {
        law_a_step_finds_the_first_key(mapping, piece, i, count);
    }
    law_a_missing_key_leads_nowhere(mapping, piece, count);
    lemma_one_step(Node::Mapping(mapping), step);
    let number = crate::text::decimal(n);
    lemma_decimal_has_no_dot(n);
    crate::path::laws::law_a_dot_starts_a_step(Seq::empty(), number);
    crate::path::laws::law_a_decimal_piece_is_an_index(n);
    law_an_index_counts_items(sequence, arbitrary(), n, number);
}

proof fn lemma_decimal_has_no_dot(n: int)
    requires
        0 <= n,
    ensures
        crate::text::decimal(n).len() > 0,
        !crate::text::decimal(n).contains('.'),
    decreases n,
{
    let text = crate::text::decimal(n);
    crate::schema::writing::law_decimal_text_is_base_ten(n, false);
    crate::schema::writing::law_a_run_reads_back(n, 10, false);
    if text.contains('.') {
        let k = choose|k: int| 0 <= k < text.len() && text[k] == '.';
        assert(crate::schema::digit_value(text[k]) < 10);
    }
}

// ---- searches ----------------------------------------------------------

/// An ordinary step at the front of a search moves to the one child it leads to; no steps
/// at all stay where they are.
pub proof fn law_a_search_steps_to_a_child<'a>(
    node: Node<'a>,
    step: Step,
    rest: Seq<Step>,
    place: Seq<int>,
)
    requires
        !(step is Descend),
    ensures
        node.leads_to(Seq::empty(), place) <==> place.len() == 0,
        node.leads_to(seq![step] + rest, place) <==> place.len() > 0 && node.next(step) == Some(
            place[0],
        ) && node.child(place[0]).leads_to(rest, place.skip(1)),
{
    let steps = seq![step] + rest;
    assert(steps.skip(1) =~= rest);
}

/// Below a sequence stand its items, and below a mapping its values; nothing stands below
/// a scalar.
pub proof fn law_children_are_items_and_values<'a>(
    scalar: Scalar<'a>,
    sequence: Sequence<'a>,
    mapping: Mapping<'a>,
    j: int,
    place: Seq<int>,
)
    ensures
        Node::Scalar(scalar).arity() == 0,
        Node::Sequence(sequence).arity() == sequence.items@.len(),
        Node::Mapping(mapping).arity() == mapping.entries@.len(),
        Node::Sequence(sequence).at(Seq::empty()) == Node::Sequence(sequence),
        Node::Sequence(sequence).at(seq![j] + place) == sequence.items@[j].at(place),
        Node::Mapping(mapping).at(seq![j] + place) == mapping.entries@[j].1.at(place),
{
    assert((seq![j] + place).skip(1) =~= place);
}

/// A search finds the node at every place it leads to, each once, in document order, and
/// finds nothing else.
pub proof fn law_a_search_finds_every_match<'a>(node: Node<'a>, steps: Seq<Step>) -> (found: Seq<
    Seq<int>,
>)
    ensures
        found.len() == node.matches(steps).len(),
        forall|i: int|
            0 <= i < found.len() ==> #[trigger] node.matches(steps)[i] == node.at(found[i])
                && super::laws::exists_at(node, found[i]) && node.leads_to(steps, found[i]),
        forall|i: int, j: int|
            0 <= i < j < found.len() ==> super::laws::precedes(
                #[trigger] found[i],
                #[trigger] found[j],
            ),
        forall|place: Seq<int>| #[trigger]
            super::laws::exists_at(node, place) && node.leads_to(steps, place) ==> found.contains(
                place,
            ),
{
    let chosen = |p: Seq<int>| node.leads_to(steps, p);
    let all = node.places();
    let found = all.filter(chosen);
    super::laws::law_places_are_in_document_order(node);
    lemma_filtered(all, chosen);
    assert forall|i: int| 0 <= i < found.len() implies #[trigger] node.matches(steps)[i] == node.at(
        found[i],
    ) && super::laws::exists_at(node, found[i]) && node.leads_to(steps, found[i]) by {
        assert(chosen(found[i]));
        assert(all.contains(found[i]));
    }
    assert forall|place: Seq<int>| #[trigger]
        super::laws::exists_at(node, place) && node.leads_to(
            steps,
            place,
        ) implies found.contains(place) by {
        assert(all.contains(place));
        let k = choose|k: int| 0 <= k < all.len() && all[k] == place;
        assert(chosen(all[k]));
        all.lemma_filter_contains(chosen, k);
    }
    found
}

/// Filtering keeps what it chooses, in order.
proof fn lemma_filtered(all: Seq<Seq<int>>, chosen: spec_fn(Seq<int>) -> bool)
    requires
        forall|a: int, b: int|
            0 <= a < b < all.len() ==> super::laws::precedes(#[trigger] all[a], #[trigger] all[b]),
    ensures
        forall|i: int|
            0 <= i < all.filter(chosen).len() ==> chosen(#[trigger] all.filter(chosen)[i])
                && all.contains(all.filter(chosen)[i]),
        forall|i: int, j: int|
            0 <= i < j < all.filter(chosen).len() ==> super::laws::precedes(
                #[trigger] all.filter(chosen)[i],
                #[trigger] all.filter(chosen)[j],
            ),
    decreases all.len(),
{
    reveal(Seq::filter);
    if all.len() > 0 {
        let init = all.drop_last();
        assert forall|a: int, b: int| 0 <= a < b < init.len() implies super::laws::precedes(
            #[trigger] init[a],
            #[trigger] init[b],
        ) by {
            assert(init[a] == all[a] && init[b] == all[b]);
        }
        lemma_filtered(init, chosen);
        let before = init.filter(chosen);
        let after = all.filter(chosen);
        let last = all.last();
        assert forall|i: int| 0 <= i < after.len() implies chosen(#[trigger] after[i])
            && all.contains(after[i]) by {
            if i < before.len() {
                assert(after[i] == before[i]);
                assert(init.contains(before[i]));
                let k = choose|k: int| 0 <= k < init.len() && init[k] == before[i];
                assert(all[k] == before[i]);
            } else {
                assert(after[i] == last);
                assert(all[all.len() - 1] == last);
            }
        }
        assert forall|i: int, j: int| 0 <= i < j < after.len() implies super::laws::precedes(
            #[trigger] after[i],
            #[trigger] after[j],
        ) by {
            assert(after[i] == before[i]);
            if j < before.len() {
                assert(after[j] == before[j]);
            } else {
                assert(after[j] == last);
                assert(init.contains(before[i]));
                let k = choose|k: int| 0 <= k < init.len() && init[k] == before[i];
                assert(all[k] == before[i]);
                assert(all[all.len() - 1] == last);
            }
        }
    }
}

// ---- accessors ---------------------------------------------------------

/// A scalar's text is its value, in whatever style it is written; its typed readings are
/// those of its value exactly if it is plain. A collection has neither.
pub proof fn law_accessors_read_the_value<'a>(
    scalar: Scalar<'a>,
    sequence: Sequence<'a>,
    mapping: Mapping<'a>,
)
    ensures
        Node::Scalar(scalar).text() == Some(scalar.value@),
        Node::Sequence(sequence).text() is None,
        Node::Mapping(mapping).text() is None,
        Node::Sequence(sequence).plain() is None,
        Node::Mapping(mapping).plain() is None,
        scalar.style is Plain ==> {
            &&& Node::Scalar(scalar).plain() == Some(scalar.value@)
            &&& Node::Scalar(scalar).signed() == crate::schema::int_value(scalar.value@)
            &&& Node::Scalar(scalar).unsigned() == crate::schema::uint_value(scalar.value@)
            &&& Node::Scalar(scalar).float() == crate::schema::float_value(scalar.value@)
        },
        !(scalar.style is Plain) ==> {
            &&& Node::Scalar(scalar).plain() is None
            &&& Node::Scalar(scalar).signed() is None
            &&& Node::Scalar(scalar).unsigned() is None
            &&& Node::Scalar(scalar).float() is None
        },
{
}

/// A node's span and tag are those it was made with.
pub proof fn law_spans_and_tags_are_kept<'a>(
    scalar: Scalar<'a>,
    sequence: Sequence<'a>,
    mapping: Mapping<'a>,
)
    ensures
        Node::Scalar(scalar).extent() == scalar.span,
        Node::Sequence(sequence).extent() == sequence.span,
        Node::Mapping(mapping).extent() == mapping.span,
        Node::Scalar(scalar).label() == scalar.tag,
        Node::Sequence(sequence).label() == sequence.tag,
        Node::Mapping(mapping).label() == mapping.tag,
{
}

// ---- copies ------------------------------------------------------------

/// Whether two tags say the same: both are missing, or both have the same text and the
/// same span.
pub open spec fn same_tag(left: Option<Tag<'_>>, right: Option<Tag<'_>>) -> bool {
    match (left, right) {
        (Some(l), Some(r)) => l.value@ == r.value@ && l.span == r.span,
        (None, None) => true,
        _ => false,
    }
}

/// Whether two nodes agree in every part, at every depth: in kind, text, tag, style and
/// span, in how many items or entries they have, and in each of those.
pub open spec fn agrees(left: Node<'_>, right: Node<'_>) -> bool
    decreases left,
{
    match (left, right) {
        (Node::Scalar(l), Node::Scalar(r)) => {
            &&& l.value@ == r.value@
            &&& same_tag(l.tag, r.tag)
            &&& l.style == r.style
            &&& l.span == r.span
        },
        (Node::Sequence(l), Node::Sequence(r)) => {
            &&& same_tag(l.tag, r.tag)
            &&& l.style == r.style
            &&& l.span == r.span
            &&& l.items@.len() == r.items@.len()
            &&& forall|i: int| 0 <= i < l.items@.len() ==> agrees(#[trigger] l.items@[i], r.items@[i])
        },
        (Node::Mapping(l), Node::Mapping(r)) => {
            &&& same_tag(l.tag, r.tag)
            &&& l.style == r.style
            &&& l.span == r.span
            &&& l.entries@.len() == r.entries@.len()
            &&& forall|i: int|
                #![trigger l.entries@[i]]
                0 <= i < l.entries@.len() ==> agrees(l.entries@[i].0, r.entries@[i].0) && agrees(
                    l.entries@[i].1,
                    r.entries@[i].1,
                )
        },
        _ => false,
    }
}

/// Nodes say the same exactly if they agree in every part: taking ownership of a node
/// loses and changes nothing.
pub proof fn law_content_is_every_part<'a, 'b>(left: Node<'a>, right: Node<'b>)
    ensures
        left.content() == right.content() <==> agrees(left, right),
    decreases left,
{
    match (left, right) {
        (Node::Sequence(l), Node::Sequence(r)) => {
            let a = left.content()->items;
            let b = right.content()->items;
            assert(a.len() == l.items@.len() && b.len() == r.items@.len());
            assert forall|i: int| 0 <= i < l.items@.len() && i < r.items@.len() implies (a[i]
                == b[i]) == agrees(#[trigger] l.items@[i], r.items@[i]) by {
                assert(a[i] == l.items@[i].content() && b[i] == r.items@[i].content());
                law_content_is_every_part(l.items@[i], r.items@[i]);
            }
            if agrees(left, right) {
                assert forall|i: int| 0 <= i < a.len() implies a[i] == b[i] by {
                    assert(agrees(l.items@[i], r.items@[i]));
                }
                assert(a =~= b);
            }
            if left.content() == right.content() {
                assert forall|i: int| 0 <= i < l.items@.len() implies agrees(
                    #[trigger] l.items@[i],
                    r.items@[i],
                ) by {
                    assert(a[i] == b[i]);
                }
            }
        },
        (Node::Mapping(l), Node::Mapping(r)) => {
            let a = left.content()->entries;
            let b = right.content()->entries;
            assert(a.len() == l.entries@.len() && b.len() == r.entries@.len());
            assert forall|i: int|
                #![trigger l.entries@[i]]
                0 <= i < l.entries@.len() && i < r.entries@.len() implies (a[i] == b[i]) == (agrees(
                l.entries@[i].0,
                r.entries@[i].0,
            ) && agrees(l.entries@[i].1, r.entries@[i].1)) by {
                assert(a[i] == (l.entries@[i].0.content(), l.entries@[i].1.content()));
                assert(b[i] == (r.entries@[i].0.content(), r.entries@[i].1.content()));
                assert(decreases_to!(left => l.entries@[i]));
                law_content_is_every_part(l.entries@[i].0, r.entries@[i].0);
                law_content_is_every_part(l.entries@[i].1, r.entries@[i].1);
            }
            if agrees(left, right) {
                assert forall|i: int| 0 <= i < a.len() implies a[i] == b[i] by {
                    assert(agrees(l.entries@[i].0, r.entries@[i].0));
                }
                assert(a =~= b);
            }
            if left.content() == right.content() {
                assert forall|i: int|
                    #![trigger l.entries@[i]]
                    0 <= i < l.entries@.len() implies agrees(l.entries@[i].0, r.entries@[i].0)
                    && agrees(l.entries@[i].1, r.entries@[i].1) by {
                    assert(a[i] == b[i]);
                }
            }
        },
        _ => {},
    }
}

/// A node borrows nothing exactly if none of its parts does, at any depth.
pub proof fn law_an_owned_node_owns_every_part<'a>(
    scalar: Scalar<'a>,
    sequence: Sequence<'a>,
    mapping: Mapping<'a>,
)
    ensures
        Node::Scalar(scalar).is_owned() <==> scalar.value is Owned && (scalar.tag matches Some(t)
            ==> t.value is Owned),
        Node::Sequence(sequence).is_owned() <==> (sequence.tag matches Some(t) ==> t.value is Owned)
            && forall|i: int|
            0 <= i < sequence.items@.len() ==> (#[trigger] sequence.items@[i]).is_owned(),
        Node::Mapping(mapping).is_owned() <==> (mapping.tag matches Some(t) ==> t.value is Owned)
            && forall|i: int|
            #![trigger mapping.entries@[i]]
            0 <= i < mapping.entries@.len() ==> mapping.entries@[i].0.is_owned()
                && mapping.entries@[i].1.is_owned(),
{
}

/// A copy agrees with its original in every part, and borrows what the original borrows.
pub proof fn law_a_copy_agrees_in_every_part<'a>(copy: Node<'a>, node: Node<'a>)
    requires
        copy.is_copy_of(node),
    ensures
        agrees(copy, node),
        copy.is_owned() <==> node.is_owned(),
        copy matches Node::Scalar(c) ==> node == Node::Scalar(c),
    decreases copy,
{
    match (copy, node) {
        (Node::Sequence(c), Node::Sequence(o)) => {
            assert forall|i: int| 0 <= i < c.items@.len() implies agrees(
                #[trigger] c.items@[i],
                o.items@[i],
            ) && (c.items@[i].is_owned() <==> o.items@[i].is_owned()) by {
                law_a_copy_agrees_in_every_part(c.items@[i], o.items@[i]);
            }
            if node.is_owned() {
                assert forall|i: int| 0 <= i < c.items@.len() implies (
                #[trigger] c.items@[i]).is_owned() by {
                    assert(o.items@[i].is_owned());
                }
            }
            if copy.is_owned() {
                assert forall|i: int| 0 <= i < o.items@.len() implies (
                #[trigger] o.items@[i]).is_owned() by {
                    assert(c.items@[i].is_owned());
                }
            }
        },
        (Node::Mapping(c), Node::Mapping(o)) => {
            assert forall|i: int|
                #![trigger c.entries@[i]]
                0 <= i < c.entries@.len() implies agrees(c.entries@[i].0, o.entries@[i].0)
                && agrees(c.entries@[i].1, o.entries@[i].1) && (c.entries@[i].0.is_owned()
                <==> o.entries@[i].0.is_owned()) && (c.entries@[i].1.is_owned()
                <==> o.entries@[i].1.is_owned()) by {
                assert(decreases_to!(copy => c.entries@[i]));
                law_a_copy_agrees_in_every_part(c.entries@[i].0, o.entries@[i].0);
                law_a_copy_agrees_in_every_part(c.entries@[i].1, o.entries@[i].1);
            }
            if node.is_owned() {
                assert forall|i: int|
                    #![trigger c.entries@[i]]
                    0 <= i < c.entries@.len() implies c.entries@[i].0.is_owned()
                    && c.entries@[i].1.is_owned() by {
                    assert(o.entries@[i].0.is_owned());
                }
            }
            if copy.is_owned() {
                assert forall|i: int|
                    #![trigger o.entries@[i]]
                    0 <= i < o.entries@.len() implies o.entries@[i].0.is_owned()
                    && o.entries@[i].1.is_owned() by {
                    assert(c.entries@[i].0.is_owned());
                }
            }
        },
        _ => {},
    }
}

} // verus!
