//! What paths and accessors promise as a whole.

use vstd::prelude::*;

use super::Node;
use crate::path::Step;
use crate::types::ScalarStyle;

verus! {

/// Whether a list of steps contains no descent.
pub open spec fn has_no_descent(steps: Seq<Step>) -> bool {
    forall|i: int| 0 <= i < steps.len() ==> #[trigger] steps[i] !is Descend
}

/// A path with a descent in it leads a single-result walk nowhere.
pub proof fn law_a_walk_cannot_descend(node: Node<'_>, steps: Seq<Step>, i: int)
    requires
        0 <= i < steps.len(),
        steps[i] is Descend,
    ensures
        node.walk(steps) is None,
    decreases steps.len(),
{
    if i > 0 {
        if let Some(j) = node.next(steps[0]) {
            assert(steps.skip(1)[i - 1] == steps[i]);
            law_a_walk_cannot_descend(node.child(j), steps.skip(1), i - 1);
        }
    }
}

/// A descent reaches what the rest of the path reaches from here, or from anywhere
/// below here.
pub proof fn law_descent_is_here_or_below(node: Node<'_>, rest: Seq<Step>, place: Seq<int>)
    ensures
        node.leads_to(seq![Step::Descend] + rest, place) <==> exists|k: int|
            0 <= k <= place.len() && node.at(place.take(k)).leads_to(
                rest,
                #[trigger] place.skip(k),
            ),
    decreases place.len(),
{
    let steps = seq![Step::Descend] + rest;
    assert(steps.skip(1) =~= rest);
    assert(place.take(0) =~= Seq::empty());
    assert(place.skip(0) =~= place);
    if place.len() > 0 {
        let child = node.child(place[0]);
        let tail = place.skip(1);
        law_descent_is_here_or_below(child, rest, tail);
        assert forall|k: int| 0 <= k <= tail.len() implies node.at(place.take(k + 1)) == child.at(
            #[trigger] tail.take(k),
        ) && place.skip(k + 1) == tail.skip(k) by {
            assert(place.take(k + 1).skip(1) =~= tail.take(k));
            assert(place.skip(k + 1) =~= tail.skip(k));
        }
        if child.leads_to(steps, tail) {
            let k = choose|k: int|
                0 <= k <= tail.len() && child.at(tail.take(k)).leads_to(
                    rest,
                    #[trigger] tail.skip(k),
                );
            assert(child.at(tail.take(k)) == node.at(place.take(k + 1)));
            assert(node.at(place.take(k + 1)).leads_to(rest, place.skip(k + 1)));
        }
        if exists|k: int|
            0 <= k <= place.len() && node.at(place.take(k)).leads_to(
                rest,
                #[trigger] place.skip(k),
            ) {
            let k = choose|k: int|
                0 <= k <= place.len() && node.at(place.take(k)).leads_to(
                    rest,
                    #[trigger] place.skip(k),
                );
            if k > 0 {
                assert(child.at(tail.take(k - 1)) == node.at(place.take(k)));
                assert(child.at(tail.take(k - 1)).leads_to(rest, tail.skip(k - 1)));
            }
        }
    } else {
        if node.leads_to(rest, place) {
            assert(node.at(place.take(0)).leads_to(rest, place.skip(0)));
        }
    }
}

// ---- document order ----------------------------------------------------

/// Whether a place exists below a node.
pub open spec fn exists_at(node: Node<'_>, place: Seq<int>) -> bool
    decreases place.len(),
{
    place.len() == 0 || (0 <= place[0] < node.arity() && exists_at(
        node.child(place[0]),
        place.skip(1),
    ))
}

/// Whether one place comes before another in document order: a node before what is
/// below it, and an earlier child before a later one.
pub open spec fn precedes(p: Seq<int>, q: Seq<int>) -> bool
    decreases p.len(),
{
    if p.len() == 0 {
        q.len() > 0
    } else {
        q.len() > 0 && (p[0] < q[0] || (p[0] == q[0] && precedes(p.skip(1), q.skip(1))))
    }
}

proof fn lemma_places_from(node: Node<'_>, j: int)
    requires
        0 <= j <= node.arity(),
    ensures
        forall|a: int, b: int|
            0 <= a < b < node.places_from(j).len() ==> precedes(
                #[trigger] node.places_from(j)[a],
                #[trigger] node.places_from(j)[b],
            ),
        forall|a: int|
            0 <= a < node.places_from(j).len() ==> (#[trigger] node.places_from(j)[a]).len() > 0
                && node.places_from(j)[a][0] >= j && exists_at(node, node.places_from(j)[a]),
        forall|p: Seq<int>|
            p.len() > 0 && p[0] >= j && #[trigger] exists_at(node, p)
                ==> node.places_from(j).contains(p),
    decreases node, node.arity() - j, 0int,
{
    let all = node.places_from(j);
    if j < node.arity() {
        let child = node.child(j);
        assert(decreases_to!(node => child)) by {
            match node {
                Node::Scalar(_) => {},
                Node::Sequence(s) => {
                    assert(decreases_to!(s.items@ => s.items@[j]));
                },
                Node::Mapping(m) => {
                    assert(decreases_to!(m.entries@ => m.entries@[j]));
                },
            }
        }
        lemma_places(child);
        lemma_places_from(node, j + 1);
        let inner = child.places();
        let first = super::under(j, inner);
        let later = node.places_from(j + 1);
        assert(all == first + later);
        assert forall|a: int| 0 <= a < first.len() implies (#[trigger] first[a]).len() > 0
            && first[a][0] == j && first[a].skip(1) == inner[a] by {
            assert(first[a] == seq![j] + inner[a]);
            assert(first[a].skip(1) =~= inner[a]);
        }
        assert forall|a: int| 0 <= a < all.len() implies (#[trigger] all[a]).len() > 0
            && all[a][0] >= j && exists_at(node, all[a]) by {
            if a < first.len() {
                assert(all[a] == first[a]);
                assert(exists_at(child, inner[a]));
            } else {
                assert(all[a] == later[a - first.len()]);
            }
        }
        assert forall|a: int, b: int| 0 <= a < b < all.len() implies precedes(
            #[trigger] all[a],
            #[trigger] all[b],
        ) by {
            if b < first.len() {
                assert(all[a] == first[a] && all[b] == first[b]);
                assert(precedes(inner[a], inner[b]));
            } else if a >= first.len() {
                assert(all[a] == later[a - first.len()] && all[b] == later[b - first.len()]);
            } else {
                assert(all[a] == first[a] && all[b] == later[b - first.len()]);
                assert(all[b][0] >= j + 1);
            }
        }
        assert forall|p: Seq<int>|
            p.len() > 0 && p[0] >= j && #[trigger] exists_at(node, p) implies all.contains(p) by {
            if p[0] == j {
                assert(exists_at(child, p.skip(1)));
                let a = choose|a: int| 0 <= a < inner.len() && inner[a] == p.skip(1);
                assert(first[a] =~= p);
                assert(all[a] == p);
            } else {
                let a = choose|a: int| 0 <= a < later.len() && later[a] == p;
                assert(all[first.len() + a] == p);
            }
        }
    } else {
        assert(all =~= Seq::empty());
    }
}

proof fn lemma_places(node: Node<'_>)
    ensures
        forall|a: int, b: int|
            0 <= a < b < node.places().len() ==> precedes(
                #[trigger] node.places()[a],
                #[trigger] node.places()[b],
            ),
        forall|a: int|
            0 <= a < node.places().len() ==> exists_at(node, #[trigger] node.places()[a]),
        forall|p: Seq<int>| #[trigger] exists_at(node, p) ==> node.places().contains(p),
    decreases node, node.arity(), 1int,
{
    lemma_places_from(node, 0);
    let below = node.places_from(0);
    let all = node.places();
    assert(all == seq![Seq::<int>::empty()] + below);
    assert forall|a: int, b: int| 0 <= a < b < all.len() implies precedes(
        #[trigger] all[a],
        #[trigger] all[b],
    ) by {
        assert(all[b] == below[b - 1]);
        if a > 0 {
            assert(all[a] == below[a - 1]);
        }
    }
    assert forall|a: int| 0 <= a < all.len() implies exists_at(node, #[trigger] all[a]) by {
        if a > 0 {
            assert(all[a] == below[a - 1]);
        }
    }
    assert forall|p: Seq<int>| #[trigger] exists_at(node, p) implies all.contains(p) by {
        if p.len() == 0 {
            assert(p =~= Seq::empty());
            assert(all[0] == p);
        } else {
            let a = choose|a: int| 0 <= a < below.len() && below[a] == p;
            assert(all[a + 1] == p);
        }
    }
}

/// The places of a node are all the places there are, each once, in document order.
pub proof fn law_places_are_in_document_order(node: Node<'_>)
    ensures
        forall|a: int, b: int|
            0 <= a < b < node.places().len() ==> precedes(
                #[trigger] node.places()[a],
                #[trigger] node.places()[b],
            ),
        forall|p: Seq<int>| node.places().contains(p) <==> #[trigger] exists_at(node, p),
{
    lemma_places(node);
}

// ---- quoting -----------------------------------------------------------

/// Quoting makes text: no typed accessor resolves a quoted scalar, nor a collection.
pub proof fn law_only_plain_scalars_resolve(node: Node<'_>)
    requires
        node matches Node::Scalar(s) ==> s.style != ScalarStyle::Plain,
    ensures
        node.plain() is None,
        node.signed() is None,
        node.unsigned() is None,
        node.float() is None,
{
}

// ---- ownership ---------------------------------------------------------

proof fn lemma_same_first_key<'a, 'b>(
    left: Seq<(Node<'a>, Node<'a>)>,
    right: Seq<(Node<'b>, Node<'b>)>,
    key: Seq<char>,
)
    requires
        left.len() == right.len(),
        forall|i: int|
            #![trigger left[i]]
            0 <= i < left.len() ==> left[i].0.content() == right[i].0.content(),
    ensures
        super::first_key(left, key) == super::first_key(right, key),
    decreases left.len(),
{
    if left.len() > 0 {
        assert(left[0].0.content() == right[0].0.content());
        let l = left.skip(1);
        let r = right.skip(1);
        assert forall|i: int|
            #![trigger l[i]]
            0 <= i < l.len() implies l[i].0.content() == r[i].0.content() by {
            assert(l[i] == left[i + 1]);
            assert(r[i] == right[i + 1]);
        }
        lemma_same_first_key(l, r, key);
    }
}

proof fn lemma_same_next<'a, 'b>(left: Node<'a>, right: Node<'b>, step: Step)
    requires
        left.content() == right.content(),
    ensures
        left.next(step) == right.next(step),
        left.next(step) matches Some(j) ==> left.child(j).content() == right.child(j).content(),
{
    match (left, right) {
        (Node::Sequence(a), Node::Sequence(b)) => {
            let x = left.content()->items;
            assert(x.len() == a.items@.len());
            if let Some(j) = left.next(step) {
                assert(x[j] == a.items@[j].content());
                assert(right.content()->items[j] == b.items@[j].content());
            }
        },
        (Node::Mapping(a), Node::Mapping(b)) => {
            let x = left.content()->entries;
            let y = right.content()->entries;
            assert(x.len() == a.entries@.len());
            assert(y.len() == b.entries@.len());
            assert forall|i: int|
                #![trigger a.entries@[i]]
                0 <= i < a.entries@.len() implies a.entries@[i].0.content()
                == b.entries@[i].0.content() && a.entries@[i].1.content()
                == b.entries@[i].1.content() by {
                assert(x[i] == (a.entries@[i].0.content(), a.entries@[i].1.content()));
                assert(y[i] == (b.entries@[i].0.content(), b.entries@[i].1.content()));
            }
            if let Some(key) = step.key() {
                lemma_same_first_key(a.entries@, b.entries@, key);
                lemma_first_key_bounds(a.entries@, key);
                if let Some(j) = left.next(step) {
                    assert(a.entries@[j].1.content() == b.entries@[j].1.content());
                }
            }
        },
        _ => {},
    }
}

pub proof fn lemma_first_key_bounds(entries: Seq<(Node<'_>, Node<'_>)>, key: Seq<char>)
    ensures
        super::first_key(entries, key) matches Some(j) ==> 0 <= j < entries.len(),
    decreases entries.len(),
{
    if entries.len() > 0 {
        lemma_first_key_bounds(entries.skip(1), key);
    }
}

/// Taking ownership changes no answer: nodes that say the same lead every path to
/// nodes that say the same.
pub proof fn law_content_decides_paths<'a, 'b>(left: Node<'a>, right: Node<'b>, steps: Seq<Step>)
    requires
        left.content() == right.content(),
    ensures
        match left.walk(steps) {
            Some(n) => right.walk(steps) matches Some(m) && m.content() == n.content(),
            None => right.walk(steps) is None,
        },
    decreases steps.len(),
{
    if steps.len() > 0 {
        lemma_same_next(left, right, steps[0]);
        if let Some(j) = left.next(steps[0]) {
            law_content_decides_paths(left.child(j), right.child(j), steps.skip(1));
        }
    }
}

proof fn lemma_same_children<'a, 'b>(left: Node<'a>, right: Node<'b>)
    requires
        left.content() == right.content(),
    ensures
        left.arity() == right.arity(),
        forall|j: int|
            #![trigger left.child(j)]
            #![trigger right.child(j)]
            0 <= j < left.arity() ==> left.child(j).content() == right.child(j).content(),
{
    match (left, right) {
        (Node::Sequence(a), Node::Sequence(b)) => {
            let x = left.content()->items;
            let y = right.content()->items;
            assert(x.len() == a.items@.len() && y.len() == b.items@.len());
            assert forall|j: int|
                #![trigger left.child(j)]
                #![trigger right.child(j)]
                0 <= j < left.arity() implies left.child(j).content()
                == right.child(j).content() by {
                assert(x[j] == a.items@[j].content() && y[j] == b.items@[j].content());
            }
        },
        (Node::Mapping(a), Node::Mapping(b)) => {
            let x = left.content()->entries;
            let y = right.content()->entries;
            assert(x.len() == a.entries@.len() && y.len() == b.entries@.len());
            assert forall|j: int|
                #![trigger left.child(j)]
                #![trigger right.child(j)]
                0 <= j < left.arity() implies left.child(j).content()
                == right.child(j).content() by {
                assert(x[j] == (a.entries@[j].0.content(), a.entries@[j].1.content()));
                assert(y[j] == (b.entries@[j].0.content(), b.entries@[j].1.content()));
            }
        },
        _ => {},
    }
}

proof fn lemma_same_places<'a, 'b>(left: Node<'a>, right: Node<'b>)
    requires
        left.content() == right.content(),
    ensures
        left.places() == right.places(),
    decreases left, left.arity() + 1,
{
    lemma_same_places_from(left, right, 0);
}

proof fn lemma_same_places_from<'a, 'b>(left: Node<'a>, right: Node<'b>, j: int)
    requires
        left.content() == right.content(),
        0 <= j,
    ensures
        left.places_from(j) == right.places_from(j),
    decreases left, left.arity() - j,
{
    lemma_same_children(left, right);
    if j < left.arity() {
        let child = left.child(j);
        assert(decreases_to!(left => child)) by {
            match left {
                Node::Scalar(_) => {},
                Node::Sequence(s) => {
                    assert(decreases_to!(s.items@ => s.items@[j]));
                },
                Node::Mapping(m) => {
                    assert(decreases_to!(m.entries@ => m.entries@[j]));
                },
            }
        }
        lemma_same_places(child, right.child(j));
        lemma_same_places_from(left, right, j + 1);
    }
}

/// Nodes that say the same have nodes that say the same at every place, and the same
/// steps lead there.
proof fn lemma_same_at<'a, 'b>(
    left: Node<'a>,
    right: Node<'b>,
    steps: Seq<Step>,
    place: Seq<int>,
)
    requires
        left.content() == right.content(),
        exists_at(left, place),
    ensures
        left.at(place).content() == right.at(place).content(),
        left.leads_to(steps, place) == right.leads_to(steps, place),
    decreases steps.len() + place.len(),
{
    lemma_same_children(left, right);
    if place.len() > 0 {
        let j = place[0];
        lemma_same_at(left.child(j), right.child(j), steps, place.skip(1));
        if steps.len() > 0 {
            lemma_same_at(left.child(j), right.child(j), steps.skip(1), place.skip(1));
        }
    }
    if steps.len() > 0 {
        lemma_same_next(left, right, steps[0]);
        lemma_same_at(left, right, steps.skip(1), place);
    }
}

/// The places among these that a list of steps leads to.
spec fn selected(node: Node<'_>, steps: Seq<Step>, places: Seq<Seq<int>>) -> Seq<Seq<int>> {
    places.filter(|p: Seq<int>| node.leads_to(steps, p))
}

proof fn lemma_same_selection<'a, 'b>(
    left: Node<'a>,
    right: Node<'b>,
    steps: Seq<Step>,
    places: Seq<Seq<int>>,
)
    requires
        left.content() == right.content(),
        forall|i: int| 0 <= i < places.len() ==> exists_at(left, #[trigger] places[i]),
    ensures
        selected(left, steps, places) == selected(right, steps, places),
        forall|i: int|
            0 <= i < selected(left, steps, places).len() ==> exists_at(
                left,
                #[trigger] selected(left, steps, places)[i],
            ),
    decreases places.len(),
{
    reveal(Seq::filter);
    if places.len() > 0 {
        let last = places.last();
        assert(exists_at(left, places[places.len() - 1]));
        lemma_same_at(left, right, steps, last);
        lemma_same_selection(left, right, steps, places.drop_last());
    }
}

/// Taking ownership changes no answer: a search finds equally many nodes in nodes that
/// say the same, and the ones it finds say the same, one by one.
pub proof fn law_content_decides_matches<'a, 'b>(
    left: Node<'a>,
    right: Node<'b>,
    steps: Seq<Step>,
)
    requires
        left.content() == right.content(),
    ensures
        left.matches(steps).len() == right.matches(steps).len(),
        forall|i: int|
            #![trigger left.matches(steps)[i]]
            #![trigger right.matches(steps)[i]]
            0 <= i < left.matches(steps).len() ==> left.matches(steps)[i].content()
                == right.matches(steps)[i].content(),
{
    lemma_same_places(left, right);
    lemma_places(left);
    let places = left.places();
    lemma_same_selection(left, right, steps, places);
    let found = selected(left, steps, places);
    assert forall|i: int|
        #![trigger left.matches(steps)[i]]
        #![trigger right.matches(steps)[i]]
        0 <= i < left.matches(steps).len() implies left.matches(steps)[i].content()
        == right.matches(steps)[i].content() by {
        assert(exists_at(left, found[i]));
        lemma_same_at(left, right, steps, found[i]);
    }
}

} // verus!
