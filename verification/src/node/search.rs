//! Finding every node that a path matches.
//!
//! A search visits the tree once, in document order. What it carries is, for each
//! number `i`, whether the steps from the `i`th on are still to be followed from the
//! node at hand: whether the `i`th tail of the path is open there.

use vstd::prelude::*;

use super::Node;
use crate::path::{parse_path, Segment, Step};

verus! {

/// Whether one of the open tails of `steps` leads from `node` to `place`.
spec fn reaches(node: Node<'_>, steps: Seq<Step>, open: Seq<bool>, place: Seq<int>) -> bool {
    exists|i: int|
        0 <= i < open.len() && #[trigger] open[i] && node.leads_to(steps.skip(i), place)
}

/// A descent may stop where it starts: its tail is open only with the next one.
spec fn is_closed(steps: Seq<Step>, open: Seq<bool>) -> bool {
    &&& open.len() == steps.len() + 1
    &&& forall|i: int|
        0 <= i < steps.len() && #[trigger] open[i] && steps[i] is Descend ==> open[i + 1]
}

/// Whether the `i`th tail is open in the `j`th child of `node`.
spec fn carries(node: Node<'_>, steps: Seq<Step>, open: Seq<bool>, j: int, i: int) -> bool
    decreases i,
{
    ||| 0 <= i < steps.len() && open[i] && steps[i] is Descend
    ||| 0 < i <= steps.len() && open[i - 1] && node.next(steps[i - 1]) == Some(j)
    ||| 0 < i <= steps.len() && steps[i - 1] is Descend && carries(node, steps, open, j, i - 1)
}

/// The tails that are open in the `j`th child of `node`.
spec fn carried(node: Node<'_>, steps: Seq<Step>, open: Seq<bool>, j: int) -> Seq<bool> {
    Seq::new(steps.len() + 1, |i: int| carries(node, steps, open, j, i))
}

/// The nodes at those of `places` that an open tail leads to.
spec fn select<'a>(
    node: Node<'a>,
    places: Seq<Seq<int>>,
    steps: Seq<Step>,
    open: Seq<bool>,
) -> Seq<Node<'a>>
    decreases places.len(),
{
    if places.len() == 0 {
        Seq::empty()
    } else {
        let before = select(node, places.drop_last(), steps, open);
        if reaches(node, steps, open, places.last()) {
            before.push(node.at(places.last()))
        } else {
            before
        }
    }
}

proof fn lemma_carried_is_closed(node: Node<'_>, steps: Seq<Step>, open: Seq<bool>, j: int)
    ensures
        is_closed(steps, carried(node, steps, open, j)),
{
}

/// Following an open tail into a child is following a carried tail from there.
proof fn lemma_carried_reaches(
    node: Node<'_>,
    steps: Seq<Step>,
    open: Seq<bool>,
    j: int,
    place: Seq<int>,
)
    requires
        is_closed(steps, open),
    ensures
        reaches(node, steps, open, seq![j] + place) <==> reaches(
            node.child(j),
            steps,
            carried(node, steps, open, j),
            place,
        ),
{
    let next = carried(node, steps, open, j);
    let long = seq![j] + place;
    assert(long.skip(1) =~= place);
    if reaches(node, steps, open, long) {
        let i = choose|i: int|
            0 <= i < open.len() && #[trigger] open[i] && node.leads_to(steps.skip(i), long);
        lemma_into_child(node, steps, open, j, place, i);
    }
    if reaches(node.child(j), steps, next, place) {
        let i = choose|i: int|
            0 <= i < next.len() && #[trigger] next[i] && node.child(j).leads_to(
                steps.skip(i),
                place,
            );
        lemma_out_of_child(node, steps, open, j, place, i);
    }
}

proof fn lemma_into_child(
    node: Node<'_>,
    steps: Seq<Step>,
    open: Seq<bool>,
    j: int,
    place: Seq<int>,
    i: int,
)
    requires
        is_closed(steps, open),
        0 <= i < open.len(),
        open[i],
        node.leads_to(steps.skip(i), seq![j] + place),
    ensures
        reaches(node.child(j), steps, carried(node, steps, open, j), place),
    decreases steps.len() - i,
{
    let next = carried(node, steps, open, j);
    let long = seq![j] + place;
    assert(long.skip(1) =~= place);
    assert(long[0] == j);
    assert(i < steps.len());
    assert(steps.skip(i)[0] == steps[i]);
    assert(steps.skip(i).skip(1) =~= steps.skip(i + 1));
    if steps[i] is Descend {
        if node.leads_to(steps.skip(i + 1), long) {
            lemma_into_child(node, steps, open, j, place, i + 1);
        } else {
            assert(next[i]);
        }
    } else {
        assert(next[i + 1]);
    }
}

proof fn lemma_out_of_child(
    node: Node<'_>,
    steps: Seq<Step>,
    open: Seq<bool>,
    j: int,
    place: Seq<int>,
    i: int,
)
    requires
        is_closed(steps, open),
        0 <= i <= steps.len(),
        carries(node, steps, open, j, i),
        node.child(j).leads_to(steps.skip(i), place),
    ensures
        reaches(node, steps, open, seq![j] + place),
    decreases i,
{
    let long = seq![j] + place;
    assert(long.skip(1) =~= place);
    assert(long[0] == j);
    if i < steps.len() && open[i] && steps[i] is Descend {
        assert(steps.skip(i)[0] == steps[i]);
        assert(node.leads_to(steps.skip(i), long));
    } else {
        assert(steps.skip(i - 1)[0] == steps[i - 1]);
        assert(steps.skip(i - 1).skip(1) =~= steps.skip(i));
        if open[i - 1] && node.next(steps[i - 1]) == Some(j) {
            assert(node.leads_to(steps.skip(i - 1), long));
        } else {
            assert(node.child(j).leads_to(steps.skip(i - 1), place));
            lemma_out_of_child(node, steps, open, j, place, i - 1);
        }
    }
}

/// The node itself is reached exactly when the empty tail is open.
proof fn lemma_reaches_here(node: Node<'_>, steps: Seq<Step>, open: Seq<bool>)
    requires
        is_closed(steps, open),
    ensures
        reaches(node, steps, open, Seq::empty()) <==> open[steps.len() as int],
{
    let here = Seq::<int>::empty();
    if open[steps.len() as int] {
        assert(node.leads_to(steps.skip(steps.len() as int), here));
    }
    if reaches(node, steps, open, here) {
        let i = choose|i: int|
            0 <= i < open.len() && #[trigger] open[i] && node.leads_to(steps.skip(i), here);
        lemma_stops_here(node, steps, open, i);
    }
}

proof fn lemma_stops_here(node: Node<'_>, steps: Seq<Step>, open: Seq<bool>, i: int)
    requires
        is_closed(steps, open),
        0 <= i < open.len(),
        open[i],
        node.leads_to(steps.skip(i), Seq::empty()),
    ensures
        open[steps.len() as int],
    decreases steps.len() - i,
{
    if i < steps.len() {
        assert(steps.skip(i)[0] == steps[i]);
        assert(steps.skip(i).skip(1) =~= steps.skip(i + 1));
        lemma_stops_here(node, steps, open, i + 1);
    }
}

proof fn lemma_select_add(
    node: Node<'_>,
    left: Seq<Seq<int>>,
    right: Seq<Seq<int>>,
    steps: Seq<Step>,
    open: Seq<bool>,
)
    ensures
        select(node, left + right, steps, open) == select(node, left, steps, open) + select(
            node,
            right,
            steps,
            open,
        ),
    decreases right.len(),
{
    if right.len() == 0 {
        assert(left + right =~= left);
        assert(select(node, left, steps, open) + Seq::<Node<'_>>::empty() =~= select(
            node,
            left,
            steps,
            open,
        ));
    } else {
        lemma_select_add(node, left, right.drop_last(), steps, open);
        assert((left + right).drop_last() =~= left + right.drop_last());
        assert(select(node, left + right, steps, open) =~= select(node, left, steps, open) + select(
            node,
            right,
            steps,
            open,
        ));
    }
}

proof fn lemma_select_under(
    node: Node<'_>,
    places: Seq<Seq<int>>,
    steps: Seq<Step>,
    open: Seq<bool>,
    j: int,
)
    requires
        is_closed(steps, open),
    ensures
        select(node, super::under(j, places), steps, open) == select(
            node.child(j),
            places,
            steps,
            carried(node, steps, open, j),
        ),
    decreases places.len(),
{
    if places.len() > 0 {
        lemma_select_under(node, places.drop_last(), steps, open, j);
        assert(super::under(j, places).drop_last() =~= super::under(j, places.drop_last()));
        let last = places.last();
        assert(super::under(j, places).last() == seq![j] + last);
        assert((seq![j] + last).skip(1) =~= last);
        assert((seq![j] + last)[0] == j);
        lemma_carried_reaches(node, steps, open, j, last);
    }
}

/// What a search finds at or below a node: the node itself if the empty tail is
/// open, then what it finds below each child in turn.
proof fn lemma_select_node(node: Node<'_>, steps: Seq<Step>, open: Seq<bool>)
    requires
        is_closed(steps, open),
    ensures
        select(node, node.places(), steps, open) == (if open[steps.len() as int] {
            seq![node]
        } else {
            Seq::empty()
        }) + select(node, node.places_from(0), steps, open),
{
    let here = seq![Seq::<int>::empty()];
    lemma_select_add(node, here, node.places_from(0), steps, open);
    lemma_reaches_here(node, steps, open);
    assert(here.drop_last() =~= Seq::empty());
    assert(here.last() == Seq::<int>::empty());
    assert(select(node, here.drop_last(), steps, open) =~= Seq::empty());
    assert(select(node, here, steps, open) =~= (if open[steps.len() as int] {
        seq![node]
    } else {
        Seq::empty()
    }));
}

proof fn lemma_select_from(node: Node<'_>, steps: Seq<Step>, open: Seq<bool>, j: int)
    requires
        is_closed(steps, open),
        0 <= j < node.arity(),
    ensures
        select(node, node.places_from(j), steps, open) == select(
            node.child(j),
            node.child(j).places(),
            steps,
            carried(node, steps, open, j),
        ) + select(node, node.places_from(j + 1), steps, open),
{
    lemma_select_add(
        node,
        super::under(j, node.child(j).places()),
        node.places_from(j + 1),
        steps,
        open,
    );
    lemma_select_under(node, node.child(j).places(), steps, open, j);
}

/// Nothing is found once no tail is open.
proof fn lemma_select_nothing(
    node: Node<'_>,
    places: Seq<Seq<int>>,
    steps: Seq<Step>,
    open: Seq<bool>,
)
    requires
        forall|i: int| 0 <= i < open.len() ==> !#[trigger] open[i],
    ensures
        select(node, places, steps, open) == Seq::<Node<'_>>::empty(),
    decreases places.len(),
{
    if places.len() > 0 {
        lemma_select_nothing(node, places.drop_last(), steps, open);
    }
}

/// Tails opened by following descents only are no more than the path itself.
proof fn lemma_start(node: Node<'_>, steps: Seq<Step>, open: Seq<bool>, place: Seq<int>)
    requires
        is_start(steps, open),
    ensures
        reaches(node, steps, open, place) <==> node.leads_to(steps, place),
{
    assert(steps.skip(0) =~= steps);
    if node.leads_to(steps, place) {
        assert(open[0]);
    }
    if reaches(node, steps, open, place) {
        let i = choose|i: int|
            0 <= i < open.len() && #[trigger] open[i] && node.leads_to(steps.skip(i), place);
        lemma_start_tail(node, steps, open, place, i);
    }
}

/// The first tail is open, and another one only behind an open descent.
spec fn is_start(steps: Seq<Step>, open: Seq<bool>) -> bool {
    &&& open.len() == steps.len() + 1
    &&& open[0]
    &&& forall|i: int|
        0 < i <= steps.len() && #[trigger] open[i] ==> open[i - 1] && steps[i - 1] is Descend
}

proof fn lemma_start_tail(
    node: Node<'_>,
    steps: Seq<Step>,
    open: Seq<bool>,
    place: Seq<int>,
    i: int,
)
    requires
        is_start(steps, open),
        0 <= i < open.len(),
        open[i],
        node.leads_to(steps.skip(i), place),
    ensures
        node.leads_to(steps, place),
    decreases i,
{
    if i == 0 {
        assert(steps.skip(0) =~= steps);
    } else {
        assert(steps.skip(i - 1)[0] == steps[i - 1]);
        assert(steps.skip(i - 1).skip(1) =~= steps.skip(i));
        lemma_start_tail(node, steps, open, place, i - 1);
    }
}

/// From those tails the search finds exactly what the path leads to.
proof fn lemma_select_matches(
    node: Node<'_>,
    places: Seq<Seq<int>>,
    steps: Seq<Step>,
    open: Seq<bool>,
)
    requires
        is_start(steps, open),
    ensures
        select(node, places, steps, open) == places.filter(
            |p: Seq<int>| node.leads_to(steps, p),
        ).map_values(|p: Seq<int>| node.at(p)),
    decreases places.len(),
{
    reveal(Seq::filter);
    let leads = |p: Seq<int>| node.leads_to(steps, p);
    let at = |p: Seq<int>| node.at(p);
    if places.len() > 0 {
        lemma_select_matches(node, places.drop_last(), steps, open);
        lemma_start(node, steps, open, places.last());
        let before = places.drop_last().filter(leads);
        assert(before.push(places.last()).map_values(at) =~= before.map_values(at).push(
            at(places.last()),
        ));
    } else {
        assert(places.filter(leads).map_values(at) =~= Seq::empty());
    }
}

/// What a worklist still has to find; its last entry comes first.
spec fn pending<'n, 'a>(stack: Seq<(&'n Node<'a>, Vec<bool>)>, steps: Seq<Step>) -> Seq<Node<'a>>
    decreases stack.len(),
{
    if stack.len() == 0 {
        Seq::empty()
    } else {
        let node = *stack.last().0;
        select(node, node.places(), steps, stack.last().1@) + pending(stack.drop_last(), steps)
    }
}

/// How many nodes a worklist still has to visit at most.
spec fn weight<'n, 'a>(stack: Seq<(&'n Node<'a>, Vec<bool>)>) -> nat
    decreases stack.len(),
{
    if stack.len() == 0 {
        0
    } else {
        weight(stack.drop_last()) + stack.last().0.places().len()
    }
}

/// Whether every entry of a worklist carries closed tails.
spec fn all_closed<'n, 'a>(stack: Seq<(&'n Node<'a>, Vec<bool>)>, steps: Seq<Step>) -> bool {
    forall|k: int| 0 <= k < stack.len() ==> is_closed(steps, #[trigger] stack[k].1@)
}

/// Whether two optional numbers are the same.
spec fn same_number(found: Option<usize>, number: Option<int>) -> bool {
    match number {
        Some(j) => found matches Some(n) && n == j,
        None => found is None,
    }
}

/// Opens the path itself, and what follows the descents it starts with.
fn open_start(segments: &Vec<Segment<'_>>) -> (open: Vec<bool>)
    ensures
        is_start(crate::path::steps_of(segments@), open@),
        is_closed(crate::path::steps_of(segments@), open@),
{
    let ghost steps = crate::path::steps_of(segments@);
    let mut open: Vec<bool> = Vec::new();
    open.push(true);
    let mut i: usize = 0;
    while i < segments.len()
        invariant
            i <= segments@.len(),
            steps == crate::path::steps_of(segments@),
            open@.len() == i + 1,
            open@[0],
            forall|k: int|
                0 < k <= i && #[trigger] open@[k] ==> open@[k - 1] && steps[k - 1] is Descend,
            forall|k: int|
                0 <= k < i && #[trigger] open@[k] && steps[k] is Descend ==> open@[k + 1],
        decreases segments@.len() - i,
    {
        let descends = match segments[i] {
            Segment::Descend => true,
            _ => false,
        };
        assert(steps[i as int] == segments@[i as int]@);
        let next = open[i] && descends;
        open.push(next);
        i = i + 1;
    }
    open
}

impl<'a> Node<'a> {
    /// For each open tail, the number of the child that its first step leads to.
    fn targets(&self, segments: &Vec<Segment<'_>>, open: &Vec<bool>) -> (targets: Vec<
        Option<usize>,
    >)
        requires
            open@.len() == segments@.len() + 1,
        ensures
            targets@.len() == segments@.len(),
            forall|i: int|
                0 <= i < segments@.len() && open@[i] ==> same_number(
                    #[trigger] targets@[i],
                    self.next(segments@[i]@),
                ),
    {
        let mut targets: Vec<Option<usize>> = Vec::new();
        let mut i: usize = 0;
        while i < segments.len()
            invariant
                i <= segments@.len(),
                targets@.len() == i,
                open@.len() == segments@.len() + 1,
                forall|k: int|
                    0 <= k < i && open@[k] ==> same_number(
                        #[trigger] targets@[k],
                        self.next(segments@[k]@),
                    ),
            decreases segments@.len() - i,
        {
            if open[i] {
                targets.push(self.step_number(segments[i]));
            } else {
                targets.push(None);
            }
            i = i + 1;
        }
        targets
    }

    /// The tails that are open in the `j`th child, and whether there are any.
    fn carry(
        &self,
        segments: &Vec<Segment<'_>>,
        open: &Vec<bool>,
        targets: &Vec<Option<usize>>,
        j: usize,
    ) -> (result: (Vec<bool>, bool))
        requires
            open@.len() == segments@.len() + 1,
            targets@.len() == segments@.len(),
            forall|i: int|
                0 <= i < segments@.len() && open@[i] ==> same_number(
                    #[trigger] targets@[i],
                    self.next(segments@[i]@),
                ),
        ensures
            result.0@ == carried(*self, crate::path::steps_of(segments@), open@, j as int),
            result.1 <==> exists|i: int| 0 <= i < result.0@.len() && #[trigger] result.0@[i],
    {
        let ghost steps = crate::path::steps_of(segments@);
        let mut next: Vec<bool> = Vec::new();
        let mut any = false;
        let mut arrives = false;
        let mut i: usize = 0;
        while i < open.len()
            invariant
                i <= open@.len(),
                steps == crate::path::steps_of(segments@),
                open@.len() == segments@.len() + 1,
                targets@.len() == segments@.len(),
                forall|k: int|
                    0 <= k < segments@.len() && open@[k] ==> same_number(
                        #[trigger] targets@[k],
                        self.next(segments@[k]@),
                    ),
                next@.len() == i,
                forall|k: int|
                    0 <= k < i ==> #[trigger] next@[k] == carries(
                        *self,
                        steps,
                        open@,
                        j as int,
                        k,
                    ),
                any <==> exists|k: int| 0 <= k < i && #[trigger] next@[k],
                i <= segments@.len() ==> (arrives <==> 0 < i && (open@[i - 1] && self.next(
                    steps[i - 1],
                ) == Some(j as int) || steps[i - 1] is Descend && next@[i - 1])),
            decreases open@.len() - i,
        {
            let ghost before = next@;
            let mut live = arrives;
            arrives = false;
            if i < segments.len() {
                assert(steps[i as int] == segments@[i as int]@);
                let descends = match segments[i] {
                    Segment::Descend => true,
                    _ => false,
                };
                if descends {
                    live = live || open[i];
                    arrives = live;
                } else if open[i] {
                    assert(same_number(targets@[i as int], self.next(segments@[i as int]@)));
                    arrives = match targets[i] {
                        Some(n) => n == j,
                        None => false,
                    };
                }
            }
            next.push(live);
            assert(next@[i as int] == live);
            assert forall|k: int| 0 <= k < i implies next@[k] == before[k] by {}
            if live {
                any = true;
            }
            i = i + 1;
        }
        assert(next@ =~= carried(*self, steps, open@, j as int));
        (next, any)
    }

    /// Adds this node's children to a worklist, the first one last.
    fn push_children<'n>(
        &'n self,
        segments: &Vec<Segment<'_>>,
        open: &Vec<bool>,
        stack: &mut Vec<(&'n Node<'a>, Vec<bool>)>,
    )
        requires
            is_closed(crate::path::steps_of(segments@), open@),
            all_closed(old(stack)@, crate::path::steps_of(segments@)),
        ensures
            all_closed(final(stack)@, crate::path::steps_of(segments@)),
            pending(final(stack)@, crate::path::steps_of(segments@)) == select(
                *self,
                self.places_from(0),
                crate::path::steps_of(segments@),
                open@,
            ) + pending(old(stack)@, crate::path::steps_of(segments@)),
            weight(final(stack)@) <= self.places_from(0).len() + weight(old(stack)@),
    {
        let ghost steps = crate::path::steps_of(segments@);
        let ghost rest = stack@;
        let targets = self.targets(segments, open);
        let mut j: usize = match self {
            Node::Scalar(_) => 0,
            Node::Sequence(s) => s.items.len(),
            Node::Mapping(m) => m.entries.len(),
        };
        assert(select(*self, self.places_from(j as int), steps, open@) + pending(rest, steps)
            =~= pending(rest, steps));
        while j > 0
            invariant
                j <= self.arity(),
                steps == crate::path::steps_of(segments@),
                is_closed(steps, open@),
                targets@.len() == segments@.len(),
                forall|i: int|
                    0 <= i < segments@.len() && open@[i] ==> same_number(
                        #[trigger] targets@[i],
                        self.next(segments@[i]@),
                    ),
                all_closed(stack@, steps),
                pending(stack@, steps) == select(*self, self.places_from(j as int), steps, open@)
                    + pending(rest, steps),
                weight(stack@) <= self.places_from(j as int).len() + weight(rest),
            decreases j,
        {
            j = j - 1;
            let ghost before = stack@;
            let child = self.child_ref(j);
            let (next, any) = self.carry(segments, open, &targets, j);
            proof {
                lemma_carried_is_closed(*self, steps, open@, j as int);
                lemma_select_from(*self, steps, open@, j as int);
            }
            if any {
                stack.push((child, next));
                assert(stack@.drop_last() =~= before);
            } else {
                proof {
                    lemma_select_nothing(*child, child.places(), steps, next@);
                }
            }
            assert(pending(stack@, steps) =~= select(
                *self,
                self.places_from(j as int),
                steps,
                open@,
            ) + pending(rest, steps));
        }
    }

    /// Resolves a path, returning every node it matches, in document order.
    ///
    /// Accepts the same syntax as `get_path`, plus `..` for recursive descent.
    /// Without a `..` the result holds at most one element and agrees with
    /// `get_path`.
    ///
    /// `..name` means "match `name` here, **or** anywhere below here". No match is
    /// an empty `Vec`, not an error. A node that a path reaches in several ways is
    /// returned once.
    ///
    /// Iterative, over an explicit worklist.
    pub fn query(&self, path: &str) -> (found: Vec<&Self>)
        ensures
            found@.unref() == self.matches(crate::path::path_steps(path@)),
    {
        let segments = parse_path(path);
        let ghost steps = crate::path::path_steps(path@);
        let mut found: Vec<&Self> = Vec::new();
        let mut stack: Vec<(&Self, Vec<bool>)> = Vec::new();
        let start = open_start(&segments);
        let ghost whole = select(*self, self.places(), steps, start@);
        proof {
            lemma_select_matches(*self, self.places(), steps, start@);
        }
        stack.push((self, start));
        assert(stack@.drop_last() =~= Seq::empty());
        assert(pending(stack@.drop_last(), steps) =~= Seq::empty());
        assert(found@.unref() + pending(stack@, steps) =~= whole);
        while stack.len() > 0
            invariant
                crate::path::steps_of(segments@) == steps,
                all_closed(stack@, steps),
                found@.unref() + pending(stack@, steps) == whole,
            decreases weight(stack@),
        {
            let ghost before = stack@;
            if let Some((node, open)) = stack.pop() {
                proof {
                    lemma_select_node(*node, steps, open@);
                }
                let ghost already = found@;
                assert(stack@ =~= before.drop_last());
                if open[segments.len()] {
                    found.push(node);
                    assert(found@.unref() =~= already.unref() + seq![*node]);
                }
                node.push_children(&segments, &open, &mut stack);
                assert(found@.unref() + pending(stack@, steps) =~= already.unref() + pending(
                    before,
                    steps,
                ));
            }
        }
        assert(found@.unref() =~= whole);
        found
    }
}

// ---- searching without descents ----------------------------------------

/// The one tail that is open when nothing descends.
spec fn only(i: int, steps: Seq<Step>) -> Seq<bool> {
    Seq::new(steps.len() + 1, |k: int| k == i)
}

proof fn lemma_only_carries(node: Node<'_>, steps: Seq<Step>, i: int, j: int, k: int)
    requires
        super::laws::has_no_descent(steps),
        0 <= i <= steps.len(),
        0 <= k <= steps.len(),
    ensures
        carries(node, steps, only(i, steps), j, k) <==> k == i + 1 && node.next(steps[i]) == Some(
            j,
        ),
{
}

/// The search below a node, from its `j`th child on, follows the one child that the
/// next step leads to.
proof fn lemma_only_from<'a>(node: Node<'a>, steps: Seq<Step>, i: int, j: int)
    requires
        super::laws::has_no_descent(steps),
        0 <= i <= steps.len(),
        0 <= j <= node.arity(),
    ensures
        select(node, node.places_from(j), steps, only(i, steps)) == (if i < steps.len() && (
        node.next(steps[i]) matches Some(n) && n >= j && n < node.arity()) {
            found_by_walk(node.child(node.next(steps[i])->0), steps, i + 1)
        } else {
            Seq::empty()
        }),
    decreases node, node.arity() - j, 0int,
{
    let open = only(i, steps);
    if j < node.arity() {
        lemma_only_from(node, steps, i, j + 1);
        lemma_select_from(node, steps, open, j);
        let child = node.child(j);
        let next = carried(node, steps, open, j);
        assert forall|k: int| 0 <= k < next.len() implies (#[trigger] next[k] <==> k == i + 1
            && node.next(steps[i]) == Some(j)) by {
            lemma_only_carries(node, steps, i, j, k);
        }
        if i < steps.len() && node.next(steps[i]) == Some(j) {
            assert(next =~= only(i + 1, steps));
            assert(decreases_to!(node => child)) by {
                match node {
                    Node::Scalar(_) => {},
                    Node::Sequence(s) => {
                        assert(decreases_to!(s.items@ => s.items@[j]));
                    },
                    Node::Mapping(m) => {
                        assert(decreases_to!(m.entries@ => m.entries@[j]));
                    },
                }
            }
            lemma_only(child, steps, i + 1);
            let found = found_by_walk(child, steps, i + 1);
            assert(found + Seq::empty() =~= found);
        } else {
            assert forall|k: int| 0 <= k < next.len() implies !#[trigger] next[k] by {}
            lemma_select_nothing(child, child.places(), steps, next);
            let later = select(node, node.places_from(j + 1), steps, open);
            assert(Seq::<Node<'a>>::empty() + later =~= later);
        }
    }
}

/// What a walk finds, as a list.
spec fn found_by_walk<'a>(node: Node<'a>, steps: Seq<Step>, i: int) -> Seq<Node<'a>> {
    match node.walk(steps.skip(i)) {
        Some(n) => seq![n],
        None => Seq::empty(),
    }
}

proof fn lemma_only<'a>(node: Node<'a>, steps: Seq<Step>, i: int)
    requires
        super::laws::has_no_descent(steps),
        0 <= i <= steps.len(),
    ensures
        select(node, node.places(), steps, only(i, steps)) == found_by_walk(node, steps, i),
    decreases node, node.arity(), 1int,
{
    let open = only(i, steps);
    assert(is_closed(steps, open));
    lemma_select_node(node, steps, open);
    lemma_only_from(node, steps, i, 0);
    if i < steps.len() {
        assert(steps.skip(i)[0] == steps[i]);
        assert(steps.skip(i).skip(1) =~= steps.skip(i + 1));
        lemma_next_bounds(node, steps[i]);
        let below = select(node, node.places_from(0), steps, open);
        assert(Seq::<Node<'a>>::empty() + below =~= below);
    } else {
        assert(seq![node] + Seq::empty() =~= seq![node]);
    }
}

proof fn lemma_next_bounds(node: Node<'_>, step: Step)
    ensures
        node.next(step) matches Some(j) ==> 0 <= j < node.arity(),
{
    if let Node::Mapping(m) = node {
        if let Some(key) = step.key() {
            super::laws::lemma_first_key_bounds(m.entries@, key);
        }
    }
}

/// Without a descent a search finds at most one node, and it is the one that the path
/// leads a single-result walk to.
pub proof fn law_search_without_descent_is_lookup<'a>(node: Node<'a>, steps: Seq<Step>)
    requires
        super::laws::has_no_descent(steps),
    ensures
        node.matches(steps) == (match node.walk(steps) {
            Some(n) => seq![n],
            None => Seq::empty(),
        }),
{
    let start = only(0, steps);
    assert(is_start(steps, start));
    lemma_select_matches(node, node.places(), steps, start);
    lemma_only(node, steps, 0);
    assert(steps.skip(0) =~= steps);
}

} // verus!
