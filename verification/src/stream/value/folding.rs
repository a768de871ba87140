//! Folding merge keys in a tree.

use vstd::prelude::*;

use super::tree::Tree;

verus! {

/// A key and a value, as trees.
pub type Pair<'de> = (Tree<'de>, Tree<'de>);

/// The text of a tree that is a scalar.
pub open spec fn lone(tree: Tree<'_>) -> Option<Seq<char>> {
    match tree {
        Tree::Leaf(event) => super::event_text(event),
        _ => None,
    }
}

/// Whether a key asks for a merge.
pub open spec fn merges(key: Tree<'_>, merge_keys: bool) -> bool {
    merge_keys && lone(key) == Some("<<"@)
}

/// The texts of the scalar keys among these entries.
pub open spec fn claimed<'de>(entries: Seq<Pair<'de>>) -> Set<Seq<char>>
    decreases entries.len(),
{
    if entries.len() == 0 {
        Set::empty()
    } else {
        match lone(entries[0].0) {
            Some(text) => claimed(entries.drop_first()).insert(text),
            None => claimed(entries.drop_first()),
        }
    }
}

/// The entries whose key nothing claims: not a text that was seen, nor one that an
/// earlier entry has. A key that is no scalar has no text to claim.
pub open spec fn kept<'de>(seen: Set<Seq<char>>, entries: Seq<Pair<'de>>) -> Seq<Pair<'de>>
    decreases entries.len(),
{
    if entries.len() == 0 {
        Seq::empty()
    } else {
        match lone(entries[0].0) {
            Some(text) => if seen.contains(text) {
                kept(seen, entries.drop_first())
            } else {
                seq![entries[0]] + kept(seen.insert(text), entries.drop_first())
            },
            None => seq![entries[0]] + kept(seen, entries.drop_first()),
        }
    }
}

/// The entries that a folded merge value supplies: those of a mapping, or those of a
/// sequence of mappings, the earlier ones first. Any other value supplies none.
pub open spec fn supplied<'de>(value: Tree<'de>) -> Option<Seq<Pair<'de>>> {
    match value {
        Tree::Table { opens, entries, closes } => Some(entries),
        Tree::List { start, items, end } => all_supplied(items),
        Tree::Leaf(_) => None,
    }
}

/// The entries of mappings, the earlier ones first.
pub open spec fn all_supplied<'de>(items: Seq<Tree<'de>>) -> Option<Seq<Pair<'de>>>
    decreases items.len(),
{
    if items.len() == 0 {
        Some(Seq::empty())
    } else {
        match (items[0], all_supplied(items.drop_first())) {
            (Tree::Table { opens, entries, closes }, Some(more)) => Some(entries + more),
            _ => None,
        }
    }
}

/// A tree with the merge keys of every mapping in it folded: a mapping has the entries
/// that it states itself, in the order they are written, and after them those that its
/// merge values supply and nothing claims. None if a merge value cannot supply entries,
/// or if the tree does not group events as they nest.
pub open spec fn folded<'de>(tree: Tree<'de>, merge_keys: bool) -> Option<Tree<'de>>
    decreases tree,
{
    match tree {
        Tree::Leaf(event) => if event.kind is Scalar {
            Some(tree)
        } else {
            None
        },
        Tree::List { start, items, end } => match folded_items(items, merge_keys) {
            Some(items) => if start.kind is SequenceStart && end.kind is SequenceEnd {
                Some(Tree::List { start, items, end })
            } else {
                None
            },
            None => None,
        },
        Tree::Table { opens, entries, closes } => match (
            stated(entries, merge_keys),
            inherited(entries, merge_keys),
        ) {
            (Some(own), Some(given)) => if opens.kind is MappingStart && closes.kind is MappingEnd {
                Some(Tree::Table { opens, entries: own + kept(claimed(own), given), closes })
            } else {
                None
            },
            _ => None,
        },
    }
}

/// Items with their merge keys folded.
pub open spec fn folded_items<'de>(items: Seq<Tree<'de>>, merge_keys: bool) -> Option<
    Seq<Tree<'de>>,
>
    decreases items,
{
    if items.len() == 0 {
        Some(Seq::empty())
    } else {
        match (folded(items[0], merge_keys), folded_items(items.drop_first(), merge_keys)) {
            (Some(first), Some(more)) => Some(seq![first] + more),
            _ => None,
        }
    }
}

/// The entries that a mapping states itself, their merge keys folded.
pub open spec fn stated<'de>(entries: Seq<Pair<'de>>, merge_keys: bool) -> Option<Seq<Pair<'de>>>
    decreases entries,
{
    if entries.len() == 0 {
        Some(Seq::empty())
    } else if merges(entries[0].0, merge_keys) {
        stated(entries.drop_first(), merge_keys)
    } else {
        match (
            folded(entries[0].0, merge_keys),
            folded(entries[0].1, merge_keys),
            stated(entries.drop_first(), merge_keys),
        ) {
            (Some(key), Some(value), Some(more)) => Some(seq![(key, value)] + more),
            _ => None,
        }
    }
}

/// The entries that a mapping's merge values supply, in the order they are written.
pub open spec fn inherited<'de>(entries: Seq<Pair<'de>>, merge_keys: bool) -> Option<
    Seq<Pair<'de>>,
>
    decreases entries,
{
    if entries.len() == 0 {
        Some(Seq::empty())
    } else if merges(entries[0].0, merge_keys) {
        match (
            folded(entries[0].1, merge_keys),
            inherited(entries.drop_first(), merge_keys),
        ) {
            (Some(value), Some(more)) => match supplied(value) {
                Some(given) => Some(given + more),
                None => None,
            },
            _ => None,
        }
    } else {
        inherited(entries.drop_first(), merge_keys)
    }
}

// ---- what folding keeps ------------------------------------------------

/// What can be folded groups events as they nest.
pub proof fn lemma_folded_nests<'de>(tree: Tree<'de>, merge_keys: bool)
    requires
        folded(tree, merge_keys) is Some,
    ensures
        super::tree::nests(tree),
        lone(folded(tree, merge_keys)->0) == lone(tree),
    decreases tree,
{
    match tree {
        Tree::Leaf(_) => {},
        Tree::List { start, items, end } => {
            lemma_folded_items_nest(items, merge_keys);
        },
        Tree::Table { opens, entries, closes } => {
            lemma_folded_entries_nest(entries, merge_keys);
        },
    }
}

proof fn lemma_folded_items_nest<'de>(items: Seq<Tree<'de>>, merge_keys: bool)
    requires
        folded_items(items, merge_keys) is Some,
    ensures
        super::tree::all_nest(items),
    decreases items,
{
    if items.len() > 0 {
        lemma_folded_nests(items[0], merge_keys);
        lemma_folded_items_nest(items.drop_first(), merge_keys);
    }
}

proof fn lemma_folded_entries_nest<'de>(entries: Seq<Pair<'de>>, merge_keys: bool)
    requires
        stated(entries, merge_keys) is Some,
        inherited(entries, merge_keys) is Some,
    ensures
        super::tree::all_entries_nest(entries),
    decreases entries,
{
    if entries.len() > 0 {
        if !merges(entries[0].0, merge_keys) {
            lemma_folded_nests(entries[0].0, merge_keys);
        }
        assert(super::tree::nests(entries[0].0));
        lemma_folded_nests(entries[0].1, merge_keys);
        lemma_folded_entries_nest(entries.drop_first(), merge_keys);
    }
}

/// With merge keys off, nothing is folded: `<<` is an ordinary key.
pub proof fn law_nothing_is_folded_without_merge_keys<'de>(tree: Tree<'de>)
    requires
        super::tree::nests(tree),
    ensures
        folded(tree, false) == Some(tree),
    decreases tree,
{
    match tree {
        Tree::Leaf(_) => {},
        Tree::List { start, items, end } => {
            lemma_items_unfolded(items);
        },
        Tree::Table { opens, entries, closes } => {
            lemma_entries_unfolded(entries);
            assert(entries + kept(claimed(entries), Seq::empty()) =~= entries);
        },
    }
}

proof fn lemma_items_unfolded<'de>(items: Seq<Tree<'de>>)
    requires
        super::tree::all_nest(items),
    ensures
        folded_items(items, false) == Some(items),
    decreases items,
{
    if items.len() > 0 {
        law_nothing_is_folded_without_merge_keys(items[0]);
        lemma_items_unfolded(items.drop_first());
        assert(seq![items[0]] + items.drop_first() =~= items);
    } else {
        assert(items =~= Seq::empty());
    }
}

proof fn lemma_entries_unfolded<'de>(entries: Seq<Pair<'de>>)
    requires
        super::tree::all_entries_nest(entries),
    ensures
        stated(entries, false) == Some(entries),
        inherited(entries, false) == Some(Seq::<Pair<'de>>::empty()),
    decreases entries,
{
    if entries.len() > 0 {
        law_nothing_is_folded_without_merge_keys(entries[0].0);
        law_nothing_is_folded_without_merge_keys(entries[0].1);
        lemma_entries_unfolded(entries.drop_first());
        assert(seq![entries[0]] + entries.drop_first() =~= entries);
    } else {
        assert(entries =~= Seq::empty());
    }
}

// ---- claims ------------------------------------------------------------

proof fn lemma_claimed_sum<'de>(left: Seq<Pair<'de>>, right: Seq<Pair<'de>>)
    ensures
        claimed(left + right) == claimed(left).union(claimed(right)),
    decreases left.len(),
{
    if left.len() == 0 {
        assert(left + right =~= right);
        assert(claimed(left + right) =~= claimed(left).union(claimed(right)));
    } else {
        lemma_claimed_sum(left.drop_first(), right);
        assert((left + right).drop_first() =~= left.drop_first() + right);
        assert(claimed(left + right) =~= claimed(left).union(claimed(right)));
    }
}

proof fn lemma_kept_sum<'de>(
    seen: Set<Seq<char>>,
    left: Seq<Pair<'de>>,
    right: Seq<Pair<'de>>,
)
    ensures
        kept(seen, left + right) == kept(seen, left) + kept(seen.union(claimed(left)), right),
    decreases left.len(),
{
    if left.len() == 0 {
        assert(left + right =~= right);
        assert(seen.union(claimed(left)) =~= seen);
        assert(kept(seen, left) + kept(seen, right) =~= kept(seen, right));
    } else {
        let tail = left.drop_first();
        assert((left + right).drop_first() =~= tail + right);
        match lone(left[0].0) {
            Some(text) => {
                if seen.contains(text) {
                    lemma_kept_sum(seen, tail, right);
                    assert(seen.union(claimed(left)) =~= seen.union(claimed(tail)));
                } else {
                    lemma_kept_sum(seen.insert(text), tail, right);
                    assert(seen.union(claimed(left)) =~= seen.insert(text).union(claimed(tail)));
                }
            },
            None => {
                lemma_kept_sum(seen, tail, right);
            },
        }
        assert(kept(seen, left + right) =~= kept(seen, left) + kept(
            seen.union(claimed(left)),
            right,
        ));
    }
}

/// Passing over what is claimed anyway changes nothing.
proof fn lemma_kept_twice<'de>(
    less: Set<Seq<char>>,
    seen: Set<Seq<char>>,
    entries: Seq<Pair<'de>>,
)
    requires
        less.subset_of(seen),
    ensures
        kept(seen, kept(less, entries)) == kept(seen, entries),
        less.union(claimed(kept(less, entries))) == less.union(claimed(entries)),
    decreases entries.len(),
{
    if entries.len() == 0 {
    } else {
        let tail = entries.drop_first();
        let first = entries[0];
        match lone(first.0) {
            Some(text) => {
                if less.contains(text) {
                    lemma_kept_twice(less, seen, tail);
                    assert(less.union(claimed(entries)) =~= less.union(claimed(tail)));
                } else {
                    let inner = kept(less.insert(text), tail);
                    let outer = seq![first] + inner;
                    assert(outer.drop_first() =~= inner);
                    lemma_kept_twice(less.insert(text), seen.insert(text), tail);
                    if seen.contains(text) {
                        assert(seen.insert(text) =~= seen);
                    }
                    assert(less.union(claimed(outer)) =~= less.insert(text).union(claimed(inner)));
                    assert(less.union(claimed(entries)) =~= less.insert(text).union(
                        claimed(tail),
                    ));
                }
            },
            None => {
                let inner = kept(less, tail);
                let outer = seq![first] + inner;
                assert(outer.drop_first() =~= inner);
                lemma_kept_twice(less, seen, tail);
            },
        }
    }
}

/// Whether two lists of entries claim the same and fare the same, whatever was seen.
pub open spec fn alike<'de>(left: Seq<Pair<'de>>, right: Seq<Pair<'de>>) -> bool {
    &&& claimed(left) == claimed(right)
    &&& forall|seen: Set<Seq<char>>| #[trigger] kept(seen, left) == kept(seen, right)
}

proof fn lemma_alike_sum<'de>(
    a: Seq<Pair<'de>>,
    b: Seq<Pair<'de>>,
    x: Seq<Pair<'de>>,
    y: Seq<Pair<'de>>,
)
    requires
        alike(a, x),
        alike(b, y),
    ensures
        alike(a + b, x + y),
{
    lemma_claimed_sum(a, b);
    lemma_claimed_sum(x, y);
    assert forall|seen: Set<Seq<char>>| #[trigger] kept(seen, a + b) == kept(seen, x + y) by {
        lemma_kept_sum(seen, a, b);
        lemma_kept_sum(seen, x, y);
        assert(kept(seen, a) == kept(seen, x));
        let more = seen.union(claimed(a));
        assert(kept(more, b) == kept(more, y));
    }
}

/// What a mapping states, and what survives of what it inherits, claims the same and
/// fares the same as all of it.
proof fn lemma_alike_folded<'de>(own: Seq<Pair<'de>>, given: Seq<Pair<'de>>)
    ensures
        alike(own + given, own + kept(claimed(own), given)),
{
    let rest = kept(claimed(own), given);
    lemma_claimed_sum(own, given);
    lemma_claimed_sum(own, rest);
    lemma_kept_twice(claimed(own), claimed(own), given);
    assert forall|seen: Set<Seq<char>>| #[trigger] kept(seen, own + given) == kept(
        seen,
        own + rest,
    ) by {
        lemma_kept_sum(seen, own, given);
        lemma_kept_sum(seen, own, rest);
        lemma_kept_twice(claimed(own), seen.union(claimed(own)), given);
    }
}

// ---- merge values as they are written ----------------------------------

/// The entries that a mapping states itself, as they are written.
pub open spec fn written<'de>(entries: Seq<Pair<'de>>, merge_keys: bool) -> Seq<Pair<'de>>
    decreases entries,
{
    if entries.len() == 0 {
        Seq::empty()
    } else if merges(entries[0].0, merge_keys) {
        written(entries.drop_first(), merge_keys)
    } else {
        seq![entries[0]] + written(entries.drop_first(), merge_keys)
    }
}

/// The entries that a merge value contributes, as they are written: what a mapping
/// states itself, then what it inherits.
pub open spec fn spread<'de>(value: Tree<'de>, merge_keys: bool) -> Option<Seq<Pair<'de>>>
    decreases value,
{
    match value {
        Tree::Table { opens, entries, closes } => match spread_inherited(entries, merge_keys) {
            Some(given) => Some(written(entries, merge_keys) + given),
            None => None,
        },
        Tree::List { start, items, end } => spread_items(items, merge_keys),
        Tree::Leaf(_) => None,
    }
}

/// The entries that mappings contribute, the earlier ones first.
pub open spec fn spread_items<'de>(items: Seq<Tree<'de>>, merge_keys: bool) -> Option<
    Seq<Pair<'de>>,
>
    decreases items,
{
    if items.len() == 0 {
        Some(Seq::empty())
    } else if items[0] is Table {
        match (spread(items[0], merge_keys), spread_items(items.drop_first(), merge_keys)) {
            (Some(first), Some(more)) => Some(first + more),
            _ => None,
        }
    } else {
        None
    }
}

/// The entries that a mapping's merge values contribute.
pub open spec fn spread_inherited<'de>(
    entries: Seq<Pair<'de>>,
    merge_keys: bool,
) -> Option<Seq<Pair<'de>>>
    decreases entries,
{
    if entries.len() == 0 {
        Some(Seq::empty())
    } else if merges(entries[0].0, merge_keys) {
        match (
            spread(entries[0].1, merge_keys),
            spread_inherited(entries.drop_first(), merge_keys),
        ) {
            (Some(first), Some(more)) => Some(first + more),
            _ => None,
        }
    } else {
        spread_inherited(entries.drop_first(), merge_keys)
    }
}

/// Entries, their merge keys folded.
pub open spec fn all_folded<'de>(entries: Seq<Pair<'de>>, merge_keys: bool) -> Option<
    Seq<Pair<'de>>,
>
    decreases entries.len(),
{
    if entries.len() == 0 {
        Some(Seq::empty())
    } else {
        match (
            folded(entries[0].0, merge_keys),
            folded(entries[0].1, merge_keys),
            all_folded(entries.drop_first(), merge_keys),
        ) {
            (Some(key), Some(value), Some(more)) => Some(seq![(key, value)] + more),
            _ => None,
        }
    }
}

pub proof fn lemma_all_folded_sum<'de>(
    left: Seq<Pair<'de>>,
    right: Seq<Pair<'de>>,
    merge_keys: bool,
)
    requires
        all_folded(left, merge_keys) is Some,
        all_folded(right, merge_keys) is Some,
    ensures
        all_folded(left + right, merge_keys) == Some(
            all_folded(left, merge_keys)->0 + all_folded(right, merge_keys)->0,
        ),
    decreases left.len(),
{
    if left.len() == 0 {
        assert(left + right =~= right);
        assert(all_folded(left, merge_keys)->0 + all_folded(right, merge_keys)->0 =~= all_folded(
            right,
            merge_keys,
        )->0);
    } else {
        assert((left + right).drop_first() =~= left.drop_first() + right);
        lemma_all_folded_sum(left.drop_first(), right, merge_keys);
        assert(all_folded(left + right, merge_keys)->0 =~= all_folded(left, merge_keys)->0
            + all_folded(right, merge_keys)->0);
    }
}

proof fn lemma_written_folded<'de>(entries: Seq<Pair<'de>>, merge_keys: bool)
    requires
        stated(entries, merge_keys) is Some,
    ensures
        all_folded(written(entries, merge_keys), merge_keys) == stated(entries, merge_keys),
    decreases entries.len(),
{
    if entries.len() > 0 {
        let tail = entries.drop_first();
        lemma_written_folded(tail, merge_keys);
        if !merges(entries[0].0, merge_keys) {
            let more = written(tail, merge_keys);
            assert((seq![entries[0]] + more).drop_first() =~= more);
        }
    }
}

/// What a merge value contributes as it is written claims the same and fares the same,
/// once folded, as what the folded value supplies.
pub proof fn lemma_spread<'de>(value: Tree<'de>, merge_keys: bool)
    requires
        folded(value, merge_keys) is Some,
        supplied(folded(value, merge_keys)->0) is Some,
    ensures
        spread(value, merge_keys) is Some,
        all_folded(spread(value, merge_keys)->0, merge_keys) is Some,
        alike(
            all_folded(spread(value, merge_keys)->0, merge_keys)->0,
            supplied(folded(value, merge_keys)->0)->0,
        ),
    decreases value, 0int,
{
    match value {
        Tree::Leaf(_) => {},
        Tree::List { start, items, end } => {
            lemma_spread_items(items, merge_keys);
        },
        Tree::Table { opens, entries, closes } => {
            lemma_spread_table(entries, merge_keys);
        },
    }
}

proof fn lemma_spread_table<'de>(entries: Seq<Pair<'de>>, merge_keys: bool)
    requires
        stated(entries, merge_keys) is Some,
        inherited(entries, merge_keys) is Some,
    ensures
        ({
            let own = stated(entries, merge_keys)->0;
            let given = inherited(entries, merge_keys)->0;
            let raw = written(entries, merge_keys) + spread_inherited(entries, merge_keys)->0;
            &&& spread_inherited(entries, merge_keys) is Some
            &&& all_folded(raw, merge_keys) is Some
            &&& alike(all_folded(raw, merge_keys)->0, own + kept(claimed(own), given))
        }),
    decreases entries, 1int,
{
    let own = stated(entries, merge_keys)->0;
    let given = inherited(entries, merge_keys)->0;
    lemma_written_folded(entries, merge_keys);
    lemma_spread_inherited(entries, merge_keys);
    let more = spread_inherited(entries, merge_keys)->0;
    let spare = all_folded(more, merge_keys)->0;
    lemma_all_folded_sum(written(entries, merge_keys), more, merge_keys);
    lemma_alike_sum(own, spare, own, given);
    lemma_alike_folded(own, given);
}

proof fn lemma_spread_items<'de>(items: Seq<Tree<'de>>, merge_keys: bool)
    requires
        folded_items(items, merge_keys) is Some,
        all_supplied(folded_items(items, merge_keys)->0) is Some,
    ensures
        spread_items(items, merge_keys) is Some,
        all_folded(spread_items(items, merge_keys)->0, merge_keys) is Some,
        alike(
            all_folded(spread_items(items, merge_keys)->0, merge_keys)->0,
            all_supplied(folded_items(items, merge_keys)->0)->0,
        ),
    decreases items, 0int,
{
    if items.len() > 0 {
        let tail = items.drop_first();
        let first = folded(items[0], merge_keys)->0;
        let later = folded_items(tail, merge_keys)->0;
        assert((seq![first] + later).drop_first() =~= later);
        assert(items[0] is Table);
        lemma_spread(items[0], merge_keys);
        lemma_spread_items(tail, merge_keys);
        let a = spread(items[0], merge_keys)->0;
        let b = spread_items(tail, merge_keys)->0;
        lemma_all_folded_sum(a, b, merge_keys);
        lemma_alike_sum(
            all_folded(a, merge_keys)->0,
            all_folded(b, merge_keys)->0,
            supplied(first)->0,
            all_supplied(later)->0,
        );
    }
}

pub proof fn lemma_spread_inherited<'de>(entries: Seq<Pair<'de>>, merge_keys: bool)
    requires
        inherited(entries, merge_keys) is Some,
    ensures
        spread_inherited(entries, merge_keys) is Some,
        all_folded(spread_inherited(entries, merge_keys)->0, merge_keys) is Some,
        alike(
            all_folded(spread_inherited(entries, merge_keys)->0, merge_keys)->0,
            inherited(entries, merge_keys)->0,
        ),
    decreases entries, 0int,
{
    if entries.len() > 0 {
        let tail = entries.drop_first();
        lemma_spread_inherited(tail, merge_keys);
        if merges(entries[0].0, merge_keys) {
            lemma_spread(entries[0].1, merge_keys);
            let a = spread(entries[0].1, merge_keys)->0;
            let b = spread_inherited(tail, merge_keys)->0;
            lemma_all_folded_sum(a, b, merge_keys);
            lemma_alike_sum(
                all_folded(a, merge_keys)->0,
                all_folded(b, merge_keys)->0,
                supplied(folded(entries[0].1, merge_keys)->0)->0,
                inherited(tail, merge_keys)->0,
            );
        }
    }
}

} // verus!
