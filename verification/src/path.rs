//! Parsing for dotted, indexed node paths.
//!
//! Segments are `.`-separated:
//!
//! - A segment parsing as a non-negative integer is a sequence index --
//!   `items.1.name`.
//! - Anything else is a mapping key. A negative number is a **key**, never an
//!   index.
//! - An empty segment -- produced by `..` -- is recursive descent, consumed by
//!   `query` and rejected by plain lookup.
//! - The empty path yields no segments and addresses the root.

use vstd::prelude::*;
use vstd::string::*;

use crate::schema::resolve_index;

pub mod laws;

verus! {

/// One step of a path.
#[derive(Debug, Clone, Copy, PartialEq, Eq)]
pub enum Segment<'a> {
    /// A mapping key.
    Key(&'a str),
    /// A sequence index, carrying the text it was parsed from.
    ///
    /// The text is kept because the node decides, not the segment: `1` addresses
    /// index 1 of a sequence *and* the key `"1"` of a mapping.
    Index(usize, &'a str),
    /// Recursive descent, written `..`.
    Descend,
}

/// What a segment says.
pub enum Step {
    /// Follow this text into a mapping.
    Key(Seq<char>),
    /// Follow this index into a sequence, or this text into a mapping.
    Index(int, Seq<char>),
    /// Go to this node and to everything below it.
    Descend,
}

impl<'a> View for Segment<'a> {
    type V = Step;

    open spec fn view(&self) -> Step {
        match self {
            Segment::Key(k) => Step::Key(k@),
            Segment::Index(i, k) => Step::Index(*i as int, k@),
            Segment::Descend => Step::Descend,
        }
    }
}

impl Step {
    /// The text a step offers to a mapping.
    pub open spec fn key(self) -> Option<Seq<char>> {
        match self {
            Step::Key(k) => Some(k),
            Step::Index(_, k) => Some(k),
            Step::Descend => None,
        }
    }

    /// The index a step offers to a sequence.
    pub open spec fn index(self) -> Option<int> {
        match self {
            Step::Index(i, _) => Some(i),
            _ => None,
        }
    }
}

impl<'a> Segment<'a> {
    /// The segment's text when addressing a mapping, or `None` for a descent.
    pub fn as_key(&self) -> (key: Option<&'a str>)
        ensures
            match self@.key() {
                Some(k) => key matches Some(s) && s@ == k,
                None => key is None,
            },
    {
        match self {
            Segment::Key(k) => Some(*k),
            Segment::Index(_, k) => Some(*k),
            Segment::Descend => None,
        }
    }

    /// The segment's value when addressing a sequence, or `None`.
    pub fn as_index(&self) -> (index: Option<usize>)
        ensures
            match self@.index() {
                Some(i) => index matches Some(n) && n == i,
                None => index is None,
            },
    {
        match self {
            Segment::Index(i, _) => Some(*i),
            _ => None,
        }
    }
}

/// The pieces of `text` between its dots; always at least one.
pub open spec fn dotted(text: Seq<char>) -> Seq<Seq<char>>
    decreases text.len(),
{
    if text.len() == 0 {
        seq![text]
    } else {
        let head = dotted(text.drop_last());
        if text.last() == '.' {
            head.push(Seq::empty())
        } else {
            head.update(head.len() - 1, head.last().push(text.last()))
        }
    }
}

/// What one piece of a path says.
pub open spec fn piece_step(piece: Seq<char>) -> Step {
    if piece.len() == 0 {
        Step::Descend
    } else {
        match crate::schema::index_value(piece) {
            Some(i) => Step::Index(i, piece),
            None => Step::Key(piece),
        }
    }
}

/// What a list of pieces says, with runs of descents collapsed into one.
pub open spec fn piece_steps(pieces: Seq<Seq<char>>) -> Seq<Step>
    decreases pieces.len(),
{
    if pieces.len() == 0 {
        Seq::empty()
    } else {
        let before = piece_steps(pieces.drop_last());
        let step = piece_step(pieces.last());
        if step is Descend && before.len() > 0 && before.last() is Descend {
            before
        } else {
            before.push(step)
        }
    }
}

/// What a path says. The empty path says nothing, and so addresses the root.
pub open spec fn path_steps(path: Seq<char>) -> Seq<Step> {
    if path.len() == 0 {
        Seq::empty()
    } else {
        piece_steps(dotted(path))
    }
}

/// What a list of segments says.
pub open spec fn steps_of(segments: Seq<Segment<'_>>) -> Seq<Step> {
    segments.map_values(|s: Segment<'_>| s@)
}

/// Appends the segment that `piece` spells, unless it repeats a descent.
///
/// Consecutive descents collapse. Descent is idempotent -- widening to "this node
/// and everything below it" a second time reaches nothing new. This is not a
/// corner case: a leading `..` produces two empty pieces.
fn push_piece<'a>(out: &mut Vec<Segment<'a>>, piece: &'a str, Ghost(pieces): Ghost<Seq<Seq<char>>>)
    requires
        steps_of(old(out)@) == piece_steps(pieces),
    ensures
        steps_of(final(out)@) == piece_steps(pieces.push(piece@)),
{
    let ghost before = out@;
    assert(pieces.push(piece@).drop_last() =~= pieces);
    let segment: Segment<'a> = if piece.is_empty() {
        Segment::Descend
    } else {
        match resolve_index(piece) {
            Some(i) => Segment::Index(i, piece),
            None => Segment::Key(piece),
        }
    };
    assert(segment@ == piece_step(piece@));
    if let Segment::Descend = segment {
        if out.len() > 0 {
            assert(steps_of(before).last() == before.last()@);
            if let Segment::Descend = out[out.len() - 1] {
                return;
            }
        }
    }
    out.push(segment);
    assert(steps_of(out@) =~= steps_of(before).push(segment@));
}

/// Splits `path` into segments.
///
/// Never fails: any text is a valid mapping key, so there is no malformed path --
/// only one that does not resolve. The segments borrow from `path`.
pub fn parse_path<'a>(path: &'a str) -> (segments: Vec<Segment<'a>>)
    ensures
        steps_of(segments@) == path_steps(path@),
{
    let mut out: Vec<Segment<'a>> = Vec::new();
    assert(steps_of(out@) =~= Seq::empty());
    if path.is_empty() {
        return out;
    }
    let n: usize = path.unicode_len();
    let mut chars = path.chars();
    let mut start: usize = 0;
    let mut i: usize = 0;
    proof {
        assert(path@.skip(0) =~= path@);
        assert(path@.take(0) =~= Seq::empty());
        assert(path@.subrange(0, 0) =~= Seq::empty());
        assert(dotted(path@.take(0)) =~= seq![Seq::<char>::empty()]);
        assert(dotted(path@.take(0)).drop_last() =~= Seq::empty());
    }
    while i < n
        invariant
            n == path@.len(),
            start <= i <= n,
            vstd::std_specs::iter::IteratorSpec::remaining(&chars) == path@.skip(i as int),
            dotted(path@.take(i as int)).len() > 0,
            dotted(path@.take(i as int)).last() == path@.subrange(start as int, i as int),
            steps_of(out@) == piece_steps(dotted(path@.take(i as int)).drop_last()),
        decreases n - i,
    {
        let ghost here = path@.take(i as int);
        let ghost next = path@.take(i + 1);
        let ghost pieces = dotted(here);
        assert(next.drop_last() =~= here);
        assert(next.last() == path@[i as int]);
        let c: char = match chars.next() {
            Some(c) => c,
            None => {
                return out;
            },
        };
        if c == '.' {
            push_piece(&mut out, path.substring_char(start, i), Ghost(pieces.drop_last()));
            assert(pieces.drop_last().push(pieces.last()) =~= pieces);
            assert(dotted(next).drop_last() =~= pieces);
            start = i + 1;
            assert(path@.subrange(start as int, i + 1) =~= Seq::empty());
        } else {
            assert(path@.subrange(start as int, i + 1) =~= path@.subrange(
                start as int,
                i as int,
            ).push(c));
            assert(dotted(next).drop_last() =~= pieces.drop_last());
        }
        i = i + 1;
    }
    let ghost pieces = dotted(path@);
    assert(path@.take(n as int) =~= path@);
    push_piece(&mut out, path.substring_char(start, n), Ghost(pieces.drop_last()));
    assert(pieces.drop_last().push(pieces.last()) =~= pieces);
    out
}

} // verus!
