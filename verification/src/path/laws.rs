//! What path syntax promises as a whole.

use vstd::prelude::*;

use super::{Segment, Step};

verus! {

/// Only the empty path says nothing: it alone addresses the root.
pub proof fn law_only_the_empty_path_says_nothing(path: Seq<char>)
    ensures
        super::path_steps(path).len() == 0 <==> path.len() == 0,
{
    lemma_dotted(path);
    if path.len() > 0 {
        lemma_some_step(super::dotted(path));
    }
}

proof fn lemma_some_step(pieces: Seq<Seq<char>>)
    ensures
        super::piece_steps(pieces).len() == 0 <==> pieces.len() == 0,
    decreases pieces.len(),
{
    if pieces.len() > 0 {
        lemma_some_step(pieces.drop_last());
    }
}

/// The pieces of a text hold no dot, and joined by dots they are the text again.
pub proof fn law_pieces_rejoin(text: Seq<char>)
    ensures
        super::dotted(text).len() > 0,
        joined(super::dotted(text)) == text,
        forall|i: int|
            0 <= i < super::dotted(text).len() ==> !(#[trigger] super::dotted(text)[i]).contains(
                '.',
            ),
{
    lemma_dotted(text);
}

/// Pieces joined by dots.
pub open spec fn joined(pieces: Seq<Seq<char>>) -> Seq<char>
    decreases pieces.len(),
{
    if pieces.len() == 0 {
        Seq::empty()
    } else if pieces.len() == 1 {
        pieces[0]
    } else {
        joined(pieces.drop_last()).push('.') + pieces.last()
    }
}

proof fn lemma_dotted(text: Seq<char>)
    ensures
        super::dotted(text).len() > 0,
        joined(super::dotted(text)) == text,
        forall|i: int|
            0 <= i < super::dotted(text).len() ==> !(#[trigger] super::dotted(text)[i]).contains(
                '.',
            ),
    decreases text.len(),
{
    let pieces = super::dotted(text);
    if text.len() > 0 {
        lemma_dotted(text.drop_last());
        let head = super::dotted(text.drop_last());
        let c = text.last();
        assert(text.drop_last().push(c) =~= text);
        if c == '.' {
            assert(pieces.drop_last() =~= head);
            assert(joined(pieces) =~= text);
        } else {
            let last = head.last();
            assert(pieces.drop_last() =~= head.drop_last());
            assert(pieces.last() == last.push(c));
            assert(!head[head.len() - 1].contains('.'));
            assert(!last.push(c).contains('.')) by {
                if last.push(c).contains('.') {
                    let k = choose|k: int| 0 <= k < last.push(c).len() && last.push(c)[k] == '.';
                    assert(last[k] == '.');
                    assert(last.contains('.'));
                }
            }
            if head.len() == 1 {
                assert(joined(pieces) =~= text);
            } else {
                assert(joined(pieces) =~= joined(head).push(c));
            }
        }
    } else {
        assert(joined(pieces) =~= text);
    }
}

/// Two descents never follow each other: a run of them is one.
pub proof fn law_descents_collapse(path: Seq<char>)
    ensures
        forall|i: int|
            0 <= i < super::path_steps(path).len() - 1 ==> !(super::path_steps(path)[i] is Descend
                && #[trigger] super::path_steps(path)[i + 1] is Descend),
{
    lemma_descents(super::dotted(path));
}

proof fn lemma_descents(pieces: Seq<Seq<char>>)
    ensures
        forall|i: int|
            0 <= i < super::piece_steps(pieces).len() - 1 ==> !(super::piece_steps(
                pieces,
            )[i] is Descend && #[trigger] super::piece_steps(pieces)[i + 1] is Descend),
    decreases pieces.len(),
{
    if pieces.len() > 0 {
        lemma_descents(pieces.drop_last());
        let before = super::piece_steps(pieces.drop_last());
        let after = super::piece_steps(pieces);
        assert forall|i: int| 0 <= i < after.len() - 1 implies !(after[i] is Descend
            && #[trigger] after[i + 1] is Descend) by {
            if i + 1 < before.len() {
                assert(after[i] == before[i] && after[i + 1] == before[i + 1]);
            }
        }
    }
}

/// A negative number names a key, never an index.
pub proof fn law_a_negative_number_is_a_key(piece: Seq<char>)
    requires
        crate::schema::opens_with(piece, '-'),
    ensures
        super::piece_step(piece) == Step::Key(piece),
{
    assert(crate::schema::digit_value(piece[0]) == 36);
}

/// Every piece keeps its text, so a mapping can be asked for any key that holds no
/// dot, digits or not.
pub proof fn law_a_piece_keeps_its_text(piece: Seq<char>)
    requires
        piece.len() > 0,
    ensures
        super::piece_step(piece).key() == Some(piece),
{
}

/// A number written in decimal is the index it says, however large, as long as it can
/// index anything; a larger one is a key. Zeros or a plus before it change nothing but
/// the text.
pub proof fn law_a_decimal_piece_is_an_index(n: int)
    requires
        0 <= n,
    ensures
        ({
            let piece = crate::text::decimal(n);
            super::piece_step(piece) == if n <= usize::MAX {
                Step::Index(n, piece)
            } else {
                Step::Key(piece)
            }
        }),
        ({
            let piece = seq!['0'] + crate::text::decimal(n);
            super::piece_step(piece) == if n <= usize::MAX {
                Step::Index(n, piece)
            } else {
                Step::Key(piece)
            }
        }),
        ({
            let piece = seq!['+'] + crate::text::decimal(n);
            super::piece_step(piece) == if n <= usize::MAX {
                Step::Index(n, piece)
            } else {
                Step::Key(piece)
            }
        }),
{
    let text = crate::text::decimal(n);
    crate::schema::writing::law_decimal_text_reads_back(n);
    crate::schema::writing::law_decimal_text_is_base_ten(n, false);
    crate::schema::writing::law_a_run_reads_back(n, 10, false);
    let plus = seq!['+'] + text;
    assert(plus.skip(1) =~= text);
    let zero = seq!['0'] + text;
    assert(crate::schema::number(text, 10) == Some(n));
    lemma_zero_before(text);
    assert(zero[0] == '0');
    assert(crate::schema::index_value(zero) == crate::schema::index_value(text)) by {
        assert(crate::schema::digit_value(text[0]) < 10);
    }
}

proof fn lemma_zero_before(digits: Seq<char>)
    ensures
        crate::schema::run_value(seq!['0'] + digits, 10) == crate::schema::run_value(digits, 10),
        crate::schema::is_run(digits, 10) ==> crate::schema::is_run(seq!['0'] + digits, 10),
    decreases digits.len(),
{
    let more = seq!['0'] + digits;
    if digits.len() > 0 {
        assert(more.drop_last() =~= seq!['0'] + digits.drop_last());
        assert(more.last() == digits.last());
        lemma_zero_before(digits.drop_last());
        if crate::schema::is_run(digits, 10) {
            assert forall|i: int| 0 <= i < more.len() implies crate::schema::digit_value(
                #[trigger] more[i],
            ) < 10 by {
                if i > 0 {
                    assert(more[i] == digits[i - 1]);
                }
            }
        }
    } else {
        assert(more =~= seq!['0']);
        assert(more.drop_last() =~= Seq::empty());
        assert(crate::schema::run_value(more.drop_last(), 10) == 0);
    }
}

/// Whatever is not written as a number is a key: a piece is the index `n` exactly if it
/// is `n` in decimal, and a key exactly if it is no index at all.
pub proof fn law_a_piece_is_an_index_or_a_key(piece: Seq<char>, n: int)
    requires
        piece.len() > 0,
    ensures
        super::piece_step(piece) == Step::Index(n, piece) <==> n <= usize::MAX && (
        crate::schema::writing::writes(piece, n, 10) || (piece[0] == '+'
            && crate::schema::writing::writes(piece.skip(1), n, 10))),
        match super::piece_step(piece) {
            Step::Key(key) => key == piece,
            Step::Index(m, key) => key == piece && 0 <= m <= usize::MAX,
            Step::Descend => false,
        },
{
    crate::schema::writing::law_an_index_is_written_in_decimal(piece, n);
    if let Some(m) = crate::schema::index_value(piece) {
        crate::schema::writing::law_an_index_is_written_in_decimal(piece, m);
        if crate::schema::writing::writes(piece, m, 10) {
            crate::schema::writing::lemma_writes_a_magnitude(piece, m, 10);
        } else {
            crate::schema::writing::lemma_writes_a_magnitude(piece.skip(1), m, 10);
        }
    }
}

/// What steps say once a piece without a dot has been added to them.
pub open spec fn extended(steps: Seq<Step>, piece: Seq<char>) -> Seq<Step> {
    if piece.len() > 0 {
        steps.push(super::piece_step(piece))
    } else if steps.len() > 0 && steps.last() is Descend {
        steps
    } else {
        steps.push(Step::Descend)
    }
}

/// A text without a dot is one step, and a dot starts another: what follows it is added
/// to what stands before it. Nothing at all before a dot is a descent, as it is after
/// one.
pub proof fn law_a_dot_starts_a_step(path: Seq<char>, piece: Seq<char>)
    requires
        !piece.contains('.'),
    ensures
        piece.len() > 0 ==> super::path_steps(piece) == seq![super::piece_step(piece)],
        path.len() > 0 ==> super::path_steps(path.push('.') + piece) == extended(
            super::path_steps(path),
            piece,
        ),
        super::path_steps(seq!['.'] + piece) == extended(seq![Step::Descend], piece),
{
    lemma_piece(piece);
    assert(seq![piece].drop_last() =~= Seq::empty());
    assert(super::piece_steps(seq![piece].drop_last()) =~= Seq::empty());
    assert(super::piece_steps(seq![piece]) =~= seq![super::piece_step(piece)]);
    lemma_added(path, piece);
    let pieces = super::dotted(path).push(piece);
    assert(pieces.drop_last() =~= super::dotted(path));
    if path.len() > 0 {
        lemma_some_step(super::dotted(path));
    }
    let nothing = Seq::<char>::empty();
    lemma_added(nothing, piece);
    assert(nothing.push('.') + piece =~= seq!['.'] + piece);
    let both = super::dotted(nothing).push(piece);
    assert(super::dotted(nothing) =~= seq![nothing]);
    assert(both.drop_last() =~= seq![nothing]);
    assert(seq![nothing].drop_last() =~= Seq::empty());
    assert(super::piece_steps(seq![nothing].drop_last()) =~= Seq::empty());
    assert(super::piece_steps(seq![nothing]) =~= seq![Step::Descend]);
}

proof fn lemma_piece(piece: Seq<char>)
    requires
        !piece.contains('.'),
    ensures
        super::dotted(piece) == seq![piece],
    decreases piece.len(),
{
    if piece.len() > 0 {
        let init = piece.drop_last();
        assert(piece[piece.len() - 1] == piece.last());
        assert(!init.contains('.')) by {
            if init.contains('.') {
                let k = choose|k: int| 0 <= k < init.len() && init[k] == '.';
                assert(piece[k] == '.');
            }
        }
        lemma_piece(init);
        assert(init.push(piece.last()) =~= piece);
        assert(super::dotted(piece) =~= seq![piece]);
    }
}

proof fn lemma_added(path: Seq<char>, piece: Seq<char>)
    requires
        !piece.contains('.'),
    ensures
        super::dotted(path.push('.') + piece) == super::dotted(path).push(piece),
    decreases piece.len(),
{
    let text = path.push('.') + piece;
    if piece.len() == 0 {
        assert(text.drop_last() =~= path);
        assert(piece =~= Seq::empty());
    } else {
        let init = piece.drop_last();
        assert(piece[piece.len() - 1] == piece.last());
        assert(!init.contains('.')) by {
            if init.contains('.') {
                let k = choose|k: int| 0 <= k < init.len() && init[k] == '.';
                assert(piece[k] == '.');
            }
        }
        lemma_added(path, init);
        assert(text.drop_last() =~= path.push('.') + init);
        assert(text.last() == piece.last());
        assert(init.push(piece.last()) =~= piece);
        assert(super::dotted(text) =~= super::dotted(path).push(piece));
    }
}

/// A segment says what it holds: a key its text, an index its number and its text, and a
/// descent neither.
pub proof fn law_a_segment_says_what_it_holds(text: &str, i: usize)
    ensures
        Segment::Key(text)@.key() == Some(text@),
        Segment::Key(text)@.index() is None,
        Segment::Index(i, text)@.key() == Some(text@),
        Segment::Index(i, text)@.index() == Some(i as int),
        Segment::Descend@.key() is None,
        Segment::Descend@.index() is None,
        Segment::Descend@ is Descend,
        !(Segment::Key(text)@ is Descend),
        !(Segment::Index(i, text)@ is Descend),
{
}

} // verus!
