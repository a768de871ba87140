//! What base64 promises as a whole.

use vstd::prelude::*;

verus! {

/// The alphabet is the capitals, the small letters, the digits, the plus and the slash,
/// in that order, and nothing else; each character has one place in it.
pub proof fn law_the_alphabet_is_in_order(c: char, v: int)
    ensures
        super::sextet('A') == 0,
        'A' <= c < 'Z' || 'a' <= c < 'z' || '0' <= c < '9' ==> super::sextet(
            (c as u8 + 1) as u8 as char,
        ) == super::sextet(c) + 1,
        super::sextet('a') == super::sextet('Z') + 1,
        super::sextet('0') == super::sextet('z') + 1,
        super::sextet('+') == super::sextet('9') + 1,
        super::sextet('/') == super::sextet('+') + 1,
        super::sextet('/') == 63,
        super::sextet(c) < 64 <==> 'A' <= c <= 'Z' || 'a' <= c <= 'z' || '0' <= c <= '9' || c == '+'
            || c == '/',
        0 <= v < 64 ==> super::sextet(super::sextet_char(v)) == v,
        super::sextet(c) < 64 ==> super::sextet_char(super::sextet(c)) == c,
{
}

/// Three bytes are four characters with the same bits, most significant first, and what
/// follows is encoded alike. One or two bytes at the end are encoded as if zeros followed,
/// and the characters that hold nothing but those are padding.
pub proof fn law_four_characters_hold_three_bytes(a: u8, b: u8, c: u8, rest: Seq<u8>)
    ensures
        ({
            let text = super::encoded(seq![a, b, c] + rest);
            let bits = super::sextet(text[0]) * 262144 + super::sextet(text[1]) * 4096
                + super::sextet(text[2]) * 64 + super::sextet(text[3]);
            &&& bits == a * 65536 + b * 256 + c
            &&& forall|i: int| 0 <= i < 4 ==> super::sextet(#[trigger] text[i]) < 64
            &&& text.skip(4) == super::encoded(rest)
            &&& text.len() == 4 + super::encoded(rest).len()
        }),
        super::encoded(Seq::empty()) == Seq::<char>::empty(),
        super::encoded(seq![a]) == super::encoded(seq![a, 0, 0]).take(2) + seq!['=', '='],
        super::encoded(seq![a, b]) == super::encoded(seq![a, b, 0]).take(3) + seq!['='],
{
    let bytes = seq![a, b, c] + rest;
    assert(bytes.skip(3) =~= rest);
    let x = a as int;
    let y = b as int;
    let z = c as int;
    super::lemma_sextet(x / 4);
    super::lemma_sextet(x % 4 * 16 + y / 16);
    super::lemma_sextet(y % 16 * 4 + z / 64);
    super::lemma_sextet(z % 64);
    let text = super::encoded(bytes);
    assert(text.skip(4) =~= super::encoded(rest));
    assert forall|i: int| 0 <= i < 4 implies super::sextet(#[trigger] text[i]) < 64 by {
        if i == 0 {
        } else if i == 1 {
        } else if i == 2 {
        } else {
        }
    }
    assert(super::encoded(seq![a]) =~= super::encoded(seq![a, 0, 0]).take(2) + seq!['=', '=']);
    assert(super::encoded(seq![a, b]) =~= super::encoded(seq![a, b, 0]).take(3) + seq!['=']);
}

proof fn lemma_encoding_inverts_groups(text: Seq<char>)
    ensures
        super::groups(text) matches Some(bytes) ==> super::encoded(bytes) == text,
    decreases text.len(),
{
    if let Some(bytes) = super::groups(text) {
        if text.len() == 0 {
            assert(super::encoded(bytes) =~= text);
        } else {
            let a = super::sextet(text[0]);
            let b = super::sextet(text[1]);
            let c = super::sextet(text[2]);
            let d = super::sextet(text[3]);
            law_the_alphabet_is_in_order(text[0], a);
            law_the_alphabet_is_in_order(text[1], b);
            law_the_alphabet_is_in_order(text[2], c);
            law_the_alphabet_is_in_order(text[3], d);
            assert(bytes[0] == (a * 4 + b / 16) as u8);
            assert(a * 4 + b / 16 < 256);
            if text[2] == '=' {
                assert(bytes.len() == 1);
                assert(super::encoded(bytes) =~= text);
            } else if text[3] == '=' {
                assert(bytes.len() == 2);
                assert(bytes[1] == (b % 16 * 16 + c / 4) as u8);
                assert(super::encoded(bytes) =~= text);
            } else {
                let rest = text.skip(4);
                lemma_encoding_inverts_groups(rest);
                let more = super::groups(rest)->0;
                assert(bytes[1] == (b % 16 * 16 + c / 4) as u8);
                assert(bytes[2] == (c % 4 * 64 + d) as u8);
                assert(bytes.skip(3) =~= more);
                assert(super::encoded(bytes) =~= text);
            }
        }
    }
}

/// Whether a character may stand anywhere in an encoding without meaning anything.
pub open spec fn is_blank(c: char) -> bool {
    c == ' ' || c == '\t' || c == '\n' || c == '\r'
}

/// A text without the characters that mean nothing.
pub open spec fn compact(text: Seq<char>) -> Seq<char>
    decreases text.len(),
{
    if text.len() == 0 {
        text
    } else if is_blank(text.last()) {
        compact(text.drop_last())
    } else {
        compact(text.drop_last()).push(text.last())
    }
}

proof fn lemma_compact(text: Seq<char>)
    ensures
        text.filter(|c: char| !super::is_space(c)) == compact(text),
    decreases text.len(),
{
    reveal(Seq::filter);
    if text.len() > 0 {
        lemma_compact(text.drop_last());
    } else {
        assert(text.filter(|c: char| !super::is_space(c)) =~= text);
    }
}

/// A text stands for bytes exactly if it is their encoding, white space aside: there is no
/// second spelling, and nothing else is accepted.
pub proof fn law_a_text_is_the_encoding_of_its_bytes(text: Seq<char>, bytes: Seq<u8>)
    ensures
        super::decoded(text) == Some(bytes) <==> compact(text) == super::encoded(bytes),
{
    lemma_compact(text);
    lemma_encoding_inverts_groups(compact(text));
    super::lemma_groups(bytes);
}

} // verus!
