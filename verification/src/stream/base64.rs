//! Base64, the encoding of `!!binary` scalars.

use vstd::prelude::*;
use vstd::string::*;

pub mod laws;

verus! {

/// The six bits a character stands for, or 64 for any other character.
pub open spec fn sextet(c: char) -> int {
    if 'A' <= c <= 'Z' {
        c as int - 65
    } else if 'a' <= c <= 'z' {
        c as int - 97 + 26
    } else if '0' <= c <= '9' {
        c as int - 48 + 52
    } else if c == '+' {
        62
    } else if c == '/' {
        63
    } else {
        64
    }
}

/// Whether a character is white space, which may stand anywhere in an encoding.
pub open spec fn is_space(c: char) -> bool {
    c == ' ' || c == '\t' || c == '\n' || c == '\r'
}

/// The bytes that groups of four characters stand for.
///
/// Only the last group may be padded, and the bits that its padding leaves over must
/// be zero.
pub open spec fn groups(text: Seq<char>) -> Option<Seq<u8>>
    decreases text.len(),
{
    if text.len() == 0 {
        Some(Seq::empty())
    } else if text.len() < 4 || sextet(text[0]) > 63 || sextet(text[1]) > 63 {
        None
    } else {
        let a = sextet(text[0]);
        let b = sextet(text[1]);
        let first = (a * 4 + b / 16) as u8;
        if text[2] == '=' {
            if text[3] == '=' && text.len() == 4 && b % 16 == 0 {
                Some(seq![first])
            } else {
                None
            }
        } else if sextet(text[2]) > 63 {
            None
        } else {
            let c = sextet(text[2]);
            let second = (b % 16 * 16 + c / 4) as u8;
            if text[3] == '=' {
                if text.len() == 4 && c % 4 == 0 {
                    Some(seq![first, second])
                } else {
                    None
                }
            } else if sextet(text[3]) > 63 {
                None
            } else {
                let third = (c % 4 * 64 + sextet(text[3])) as u8;
                match groups(text.skip(4)) {
                    Some(rest) => Some(seq![first, second, third] + rest),
                    None => None,
                }
            }
        }
    }
}

/// The bytes that an encoding stands for, its white space aside.
pub open spec fn decoded(text: Seq<char>) -> Option<Seq<u8>> {
    groups(text.filter(|c: char| !is_space(c)))
}

/// The six bits a character stands for, or 64 for any other character.
fn sextet_of(c: char) -> (v: u8)
    ensures
        v == sextet(c),
        v <= 64,
{
    if c >= 'A' && c <= 'Z' {
        (c as u8) - 65
    } else if c >= 'a' && c <= 'z' {
        (c as u8) - 97 + 26
    } else if c >= '0' && c <= '9' {
        (c as u8) - 48 + 52
    } else if c == '+' {
        62
    } else if c == '/' {
        63
    } else {
        64
    }
}

/// The characters of a text that are not white space.
fn squeeze(text: &str) -> (kept: Vec<char>)
    ensures
        kept@ == text@.filter(|c: char| !is_space(c)),
{
    let ghost wanted = |c: char| !is_space(c);
    let mut chars = text.chars();
    let mut kept: Vec<char> = Vec::new();
    let mut at: Ghost<int> = Ghost(0);
    proof {
        reveal(Seq::filter);
        assert(text@.skip(0) =~= text@);
        assert(text@.take(0).filter(wanted) =~= Seq::empty());
    }
    loop
        invariant
            wanted == (|c: char| !is_space(c)),
            0 <= at@ <= text@.len(),
            vstd::std_specs::iter::IteratorSpec::remaining(&chars) == text@.skip(at@),
            kept@ == text@.take(at@).filter(wanted),
        decreases text@.len() - at@,
    {
        match chars.next() {
            Some(c) => {
                proof {
                    reveal(Seq::filter);
                    assert(text@.take(at@ + 1).drop_last() =~= text@.take(at@));
                    assert(text@.take(at@ + 1).last() == c);
                    at@ = at@ + 1;
                }
                if !(c == ' ' || c == '\t' || c == '\n' || c == '\r') {
                    kept.push(c);
                }
            },
            None => {
                assert(text@.take(at@) =~= text@);
                return kept;
            },
        }
    }
}

/// Decodes base64, ignoring white space.
pub fn decode(text: &str) -> (bytes: Option<Vec<u8>>)
    ensures
        match bytes {
            Some(b) => decoded(text@) == Some(b@),
            None => decoded(text@) is None,
        },
{
    let chars = squeeze(text);
    let ghost all = chars@;
    let mut out: Vec<u8> = Vec::new();
    let mut i: usize = 0;
    proof {
        assert(all.skip(0) =~= all);
        if let Some(rest) = groups(all) {
            assert(out@ + rest =~= rest);
        }
    }
    while i < chars.len()
        invariant
            chars@ == all,
            decoded(text@) == groups(all),
            i <= all.len(),
            match groups(all.skip(i as int)) {
                Some(rest) => groups(all) == Some(out@ + rest),
                None => groups(all) is None,
            },
        decreases all.len() - i,
    {
        let ghost here = all.skip(i as int);
        let ghost before = out@;
        if chars.len() - i < 4 {
            return None;
        }
        assert(here[0] == all[i as int]);
        assert(here[1] == all[i + 1]);
        assert(here[2] == all[i + 2]);
        assert(here[3] == all[i + 3]);
        let a: u8 = sextet_of(chars[i]);
        let b: u8 = sextet_of(chars[i + 1]);
        let c: u8 = sextet_of(chars[i + 2]);
        let d: u8 = sextet_of(chars[i + 3]);
        if a > 63 || b > 63 {
            return None;
        }
        out.push(a * 4 + b / 16);
        let last = chars.len() - i == 4;
        if chars[i + 2] == '=' {
            if chars[i + 3] == '=' && last && b % 16 == 0 {
                assert(out@ =~= before + seq![((a * 4 + b / 16)) as u8]);
                return Some(out);
            }
            return None;
        }
        if c > 63 {
            return None;
        }
        out.push(b % 16 * 16 + c / 4);
        if chars[i + 3] == '=' {
            if last && c % 4 == 0 {
                assert(out@ =~= before + seq![
                    ((a * 4 + b / 16)) as u8,
                    ((b % 16 * 16 + c / 4)) as u8,
                ]);
                return Some(out);
            }
            return None;
        }
        if d > 63 {
            return None;
        }
        out.push(c % 4 * 64 + d);
        proof {
            assert(here.skip(4) =~= all.skip(i + 4));
            if let Some(rest) = groups(all.skip(i + 4)) {
                assert(out@ + rest =~= before + groups(here)->0);
            }
        }
        i = i + 4;
    }
    proof {
        assert(all.skip(i as int).len() == 0);
        assert(out@ + Seq::<u8>::empty() =~= out@);
    }
    Some(out)
}

// ---- encoding ----------------------------------------------------------

/// The character that stands for six bits.
pub open spec fn sextet_char(v: int) -> char {
    if v < 26 {
        (65 + v) as u8 as char
    } else if v < 52 {
        (97 + v - 26) as u8 as char
    } else if v < 62 {
        (48 + v - 52) as u8 as char
    } else if v == 62 {
        '+'
    } else {
        '/'
    }
}

/// The encoding of bytes: four characters for every three bytes, the last group
/// padded with `=`.
pub open spec fn encoded(bytes: Seq<u8>) -> Seq<char>
    decreases bytes.len(),
{
    if bytes.len() == 0 {
        Seq::empty()
    } else if bytes.len() == 1 {
        let a = bytes[0] as int;
        seq![sextet_char(a / 4), sextet_char(a % 4 * 16), '=', '=']
    } else if bytes.len() == 2 {
        let a = bytes[0] as int;
        let b = bytes[1] as int;
        seq![sextet_char(a / 4), sextet_char(a % 4 * 16 + b / 16), sextet_char(b % 16 * 4), '=']
    } else {
        let a = bytes[0] as int;
        let b = bytes[1] as int;
        let c = bytes[2] as int;
        seq![
            sextet_char(a / 4),
            sextet_char(a % 4 * 16 + b / 16),
            sextet_char(b % 16 * 4 + c / 64),
            sextet_char(c % 64),
        ] + encoded(bytes.skip(3))
    }
}

proof fn lemma_sextet(v: int)
    requires
        0 <= v < 64,
    ensures
        sextet(sextet_char(v)) == v,
        sextet_char(v) != '=',
        !is_space(sextet_char(v)),
{
}

proof fn lemma_groups(bytes: Seq<u8>)
    ensures
        groups(encoded(bytes)) == Some(bytes),
        forall|i: int| 0 <= i < encoded(bytes).len() ==> !is_space(#[trigger] encoded(bytes)[i]),
    decreases bytes.len(),
{
    if bytes.len() == 1 {
        let a = bytes[0] as int;
        lemma_sextet(a / 4);
        lemma_sextet(a % 4 * 16);
        assert(groups(encoded(bytes))->0 =~= bytes);
    } else if bytes.len() == 2 {
        let a = bytes[0] as int;
        let b = bytes[1] as int;
        lemma_sextet(a / 4);
        lemma_sextet(a % 4 * 16 + b / 16);
        lemma_sextet(b % 16 * 4);
        assert(groups(encoded(bytes))->0 =~= bytes);
    } else if bytes.len() > 2 {
        let a = bytes[0] as int;
        let b = bytes[1] as int;
        let c = bytes[2] as int;
        lemma_sextet(a / 4);
        lemma_sextet(a % 4 * 16 + b / 16);
        lemma_sextet(b % 16 * 4 + c / 64);
        lemma_sextet(c % 64);
        lemma_groups(bytes.skip(3));
        let text = encoded(bytes);
        assert(text.skip(4) =~= encoded(bytes.skip(3)));
        assert(groups(text)->0 =~= bytes);
        assert forall|i: int| 0 <= i < text.len() implies !is_space(#[trigger] text[i]) by {
            if i >= 4 {
                assert(text[i] == encoded(bytes.skip(3))[i - 4]);
            }
        }
    } else {
        assert(groups(encoded(bytes))->0 =~= bytes);
    }
}

proof fn lemma_filter_all(text: Seq<char>, wanted: spec_fn(char) -> bool)
    requires
        forall|i: int| 0 <= i < text.len() ==> wanted(#[trigger] text[i]),
    ensures
        text.filter(wanted) == text,
    decreases text.len(),
{
    reveal(Seq::filter);
    if text.len() > 0 {
        lemma_filter_all(text.drop_last(), wanted);
        assert(text.drop_last().push(text.last()) =~= text);
    }
}

/// Decoding gives back what was encoded.
pub proof fn law_decoding_inverts_encoding(bytes: Seq<u8>)
    ensures
        decoded(encoded(bytes)) == Some(bytes),
{
    lemma_groups(bytes);
    lemma_filter_all(encoded(bytes), |c: char| !is_space(c));
}

} // verus!
