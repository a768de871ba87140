//! What scalar resolution promises as a whole.

use vstd::prelude::*;

use super::Resolved;
use crate::types::YamlVersion;

verus! {

/// YAML 1.1 only adds spellings: what is a boolean under 1.2 is the same boolean under
/// 1.1.
pub proof fn law_1_1_extends_1_2(text: Seq<char>)
    ensures
        super::bool_value(text, YamlVersion::V1_2) is Some ==> super::bool_value(
            text,
            YamlVersion::V1_1,
        ) == super::bool_value(text, YamlVersion::V1_2),
{
    lemma_true_is_not_false(text, YamlVersion::V1_1);
}

/// No text spells both booleans.
pub proof fn law_no_text_is_true_and_false(text: Seq<char>, version: YamlVersion)
    ensures
        !(super::true_text(text, version) && super::false_text(text, version)),
{
    lemma_true_is_not_false(text, version);
}

proof fn lemma_true_is_not_false(text: Seq<char>, version: YamlVersion)
    ensures
        !(super::true_text(text, version) && super::false_text(text, version)),
{
    reveal_strlit("true");
    reveal_strlit("True");
    reveal_strlit("TRUE");
    reveal_strlit("y");
    reveal_strlit("Y");
    reveal_strlit("yes");
    reveal_strlit("Yes");
    reveal_strlit("YES");
    reveal_strlit("on");
    reveal_strlit("On");
    reveal_strlit("ON");
    reveal_strlit("false");
    reveal_strlit("False");
    reveal_strlit("FALSE");
    reveal_strlit("n");
    reveal_strlit("N");
    reveal_strlit("no");
    reveal_strlit("No");
    reveal_strlit("NO");
    reveal_strlit("off");
    reveal_strlit("Off");
    reveal_strlit("OFF");
    // The spellings of true open with `t`, `y`, or `o` and then an `n`; those of false
    // open with `f`, `n`, or `o` and then an `f`.
    if super::true_text(text, version) {
        assert(text[0] == 't' || text[0] == 'T' || text[0] == 'y' || text[0] == 'Y' || text.len()
            == 2 && (text[0] == 'o' || text[0] == 'O'));
    }
    if super::false_text(text, version) {
        assert(text[0] == 'f' || text[0] == 'F' || text[0] == 'n' || text[0] == 'N' || text.len()
            == 3 && (text[0] == 'o' || text[0] == 'O'));
    }
}

/// A leading minus never makes an unsigned integer, not even `-0`.
pub proof fn law_unsigned_refuses_a_minus(text: Seq<char>)
    requires
        super::opens_with(text, '-'),
    ensures
        super::uint_value(text) is None,
{
}

/// Signed and unsigned agree: a signed integer without a minus is the same unsigned
/// integer.
pub proof fn law_signed_and_unsigned_agree(text: Seq<char>)
    requires
        super::int_value(text) is Some,
        !super::opens_with(text, '-'),
    ensures
        super::uint_value(text) == super::int_value(text),
{
    let (radix, digits) = super::radix_split(super::without_leading(text, '+'));
    assert(super::is_run(digits, radix));
    assert(super::digit_value('+') == 36);
    assert(super::digit_value(digits[0]) < radix);
    assert(!super::opens_with(digits, '+'));
}

/// A minus negates: before digits it yields the negated value.
pub proof fn law_a_minus_negates(digits: Seq<char>)
    requires
        super::int_value(digits) is Some,
        !super::opens_with(digits, '-'),
        !super::opens_with(digits, '+'),
    ensures
        super::int_value(seq!['-'] + digits) == Some(-super::int_value(digits)->0),
{
    assert((seq!['-'] + digits).skip(1) =~= digits);
}

/// A leading zero selects no base: it changes nothing about a decimal run.
pub proof fn law_a_leading_zero_is_decimal(digits: Seq<char>)
    requires
        super::is_run(digits, 10),
    ensures
        super::int_value(seq!['0'] + digits) == super::int_value(digits),
{
    let longer = seq!['0'] + digits;
    assert(super::digit_value(digits[0]) < 10);
    assert(longer[1] == digits[0]);
    lemma_leading_zero(digits);
    assert forall|i: int| 0 <= i < longer.len() implies super::digit_value(#[trigger] longer[i])
        < 10 by {
        if i > 0 {
            assert(longer[i] == digits[i - 1]);
        }
    }
    if digits.len() > 1 {
        assert(super::digit_value(digits[1]) < 10);
    }
}

proof fn lemma_leading_zero(digits: Seq<char>)
    ensures
        super::run_value(seq!['0'] + digits, 10) == super::run_value(digits, 10),
    decreases digits.len(),
{
    let longer = seq!['0'] + digits;
    if digits.len() > 0 {
        lemma_leading_zero(digits.drop_last());
        assert(longer.drop_last() =~= seq!['0'] + digits.drop_last());
    } else {
        assert(longer.drop_last() =~= Seq::empty());
        assert(super::run_value(longer.drop_last(), 10) == 0);
    }
}

/// Only text with a digit in it resolves as an ordinary float, so no bare word does:
/// `inf`, `infinity` and `nan` stay text.
pub proof fn law_a_number_has_a_digit(text: Seq<char>)
    requires
        super::is_decimal(text),
    ensures
        exists|i: int| 0 <= i < text.len() && super::digit_value(#[trigger] text[i]) < 10,
{
    let body = super::without_sign(text);
    let whole = super::digit_count(body);
    let after = body.skip(whole as int);
    let offset = text.len() - body.len();
    super::lemma_digit_count(body);
    if whole > 0 {
        assert(body[0] == text[offset]);
        assert(super::digit_value(body[0]) < 10);
    } else {
        let tail = after.skip(1);
        super::lemma_digit_count(tail);
        assert(super::digit_value(tail[0]) < 10);
        assert(tail[0] == body[1]);
        assert(body[1] == text[offset + 1]);
    }
}

/// A decimal integer is a float as well: a float target takes whole numbers.
pub proof fn law_decimal_integers_are_floats(text: Seq<char>)
    requires
        super::is_run(super::without_sign(text), 10),
    ensures
        super::is_decimal(text),
{
    let body = super::without_sign(text);
    super::lemma_digit_count_of_run(body);
    assert(body.skip(body.len() as int).len() == 0);
}

/// No number spells a null or a boolean.
pub proof fn law_a_number_is_no_word(text: Seq<char>, version: YamlVersion)
    requires
        super::int_value(text) is Some || super::uint_value(text) is Some
            || super::float_value(text) is Some,
    ensures
        !super::null_text(text),
        super::bool_value(text, version) is None,
{
    if super::null_text(text) || super::bool_value(text, version) is Some {
        lemma_words_hold_no_digit(text, version);
        if super::float_value(text) is Some {
            lemma_a_float_holds_a_digit_or_a_dot(text);
        } else {
            lemma_an_integer_holds_a_digit(text);
        }
    }
}

/// Whether a character can stand in a number but in no null and no boolean.
spec fn numeric(c: char) -> bool {
    super::digit_value(c) < 10 || c == '.'
}

proof fn lemma_words_hold_no_digit(text: Seq<char>, version: YamlVersion)
    requires
        super::null_text(text) || super::bool_value(text, version) is Some,
    ensures
        forall|i: int| 0 <= i < text.len() ==> !numeric(#[trigger] text[i]),
{
    reveal_strlit("null");
    reveal_strlit("Null");
    reveal_strlit("NULL");
    reveal_strlit("~");
    reveal_strlit("");
    reveal_strlit("true");
    reveal_strlit("True");
    reveal_strlit("TRUE");
    reveal_strlit("y");
    reveal_strlit("Y");
    reveal_strlit("yes");
    reveal_strlit("Yes");
    reveal_strlit("YES");
    reveal_strlit("on");
    reveal_strlit("On");
    reveal_strlit("ON");
    reveal_strlit("false");
    reveal_strlit("False");
    reveal_strlit("FALSE");
    reveal_strlit("n");
    reveal_strlit("N");
    reveal_strlit("no");
    reveal_strlit("No");
    reveal_strlit("NO");
    reveal_strlit("off");
    reveal_strlit("Off");
    reveal_strlit("OFF");
}

proof fn lemma_an_integer_holds_a_digit(text: Seq<char>)
    requires
        super::int_value(text) is Some || super::uint_value(text) is Some,
    ensures
        exists|i: int| 0 <= i < text.len() && numeric(#[trigger] text[i]),
{
    let signed = super::opens_with(text, '-') || super::opens_with(text, '+');
    let body = if signed {
        text.skip(1)
    } else {
        text
    };
    let (radix, digits) = super::radix_split(body);
    assert(super::is_run(digits, radix));
    assert(super::digit_value(digits[0]) < radix);
    if signed {
        assert(numeric(text[1]));
    } else {
        assert(numeric(text[0]));
    }
}

proof fn lemma_a_float_holds_a_digit_or_a_dot(text: Seq<char>)
    requires
        super::float_value(text) is Some,
    ensures
        exists|i: int| 0 <= i < text.len() && numeric(#[trigger] text[i]),
{
    reveal_strlit(".inf");
    reveal_strlit(".Inf");
    reveal_strlit(".INF");
    reveal_strlit("+.inf");
    reveal_strlit("+.Inf");
    reveal_strlit("+.INF");
    reveal_strlit("-.inf");
    reveal_strlit("-.Inf");
    reveal_strlit("-.INF");
    reveal_strlit(".nan");
    reveal_strlit(".NaN");
    reveal_strlit(".NAN");
    if super::is_decimal(text) {
        law_a_number_has_a_digit(text);
        let i = choose|i: int|
            0 <= i < text.len() && super::digit_value(#[trigger] text[i]) < 10;
        assert(numeric(text[i]));
    } else if text[0] == '.' {
        assert(numeric(text[0]));
    } else {
        assert(numeric(text[1]));
    }
}

/// What a plain scalar resolves to says what the single resolvers say: null first, then
/// booleans, integers, floats, and text last.
pub proof fn law_resolution_follows_the_resolvers(text: Seq<char>, version: YamlVersion)
    ensures
        super::resolution(text, version) is Null <==> super::null_text(text),
        super::resolution(text, version) matches Resolved::Bool(b) ==> super::bool_value(
            text,
            version,
        ) == Some(b),
        super::resolution(text, version) matches Resolved::I64(i) ==> super::int_value(text)
            matches Some(n) && i == n as i64,
        super::resolution(text, version) matches Resolved::U64(u) ==> super::int_value(text) is None
            && (super::uint_value(text) matches Some(n) && u == n as u64),
        super::resolution(text, version) matches Resolved::F64(form) ==> super::float_value(text)
            == Some(form),
        super::resolution(text, version) is Str ==> !super::null_text(text) && super::bool_value(
            text,
            version,
        ) is None && super::int_value(text) is None && super::uint_value(text) is None
            && super::float_value(text) is None,
{
}

} // verus!
