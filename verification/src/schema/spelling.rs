//! Which texts spell a null, a boolean or a float, said by rule rather than by list.
//!
//! A word counts in lower case, with a capital, or in capitals. A decimal number is a
//! sign, digits, a fraction and an exponent, one after the other.

use vstd::prelude::*;

use super::{FloatForm, Resolved};
use crate::types::YamlVersion;

verus! {

// ---- words -------------------------------------------------------------

/// A letter in upper case; any other character as it is.
pub open spec fn raised(c: char) -> char {
    if 'a' <= c <= 'z' {
        (c as u8 - 32) as u8 as char
    } else {
        c
    }
}

/// A word with a capital.
pub open spec fn capitalised(word: Seq<char>) -> Seq<char> {
    word.update(0, raised(word[0]))
}

/// A word in capitals.
pub open spec fn in_capitals(word: Seq<char>) -> Seq<char> {
    Seq::new(word.len(), |i: int| raised(word[i]))
}

/// Whether `text` is `lead` and then `word` in lower case, with a capital, or in
/// capitals.
pub open spec fn says(text: Seq<char>, lead: Seq<char>, word: Seq<char>) -> bool {
    ||| text == lead + word
    ||| text == lead + capitalised(word)
    ||| text == lead + in_capitals(word)
}

proof fn lemma_says(lead: Seq<char>, word: Seq<char>, capital: Seq<char>, capitals: Seq<char>)
    requires
        word.len() > 0,
        capital.len() == word.len(),
        capitals.len() == word.len(),
        capital[0] == raised(word[0]),
        forall|i: int| 0 < i < word.len() ==> #[trigger] capital[i] == word[i],
        forall|i: int| 0 <= i < word.len() ==> #[trigger] capitals[i] == raised(word[i]),
    ensures
        forall|text: Seq<char>| #[trigger]
            says(text, lead, word) <==> {
                ||| text == lead + word
                ||| text == lead + capital
                ||| text == lead + capitals
            },
{
    assert(capital =~= capitalised(word));
    assert(capitals =~= in_capitals(word));
}

/// A text is null exactly if it is nothing, a tilde, or the word `null`.
pub proof fn law_null_is_spelled_so(text: Seq<char>)
    ensures
        super::null_text(text) <==> {
            ||| text.len() == 0
            ||| text == seq!['~']
            ||| says(text, Seq::empty(), "null"@)
        },
{
    reveal_strlit("null");
    reveal_strlit("Null");
    reveal_strlit("NULL");
    reveal_strlit("~");
    reveal_strlit("");
    assert("~"@ =~= seq!['~']);
    assert(text.len() == 0 ==> text =~= ""@);
    lemma_says(Seq::empty(), "null"@, "Null"@, "NULL"@);
    assert(Seq::empty() + "null"@ =~= "null"@);
    assert(Seq::empty() + "Null"@ =~= "Null"@);
    assert(Seq::empty() + "NULL"@ =~= "NULL"@);
}

/// A text is true exactly if it is the word `true`, or under YAML 1.1 the word `y`,
/// `yes` or `on`.
pub proof fn law_true_is_spelled_so(text: Seq<char>, version: YamlVersion)
    ensures
        super::bool_value(text, version) == Some(true) <==> {
            ||| says(text, Seq::empty(), "true"@)
            ||| version == YamlVersion::V1_1 && {
                ||| says(text, Seq::empty(), "y"@)
                ||| says(text, Seq::empty(), "yes"@)
                ||| says(text, Seq::empty(), "on"@)
            }
        },
{
    reveal_strlit("true");
    reveal_strlit("True");
    reveal_strlit("TRUE");
    reveal_strlit("y");
    reveal_strlit("Y");
    reveal_strlit("yes");
    reveal_strlit("Yes");
    reveal_strlit("YES");
    reveal_strlit("on");
    reveal_strlit("On");
    reveal_strlit("ON");
    lemma_says(Seq::empty(), "true"@, "True"@, "TRUE"@);
    lemma_says(Seq::empty(), "y"@, "Y"@, "Y"@);
    lemma_says(Seq::empty(), "yes"@, "Yes"@, "YES"@);
    lemma_says(Seq::empty(), "on"@, "On"@, "ON"@);
    assert(Seq::empty() + "true"@ =~= "true"@);
    assert(Seq::empty() + "True"@ =~= "True"@);
    assert(Seq::empty() + "TRUE"@ =~= "TRUE"@);
    assert(Seq::empty() + "y"@ =~= "y"@);
    assert(Seq::empty() + "Y"@ =~= "Y"@);
    assert(Seq::empty() + "yes"@ =~= "yes"@);
    assert(Seq::empty() + "Yes"@ =~= "Yes"@);
    assert(Seq::empty() + "YES"@ =~= "YES"@);
    assert(Seq::empty() + "on"@ =~= "on"@);
    assert(Seq::empty() + "On"@ =~= "On"@);
    assert(Seq::empty() + "ON"@ =~= "ON"@);
}

/// A text is false exactly if it is the word `false`, or under YAML 1.1 the word `n`,
/// `no` or `off`.
pub proof fn law_false_is_spelled_so(text: Seq<char>, version: YamlVersion)
    ensures
        super::bool_value(text, version) == Some(false) <==> {
            ||| says(text, Seq::empty(), "false"@)
            ||| version == YamlVersion::V1_1 && {
                ||| says(text, Seq::empty(), "n"@)
                ||| says(text, Seq::empty(), "no"@)
                ||| says(text, Seq::empty(), "off"@)
            }
        },
{
    super::laws::law_no_text_is_true_and_false(text, version);
    reveal_strlit("false");
    reveal_strlit("False");
    reveal_strlit("FALSE");
    reveal_strlit("n");
    reveal_strlit("N");
    reveal_strlit("no");
    reveal_strlit("No");
    reveal_strlit("NO");
    reveal_strlit("off");
    reveal_strlit("Off");
    reveal_strlit("OFF");
    lemma_says(Seq::empty(), "false"@, "False"@, "FALSE"@);
    lemma_says(Seq::empty(), "n"@, "N"@, "N"@);
    lemma_says(Seq::empty(), "no"@, "No"@, "NO"@);
    lemma_says(Seq::empty(), "off"@, "Off"@, "OFF"@);
    assert(Seq::empty() + "false"@ =~= "false"@);
    assert(Seq::empty() + "False"@ =~= "False"@);
    assert(Seq::empty() + "FALSE"@ =~= "FALSE"@);
    assert(Seq::empty() + "n"@ =~= "n"@);
    assert(Seq::empty() + "N"@ =~= "N"@);
    assert(Seq::empty() + "no"@ =~= "no"@);
    assert(Seq::empty() + "No"@ =~= "No"@);
    assert(Seq::empty() + "NO"@ =~= "NO"@);
    assert(Seq::empty() + "off"@ =~= "off"@);
    assert(Seq::empty() + "Off"@ =~= "Off"@);
    assert(Seq::empty() + "OFF"@ =~= "OFF"@);
}

/// A text is an infinity exactly if it is a sign, a dot and the word `inf`; only the
/// negative one needs its sign.
pub proof fn law_infinity_is_spelled_so(text: Seq<char>)
    ensures
        super::float_value(text) == Some(FloatForm::Infinity) <==> {
            ||| says(text, seq!['.'], "inf"@)
            ||| says(text, seq!['+', '.'], "inf"@)
        },
        super::float_value(text) == Some(FloatForm::NegInfinity) <==> says(
            text,
            seq!['-', '.'],
            "inf"@,
        ),
{
    reveal_strlit("inf");
    reveal_strlit("Inf");
    reveal_strlit("INF");
    lemma_says(seq!['.'], "inf"@, "Inf"@, "INF"@);
    lemma_says(seq!['+', '.'], "inf"@, "Inf"@, "INF"@);
    lemma_says(seq!['-', '.'], "inf"@, "Inf"@, "INF"@);
    lemma_dotted_words();
}

proof fn lemma_dotted_words()
    ensures
        ".inf"@ == seq!['.'] + "inf"@,
        ".Inf"@ == seq!['.'] + "Inf"@,
        ".INF"@ == seq!['.'] + "INF"@,
        "+.inf"@ == seq!['+', '.'] + "inf"@,
        "+.Inf"@ == seq!['+', '.'] + "Inf"@,
        "+.INF"@ == seq!['+', '.'] + "INF"@,
        "-.inf"@ == seq!['-', '.'] + "inf"@,
        "-.Inf"@ == seq!['-', '.'] + "Inf"@,
        "-.INF"@ == seq!['-', '.'] + "INF"@,
        ".nan"@ == seq!['.'] + "nan"@,
        ".NaN"@ == seq!['.'] + "NaN"@,
        ".NAN"@ == seq!['.'] + "NAN"@,
        ".inf"@[1] == 'i' && ".Inf"@[1] == 'I' && ".INF"@[1] == 'I',
        "+.inf"@[0] == '+' && "+.Inf"@[0] == '+' && "+.INF"@[0] == '+',
        "-.inf"@[0] == '-' && "-.Inf"@[0] == '-' && "-.INF"@[0] == '-',
        "+.inf"@[2] == 'i' && "+.Inf"@[2] == 'I' && "+.INF"@[2] == 'I',
        "-.inf"@[2] == 'i' && "-.Inf"@[2] == 'I' && "-.INF"@[2] == 'I',
        ".nan"@[1] == 'n' && ".NaN"@[1] == 'N' && ".NAN"@[1] == 'N',
        ".inf"@.len() == 4 && ".Inf"@.len() == 4 && ".INF"@.len() == 4,
        ".nan"@.len() == 4 && ".NaN"@.len() == 4 && ".NAN"@.len() == 4,
        "+.inf"@.len() == 5 && "+.Inf"@.len() == 5 && "+.INF"@.len() == 5,
        "-.inf"@.len() == 5 && "-.Inf"@.len() == 5 && "-.INF"@.len() == 5,
{
    reveal_strlit("inf");
    reveal_strlit("Inf");
    reveal_strlit("INF");
    reveal_strlit("nan");
    reveal_strlit("NaN");
    reveal_strlit("NAN");
    reveal_strlit(".inf");
    reveal_strlit(".Inf");
    reveal_strlit(".INF");
    reveal_strlit("+.inf");
    reveal_strlit("+.Inf");
    reveal_strlit("+.INF");
    reveal_strlit("-.inf");
    reveal_strlit("-.Inf");
    reveal_strlit("-.INF");
    reveal_strlit(".nan");
    reveal_strlit(".NaN");
    reveal_strlit(".NAN");
    assert(".inf"@ =~= seq!['.'] + "inf"@);
    assert(".Inf"@ =~= seq!['.'] + "Inf"@);
    assert(".INF"@ =~= seq!['.'] + "INF"@);
    assert("+.inf"@ =~= seq!['+', '.'] + "inf"@);
    assert("+.Inf"@ =~= seq!['+', '.'] + "Inf"@);
    assert("+.INF"@ =~= seq!['+', '.'] + "INF"@);
    assert("-.inf"@ =~= seq!['-', '.'] + "inf"@);
    assert("-.Inf"@ =~= seq!['-', '.'] + "Inf"@);
    assert("-.INF"@ =~= seq!['-', '.'] + "INF"@);
    assert(".nan"@ =~= seq!['.'] + "nan"@);
    assert(".NaN"@ =~= seq!['.'] + "NaN"@);
    assert(".NAN"@ =~= seq!['.'] + "NAN"@);
}

/// A text is not-a-number exactly if it is a dot and the word `nan` in lower case, in
/// capitals, or with its outer letters raised; it takes no sign.
pub proof fn law_nan_is_spelled_so(text: Seq<char>)
    ensures
        super::float_value(text) == Some(FloatForm::Nan) <==> {
            ||| text == seq!['.'] + "nan"@
            ||| text == seq!['.'] + in_capitals("nan"@)
            ||| text == seq!['.'] + capitalised("nan"@).update(2, raised('n'))
        },
{
    reveal_strlit("nan");
    reveal_strlit("NaN");
    reveal_strlit("NAN");
    lemma_dotted_words();
    assert("NAN"@ =~= in_capitals("nan"@));
    assert("NaN"@ =~= capitalised("nan"@).update(2, raised('n')));
}

// ---- decimal numbers ---------------------------------------------------

/// Whether every character of `text` is a decimal digit.
pub open spec fn all_digits(text: Seq<char>) -> bool {
    forall|i: int| 0 <= i < text.len() ==> '0' <= #[trigger] text[i] <= '9'
}

/// Whether `text` is nothing or a single sign.
pub open spec fn is_sign(text: Seq<char>) -> bool {
    text.len() == 0 || text == seq!['+'] || text == seq!['-']
}

/// Whether `text` is nothing or a dot and any number of digits.
pub open spec fn is_fraction(text: Seq<char>) -> bool {
    text.len() == 0 || text[0] == '.' && all_digits(text.skip(1))
}

/// Whether `text` is a letter `e`, then `sign`, then at least one digit.
pub open spec fn is_power(text: Seq<char>, sign: Seq<char>) -> bool {
    &&& text.len() > 1 + sign.len()
    &&& text[0] == 'e' || text[0] == 'E'
    &&& is_sign(sign)
    &&& text.subrange(1, 1 + sign.len() as int) == sign
    &&& all_digits(text.skip(1 + sign.len() as int))
}

/// Whether `text` is a sign, a whole part, a fraction and an exponent, with a digit in
/// the whole part or in the fraction.
pub open spec fn is_decimal_spelling(
    text: Seq<char>,
    sign: Seq<char>,
    whole: Seq<char>,
    fraction: Seq<char>,
    power: Seq<char>,
) -> bool {
    &&& text == sign + whole + fraction + power
    &&& is_sign(sign)
    &&& all_digits(whole)
    &&& is_fraction(fraction)
    &&& whole.len() > 0 || fraction.len() > 1
    &&& power.len() == 0 || exists|s: Seq<char>| is_power(power, s)
}

/// Whether `text` spells a decimal number.
pub open spec fn spells_decimal(text: Seq<char>) -> bool {
    exists|sign: Seq<char>, whole: Seq<char>, fraction: Seq<char>, power: Seq<char>|
        is_decimal_spelling(text, sign, whole, fraction, power)
}

/// The digits a text opens with are counted to the first character that is none.
proof fn lemma_counted(digits: Seq<char>, rest: Seq<char>)
    requires
        all_digits(digits),
        rest.len() == 0 || !('0' <= rest[0] <= '9'),
    ensures
        super::digit_count(digits + rest) == digits.len(),
    decreases digits.len(),
{
    let text = digits + rest;
    if digits.len() > 0 {
        let tail = digits.skip(1);
        assert(text[0] == digits[0]);
        assert(text.skip(1) =~= tail + rest);
        assert(all_digits(tail)) by {
            assert forall|i: int| 0 <= i < tail.len() implies '0' <= #[trigger] tail[i] <= '9' by {
                assert(tail[i] == digits[i + 1]);
            }
        }
        lemma_counted(tail, rest);
    } else {
        assert(text =~= rest);
    }
}

/// Where counting stops there is no digit.
proof fn lemma_count_stops(text: Seq<char>)
    ensures
        super::digit_count(text) <= text.len(),
        all_digits(text.take(super::digit_count(text) as int)),
        super::digit_count(text) < text.len() ==> !('0' <= text[super::digit_count(text) as int]
            <= '9'),
    decreases text.len(),
{
    super::lemma_digit_count(text);
    if text.len() > 0 && super::digit_value(text[0]) < 10 {
        lemma_count_stops(text.skip(1));
    }
}

proof fn lemma_power(text: Seq<char>)
    ensures
        super::is_exponent(text) <==> exists|sign: Seq<char>| is_power(text, sign),
{
    if super::is_exponent(text) {
        let tail = text.skip(1);
        let digits = super::without_sign(tail);
        let sign = tail.take(tail.len() - digits.len());
        assert(sign =~= text.subrange(1, 1 + sign.len() as int));
        assert(text.skip(1 + sign.len() as int) =~= digits);
        if sign.len() > 0 {
            assert(sign =~= seq!['+'] || sign =~= seq!['-']);
        }
        assert(is_power(text, sign));
    }
    if exists|sign: Seq<char>| is_power(text, sign) {
        let sign = choose|sign: Seq<char>| is_power(text, sign);
        let tail = text.skip(1);
        let digits = text.skip(1 + sign.len() as int);
        assert(digits[0] == text[1 + sign.len() as int]);
        if sign.len() == 0 {
            assert(tail =~= digits);
        } else {
            assert(text.subrange(1, 1 + sign.len() as int)[0] == text[1]);
            assert(tail.skip(1) =~= digits);
        }
        assert(super::without_sign(tail) =~= digits);
    }
}

/// A text is a decimal number exactly if it is spelled as one.
pub proof fn law_a_decimal_number_is_spelled_so(text: Seq<char>)
    ensures
        super::is_decimal(text) <==> spells_decimal(text),
{
    if super::is_decimal(text) {
        lemma_decimal_parts(text);
    }
    if spells_decimal(text) {
        let (sign, whole, fraction, power) = choose|
            sign: Seq<char>,
            whole: Seq<char>,
            fraction: Seq<char>,
            power: Seq<char>,
        |
            is_decimal_spelling(text, sign, whole, fraction, power);
        lemma_parts_make_a_decimal(text, sign, whole, fraction, power);
    }
}

proof fn lemma_decimal_parts(text: Seq<char>)
    requires
        super::is_decimal(text),
    ensures
        spells_decimal(text),
{
    let body = super::without_sign(text);
    let sign = text.take(text.len() - body.len());
    let count = super::digit_count(body) as int;
    lemma_count_stops(body);
    let whole = body.take(count);
    let after = body.skip(count);
    assert(sign.len() > 0 ==> sign =~= seq!['+'] || sign =~= seq!['-']);
    assert(text =~= sign + body);
    assert(body =~= whole + after);
    let dotted = super::opens_with(after, '.');
    if dotted {
        let tail = after.skip(1);
        let part = super::digit_count(tail) as int;
        lemma_count_stops(tail);
        let fraction = after.take(1 + part);
        let power = after.skip(1 + part);
        assert(fraction.skip(1) =~= tail.take(part));
        assert(after =~= fraction + power);
        assert(text =~= sign + whole + fraction + power);
        lemma_power(power);
        assert(is_decimal_spelling(text, sign, whole, fraction, power));
    } else {
        let fraction = Seq::<char>::empty();
        assert(text =~= sign + whole + fraction + after);
        lemma_power(after);
        assert(is_decimal_spelling(text, sign, whole, fraction, after));
    }
}

proof fn lemma_parts_make_a_decimal(
    text: Seq<char>,
    sign: Seq<char>,
    whole: Seq<char>,
    fraction: Seq<char>,
    power: Seq<char>,
)
    requires
        is_decimal_spelling(text, sign, whole, fraction, power),
    ensures
        super::is_decimal(text),
{
    let after = fraction + power;
    let body = whole + after;
    assert(text =~= sign + body);
    assert(body.len() > 0);
    assert(body[0] == if whole.len() > 0 {
        whole[0]
    } else {
        fraction[0]
    });
    if sign.len() == 0 {
        assert(text =~= body);
    } else {
        assert(text[0] == sign[0]);
        assert(text.skip(1) =~= body);
    }
    assert(super::without_sign(text) =~= body);
    lemma_power(power);
    if fraction.len() == 0 {
        assert(after =~= power);
    } else {
        assert(after[0] == '.');
    }
    lemma_counted(whole, after);
    assert(body.skip(whole.len() as int) =~= after);
    if fraction.len() > 0 {
        let digits = fraction.skip(1);
        lemma_counted(digits, power);
        assert(after.skip(1) =~= digits + power);
        assert(after.skip(1 + digits.len() as int) =~= power);
    }
}

/// A text is an ordinary float exactly if it is spelled as a decimal number.
pub proof fn law_a_float_is_spelled_so(text: Seq<char>)
    ensures
        super::float_value(text) == Some(FloatForm::Number) <==> spells_decimal(text),
{
    law_a_decimal_number_is_spelled_so(text);
    lemma_dotted_words();
    if super::infinity_text(text) || super::neg_infinity_text(text) || super::nan_text(text) {
        let body = super::without_sign(text);
        assert(body.len() > 1);
        assert(body[0] == '.');
        assert(super::digit_value(body[1]) >= 10);
        assert(super::digit_count(body) == 0);
        assert(body.skip(0) =~= body);
        assert(super::digit_count(body.skip(1)) == 0);
    }
}

// ---- resolution --------------------------------------------------------

/// A plain scalar resolves to what it spells. No text spells a null, a boolean and a
/// number at once, so the order of the questions shows only among numbers: an integer
/// that fits is an integer, and any other number is a float.
pub proof fn law_a_plain_scalar_is_what_it_spells(text: Seq<char>, version: YamlVersion, n: int)
    ensures
        super::resolution(text, version) is Null <==> super::null_text(text),
        forall|b: bool|
            super::resolution(text, version) == Resolved::Bool(b) <==> #[trigger] super::bool_value(
                text,
                version,
            ) == Some(b),
        -i64::MAX <= n <= i64::MAX ==> (super::resolution(text, version) == Resolved::I64(n as i64)
            <==> super::writing::spells(text, false, n) || super::writing::spells(text, true, -n)),
        i64::MAX < n <= u64::MAX ==> (super::resolution(text, version) == Resolved::U64(n as u64)
            <==> super::writing::spells(text, false, n)),
        super::resolution(text, version) is I64 <==> super::int_value(text) is Some,
        super::resolution(text, version) is U64 <==> super::int_value(text) is None
            && super::uint_value(text) is Some,
        super::resolution(text, version) is F64 <==> super::int_value(text) is None
            && super::uint_value(text) is None && super::float_value(text) is Some,
        super::resolution(text, version) matches Resolved::F64(form) ==> super::float_value(text)
            == Some(form),
{
    if super::int_value(text) is Some || super::uint_value(text) is Some || super::float_value(
        text,
    ) is Some {
        super::laws::law_a_number_is_no_word(text, version);
    }
    super::laws::law_no_text_is_true_and_false(text, version);
    lemma_null_is_no_boolean(text, version);
    super::writing::law_a_signed_integer_is_spelled_so(text, n);
    super::writing::law_an_unsigned_integer_is_spelled_so(text, n);
    if let Some(m) = super::int_value(text) {
        super::writing::lemma_spelled_magnitude(text, m);
        super::writing::lemma_spelled_magnitude(text, -m);
        super::writing::law_a_signed_integer_is_spelled_so(text, m);
    }
    if let Some(m) = super::uint_value(text) {
        super::writing::lemma_spelled_magnitude(text, m);
        super::writing::law_an_unsigned_integer_is_spelled_so(text, m);
    }
    super::writing::lemma_spelled_magnitude(text, n);
    super::writing::lemma_spelled_magnitude(text, -n);
}

proof fn lemma_null_is_no_boolean(text: Seq<char>, version: YamlVersion)
    ensures
        super::null_text(text) ==> super::bool_value(text, version) is None,
{
    if super::null_text(text) && super::bool_value(text, version) is Some {
        reveal_strlit("null");
        reveal_strlit("Null");
        reveal_strlit("NULL");
        reveal_strlit("~");
        reveal_strlit("");
        lemma_boolean_letters(text, version);
    }
}

/// A boolean has at least one character, and starts with none of `N` followed by `u`,
/// `n` followed by `u`, `N` followed by `U`, or a tilde.
proof fn lemma_boolean_letters(text: Seq<char>, version: YamlVersion)
    requires
        super::bool_value(text, version) is Some,
    ensures
        text.len() > 0,
        text[0] != '~',
        text.len() > 1 && (text[0] == 'n' || text[0] == 'N') ==> text[1] != 'u' && text[1] != 'U',
{
    reveal_strlit("true");
    reveal_strlit("True");
    reveal_strlit("TRUE");
    reveal_strlit("y");
    reveal_strlit("Y");
    reveal_strlit("yes");
    reveal_strlit("Yes");
    reveal_strlit("YES");
    reveal_strlit("on");
    reveal_strlit("On");
    reveal_strlit("ON");
    reveal_strlit("false");
    reveal_strlit("False");
    reveal_strlit("FALSE");
    reveal_strlit("n");
    reveal_strlit("N");
    reveal_strlit("no");
    reveal_strlit("No");
    reveal_strlit("NO");
    reveal_strlit("off");
    reveal_strlit("Off");
    reveal_strlit("OFF");
}

} // verus!
