//! YAML 1.2 Core Schema scalar resolution.
//!
//! Answers the question "what type is this plain scalar?" -- is `0x1F` an
//! integer, is `yes` a boolean, is `inf` a float -- for every consumer.
//!
//! **Implicit resolution only.** An explicit tag overrides these answers, and so
//! does presentation style: a quoted scalar is always a string. Neither is visible
//! here, so the caller that can see the tag and the style must check them first.

use vstd::prelude::*;
use vstd::utf8::*;

use crate::text::{ascii_bytes, same_text};
use crate::types::YamlVersion;

pub mod laws;
pub mod spelling;
pub mod writing;

verus! {

// ---- null --------------------------------------------------------------

/// The null production: `null`, `Null`, `NULL`, `~` or nothing at all.
pub open spec fn null_text(text: Seq<char>) -> bool {
    ||| text == "null"@
    ||| text == "Null"@
    ||| text == "NULL"@
    ||| text == "~"@
    ||| text == ""@
}

/// Returns `true` if `value` is the YAML 1.2 null production.
///
/// The empty case is why the caller must check presentation style first: an
/// empty *plain* scalar is null, but an empty *quoted* scalar is the empty string.
pub fn is_null(value: &str) -> (b: bool)
    ensures
        b == null_text(value@),
{
    same_text(value, "null") || same_text(value, "Null") || same_text(value, "NULL") || same_text(
        value,
        "~",
    ) || same_text(value, "")
}

// ---- booleans ----------------------------------------------------------

/// The spellings of true: three always, eight more under YAML 1.1.
pub open spec fn true_text(text: Seq<char>, version: YamlVersion) -> bool {
    ||| text == "true"@
    ||| text == "True"@
    ||| text == "TRUE"@
    ||| version == YamlVersion::V1_1 && {
        ||| text == "y"@
        ||| text == "Y"@
        ||| text == "yes"@
        ||| text == "Yes"@
        ||| text == "YES"@
        ||| text == "on"@
        ||| text == "On"@
        ||| text == "ON"@
    }
}

/// The spellings of false: three always, eight more under YAML 1.1.
pub open spec fn false_text(text: Seq<char>, version: YamlVersion) -> bool {
    ||| text == "false"@
    ||| text == "False"@
    ||| text == "FALSE"@
    ||| version == YamlVersion::V1_1 && {
        ||| text == "n"@
        ||| text == "N"@
        ||| text == "no"@
        ||| text == "No"@
        ||| text == "NO"@
        ||| text == "off"@
        ||| text == "Off"@
        ||| text == "OFF"@
    }
}

/// The boolean a text spells, if it spells one.
pub open spec fn bool_value(text: Seq<char>, version: YamlVersion) -> Option<bool> {
    if true_text(text, version) {
        Some(true)
    } else if false_text(text, version) {
        Some(false)
    } else {
        None
    }
}

/// Resolves `value` as a boolean under the given YAML version.
///
/// Matching is **case-sensitive** against the enumerated spellings: `tRuE` is not
/// among them. Under [`YamlVersion::V1_1`] the extended vocabulary -- `y`, `yes`,
/// `on` and their negatives -- resolves as well; under [`YamlVersion::V1_2`] those
/// are strings.
pub fn resolve_bool(value: &str, version: YamlVersion) -> (b: Option<bool>)
    ensures
        b == bool_value(value@, version),
{
    let extended = version.is_1_1();
    if same_text(value, "true") || same_text(value, "True") || same_text(value, "TRUE") || (extended
        && (same_text(value, "y") || same_text(value, "Y") || same_text(value, "yes") || same_text(
        value,
        "Yes",
    ) || same_text(value, "YES") || same_text(value, "on") || same_text(value, "On") || same_text(
        value,
        "ON",
    ))) {
        return Some(true);
    }
    if same_text(value, "false") || same_text(value, "False") || same_text(value, "FALSE") || (
    extended && (same_text(value, "n") || same_text(value, "N") || same_text(value, "no")
        || same_text(value, "No") || same_text(value, "NO") || same_text(value, "off") || same_text(
        value,
        "Off",
    ) || same_text(value, "OFF"))) {
        return Some(false);
    }
    None
}

// ---- digits ------------------------------------------------------------

/// What a character is worth as a digit; 36 when it is not one in any base.
pub open spec fn digit_value(c: char) -> int {
    if '0' <= c <= '9' {
        c as int - '0' as int
    } else if 'a' <= c <= 'z' {
        c as int - 'a' as int + 10
    } else if 'A' <= c <= 'Z' {
        c as int - 'A' as int + 10
    } else {
        36
    }
}

/// A non-empty run of digits of the given base.
pub open spec fn is_run(text: Seq<char>, radix: int) -> bool {
    &&& text.len() > 0
    &&& forall|i: int| 0 <= i < text.len() ==> digit_value(#[trigger] text[i]) < radix
}

/// The number a run of digits denotes, most significant digit first.
pub open spec fn run_value(text: Seq<char>, radix: int) -> int
    decreases text.len(),
{
    if text.len() == 0 {
        0
    } else {
        run_value(text.drop_last(), radix) * radix + digit_value(text.last())
    }
}

/// The number a text denotes in the given base, if it is a run of its digits.
pub open spec fn number(text: Seq<char>, radix: int) -> Option<int> {
    if is_run(text, radix) {
        Some(run_value(text, radix))
    } else {
        None
    }
}

/// Whether `text` opens with `c`.
pub open spec fn opens_with(text: Seq<char>, c: char) -> bool {
    text.len() > 0 && text[0] == c
}

/// `text` without one leading `c`, if it has one.
pub open spec fn without_leading(text: Seq<char>, c: char) -> Seq<char> {
    if opens_with(text, c) {
        text.skip(1)
    } else {
        text
    }
}

/// The base a text selects, and the digits that follow the prefix.
///
/// `0x`/`0X` selects base 16 and `0o`/`0O` base 8. A bare leading zero selects
/// nothing: `017` is seventeen.
pub open spec fn radix_split(text: Seq<char>) -> (int, Seq<char>) {
    if text.len() >= 2 && text[0] == '0' && (text[1] == 'x' || text[1] == 'X') {
        (16, text.skip(2))
    } else if text.len() >= 2 && text[0] == '0' && (text[1] == 'o' || text[1] == 'O') {
        (8, text.skip(2))
    } else {
        (10, text)
    }
}

/// The signed integer a text spells: an optional sign, then a decimal,
/// hexadecimal or octal run, whose magnitude fits an `i64`.
pub open spec fn int_value(text: Seq<char>) -> Option<int> {
    let negative = opens_with(text, '-');
    let body = if negative {
        text.skip(1)
    } else {
        without_leading(text, '+')
    };
    let (radix, digits) = radix_split(body);
    match number(digits, radix) {
        Some(m) => if m <= i64::MAX {
            Some(
                if negative {
                    -m
                } else {
                    m
                },
            )
        } else {
            None
        },
        None => None,
    }
}

/// The unsigned integer a text spells: an optional `+`, never a `-`, then a decimal,
/// hexadecimal or octal run, whose value fits a `u64`.
pub open spec fn uint_value(text: Seq<char>) -> Option<int> {
    if opens_with(text, '-') {
        None
    } else {
        let (radix, digits) = radix_split(without_leading(text, '+'));
        match number(digits, radix) {
            Some(m) => if m <= u64::MAX {
                Some(m)
            } else {
                None
            },
            None => None,
        }
    }
}

/// The sequence index a path segment spells: an optional `+`, then decimal digits.
pub open spec fn index_value(text: Seq<char>) -> Option<int> {
    match number(without_leading(text, '+'), 10) {
        Some(m) => if m <= usize::MAX {
            Some(m)
        } else {
            None
        },
        None => None,
    }
}

proof fn lemma_run_value_bounds(text: Seq<char>, radix: int)
    requires
        radix > 0,
    ensures
        run_value(text, radix) >= 0,
    decreases text.len(),
{
    if text.len() > 0 {
        lemma_run_value_bounds(text.drop_last(), radix);
        assert(run_value(text.drop_last(), radix) * radix >= 0) by (nonlinear_arith)
            requires
                run_value(text.drop_last(), radix) >= 0,
                radix > 0,
        ;
    }
}

/// A run is worth at least as much as any run it begins with.
proof fn lemma_run_value_grows(text: Seq<char>, k: int, radix: int)
    requires
        radix > 0,
        0 <= k <= text.len(),
    ensures
        run_value(text.take(k), radix) <= run_value(text, radix),
    decreases text.len() - k,
{
    if k < text.len() {
        lemma_run_value_grows(text, k + 1, radix);
        assert(text.take(k + 1).drop_last() =~= text.take(k));
        lemma_run_value_bounds(text.take(k), radix);
        let v = run_value(text.take(k), radix);
        assert(v * radix >= v) by (nonlinear_arith)
            requires
                v >= 0,
                radix > 0,
        ;
    } else {
        assert(text.take(k) =~= text);
    }
}

/// What a byte is worth as a digit.
fn digit(b: u8) -> (d: u8)
    ensures
        b < 128 ==> d == digit_value(b as char),
        d <= 36,
{
    if b >= 48 && b <= 57 {
        b - 48
    } else if b >= 97 && b <= 122 {
        b - 97 + 10
    } else if b >= 65 && b <= 90 {
        b - 65 + 10
    } else {
        36
    }
}

/// Reads the digits from `from` to the end of the text, refusing values past `max`.
fn read_run(bytes: &[u8], Ghost(text): Ghost<Seq<char>>, from: usize, radix: u8, max: u64) -> (v:
    Option<u64>)
    requires
        crate::text::is_ascii_of(bytes@, text),
        from <= text.len(),
        2 <= radix <= 16,
    ensures
        match number(text.skip(from as int), radix as int) {
            Some(m) => if m <= max {
                v == Some(m as u64)
            } else {
                v is None
            },
            None => v is None,
        },
{
    let ghost digits = text.skip(from as int);
    if from == bytes.len() {
        return None;
    }
    let mut total: u64 = 0;
    let mut i: usize = from;
    while i < bytes.len()
        invariant
            crate::text::is_ascii_of(bytes@, text),
            digits == text.skip(from as int),
            from <= i <= bytes@.len(),
            2 <= radix <= 16,
            total <= max,
            total == run_value(digits.take(i - from), radix as int),
            forall|k: int| 0 <= k < i - from ==> digit_value(#[trigger] digits[k]) < radix,
        decreases bytes@.len() - i,
    {
        let d: u8 = digit(bytes[i]);
        assert(bytes@[i as int] < 128);
        assert(digits[i - from] == text[i as int]);
        if d >= radix {
            return None;
        }
        assert(total * radix <= 16 * u64::MAX) by (nonlinear_arith)
            requires
                total <= u64::MAX,
                radix <= 16,
        ;
        let wide: u128 = (total as u128) * (radix as u128) + (d as u128);
        proof {
            let next = digits.take(i - from + 1);
            assert(next.drop_last() =~= digits.take(i - from));
            assert(next.last() == digits[i - from]);
            lemma_run_value_grows(digits, i - from + 1, radix as int);
        }
        if wide > max as u128 {
            return None;
        }
        total = wide as u64;
        i = i + 1;
    }
    proof {
        assert(digits.take(i - from) =~= digits);
    }
    Some(total)
}

/// The base the text selects from `from` on, and where its digits start.
fn read_radix(bytes: &[u8], Ghost(text): Ghost<Seq<char>>, from: usize) -> (r: (u8, usize))
    requires
        crate::text::is_ascii_of(bytes@, text),
        from <= text.len(),
    ensures
        from <= r.1 <= text.len(),
        (r.0 as int, text.skip(r.1 as int)) == radix_split(text.skip(from as int)),
        2 <= r.0 <= 16,
{
    let ghost body = text.skip(from as int);
    if bytes.len() - from >= 2 && bytes[from] == 48 {
        let b: u8 = bytes[from + 1];
        assert(body[0] == text[from as int] && body[1] == text[from + 1]);
        assert(body.skip(2) =~= text.skip(from + 2));
        if b == 120 || b == 88 {
            return (16, from + 2);
        }
        if b == 111 || b == 79 {
            return (8, from + 2);
        }
    }
    assert(body.len() > 0 ==> body[0] == text[from as int]);
    (10, from)
}

/// A text with a character outside ASCII is no run of digits in any base.
proof fn lemma_run_is_ascii(text: Seq<char>, from: int, radix: int)
    requires
        0 <= from <= text.len(),
        is_run(text.skip(from), radix),
        radix <= 36,
    ensures
        forall|i: int| from <= i < text.len() ==> '\0' <= #[trigger] text[i] <= '\u{7f}',
{
    assert forall|i: int| from <= i < text.len() implies '\0' <= #[trigger] text[i] <= '\u{7f}' by {
        assert(text.skip(from)[i - from] == text[i]);
    }
}

/// Resolves `value` as a signed integer.
///
/// Accepts an optional `+`/`-` sign, then either a decimal run, a `0x`/`0X`
/// hexadecimal run, or a `0o`/`0O` octal run. A bare leading zero is **not**
/// octal: `017` is seventeen, not fifteen.
pub fn resolve_int(value: &str) -> (v: Option<i64>)
    ensures
        match int_value(value@) {
            Some(n) => v == Some(n as i64),
            None => v is None,
        },
        int_value(value@) matches Some(n) ==> i64::MIN < n <= i64::MAX,
{
    let ghost text = value@;
    let bytes: &[u8] = match ascii_bytes(value) {
        Some(b) => b,
        None => {
            proof {
                lemma_integers_are_ascii(text);
            }
            return None;
        },
    };
    let negative = bytes.len() > 0 && bytes[0] == 45;
    let signed = negative || (bytes.len() > 0 && bytes[0] == 43);
    let from: usize = if signed {
        1
    } else {
        0
    };
    assert(text.skip(0) =~= text);
    let (radix, at) = read_radix(bytes, Ghost(text), from);
    proof {
        lemma_run_value_bounds(text.skip(at as int), radix as int);
    }
    let abs: u64 = match read_run(bytes, Ghost(text), at, radix, i64::MAX as u64) {
        Some(m) => m,
        None => return None,
    };
    if negative {
        Some(-(abs as i64))
    } else {
        Some(abs as i64)
    }
}

/// Neither kind of integer contains a character outside ASCII.
proof fn lemma_integers_are_ascii(text: Seq<char>)
    ensures
        int_value(text) is Some ==> is_ascii_chars(text),
        uint_value(text) is Some ==> is_ascii_chars(text),
{
    assert(text.skip(0) =~= text);
    let from: int = if opens_with(text, '-') || opens_with(text, '+') {
        1
    } else {
        0
    };
    let body = text.skip(from);
    let (radix, digits) = radix_split(body);
    let at = from + (body.len() - digits.len());
    assert(text.skip(at) =~= digits);
    assert(body.len() > 0 ==> body[0] == text[from]);
    assert(body.len() > 1 ==> body[1] == text[from + 1]);
    if is_run(digits, radix) {
        lemma_run_is_ascii(text, at, radix);
    }
}

/// Resolves `value` as an unsigned integer.
///
/// Refuses a leading `-` outright rather than parsing and then rejecting, so
/// `-0` cannot slip through as zero. One leading `+` is allowed, as for a signed
/// integer.
pub fn resolve_uint(value: &str) -> (v: Option<u64>)
    ensures
        match uint_value(value@) {
            Some(n) => v == Some(n as u64),
            None => v is None,
        },
        uint_value(value@) matches Some(n) ==> 0 <= n <= u64::MAX,
{
    let ghost text = value@;
    let bytes: &[u8] = match ascii_bytes(value) {
        Some(b) => b,
        None => {
            proof {
                lemma_integers_are_ascii(text);
            }
            return None;
        },
    };
    if bytes.len() > 0 && bytes[0] == 45 {
        return None;
    }
    let from: usize = if bytes.len() > 0 && bytes[0] == 43 {
        1
    } else {
        0
    };
    assert(text.skip(0) =~= text);
    let (radix, at) = read_radix(bytes, Ghost(text), from);
    proof {
        lemma_run_value_bounds(text.skip(at as int), radix as int);
    }
    read_run(bytes, Ghost(text), at, radix, u64::MAX)
}

/// Reads a path segment as a sequence index.
pub fn resolve_index(value: &str) -> (v: Option<usize>)
    ensures
        match index_value(value@) {
            Some(n) => v == Some(n as usize),
            None => v is None,
        },
        index_value(value@) matches Some(n) ==> 0 <= n <= usize::MAX,
{
    let ghost text = value@;
    assert(text.skip(0) =~= text);
    let bytes: &[u8] = match ascii_bytes(value) {
        Some(b) => b,
        None => {
            proof {
                let from: int = if opens_with(text, '+') {
                    1
                } else {
                    0
                };
                if is_run(text.skip(from), 10) {
                    lemma_run_is_ascii(text, from, 10);
                }
            }
            return None;
        },
    };
    let from: usize = if bytes.len() > 0 && bytes[0] == 43 {
        1
    } else {
        0
    };
    proof {
        lemma_run_value_bounds(text.skip(from as int), 10);
    }
    match read_run(bytes, Ghost(text), from, 10, usize::MAX as u64) {
        Some(m) => Some(m as usize),
        None => None,
    }
}

// ---- floats ------------------------------------------------------------

/// The float a text spells.
///
/// The number itself is left to whoever asks for it: `Number` says that the text
/// is one, in a form the standard parser accepts.
#[derive(Debug, Clone, Copy, PartialEq, Eq, Structural)]
pub enum FloatForm {
    /// Positive infinity: `.inf`, `.Inf` or `.INF`, with an optional `+`.
    Infinity,
    /// Negative infinity: `-.inf`, `-.Inf` or `-.INF`.
    NegInfinity,
    /// Not a number: `.nan`, `.NaN` or `.NAN`.
    Nan,
    /// An ordinary decimal number.
    Number,
}

/// The spellings of positive infinity.
pub open spec fn infinity_text(text: Seq<char>) -> bool {
    ||| text == ".inf"@
    ||| text == ".Inf"@
    ||| text == ".INF"@
    ||| text == "+.inf"@
    ||| text == "+.Inf"@
    ||| text == "+.INF"@
}

/// The spellings of negative infinity.
pub open spec fn neg_infinity_text(text: Seq<char>) -> bool {
    ||| text == "-.inf"@
    ||| text == "-.Inf"@
    ||| text == "-.INF"@
}

/// The spellings of not-a-number.
pub open spec fn nan_text(text: Seq<char>) -> bool {
    ||| text == ".nan"@
    ||| text == ".NaN"@
    ||| text == ".NAN"@
}

/// How many decimal digits a text opens with.
pub open spec fn digit_count(text: Seq<char>) -> nat
    decreases text.len(),
{
    if text.len() > 0 && digit_value(text[0]) < 10 {
        1 + digit_count(text.skip(1))
    } else {
        0
    }
}

/// A text without one leading sign, if it has one.
pub open spec fn without_sign(text: Seq<char>) -> Seq<char> {
    if opens_with(text, '+') || opens_with(text, '-') {
        text.skip(1)
    } else {
        text
    }
}

/// An exponent: `e` or `E`, an optional sign, then decimal digits.
pub open spec fn is_exponent(text: Seq<char>) -> bool {
    &&& opens_with(text, 'e') || opens_with(text, 'E')
    &&& is_run(without_sign(text.skip(1)), 10)
}

/// A decimal number: an optional sign, digits with at most one dot among or
/// beside them, and an optional exponent.
pub open spec fn is_decimal(text: Seq<char>) -> bool {
    let body = without_sign(text);
    let whole = digit_count(body);
    let after = body.skip(whole as int);
    let dotted = opens_with(after, '.');
    let part = if dotted {
        digit_count(after.skip(1))
    } else {
        0
    };
    let rest = if dotted {
        after.skip(1 + part as int)
    } else {
        after
    };
    &&& whole + part > 0
    &&& rest.len() == 0 || is_exponent(rest)
}

/// The float form of a text, if it spells a float.
///
/// The infinities and the not-a-number need their leading dot, and come in the
/// enumerated spellings only. Bare `inf`, `infinity` and `nan` are text, and so is
/// `.iNf`.
pub open spec fn float_value(text: Seq<char>) -> Option<FloatForm> {
    if infinity_text(text) {
        Some(FloatForm::Infinity)
    } else if neg_infinity_text(text) {
        Some(FloatForm::NegInfinity)
    } else if nan_text(text) {
        Some(FloatForm::Nan)
    } else if is_decimal(text) {
        Some(FloatForm::Number)
    } else {
        None
    }
}

/// How many decimal digits the text has from `from` on.
fn count_digits(bytes: &[u8], Ghost(text): Ghost<Seq<char>>, from: usize) -> (n: usize)
    requires
        crate::text::is_ascii_of(bytes@, text),
        from <= text.len(),
    ensures
        n == digit_count(text.skip(from as int)),
        from + n <= text.len(),
{
    let mut i: usize = from;
    while i < bytes.len()
        invariant
            crate::text::is_ascii_of(bytes@, text),
            from <= i <= text.len(),
            digit_count(text.skip(from as int)) == (i - from) + digit_count(text.skip(i as int)),
        decreases text.len() - i,
    {
        assert(bytes@[i as int] < 128);
        assert(text.skip(i as int)[0] == text[i as int]);
        if digit(bytes[i]) >= 10 {
            return i - from;
        }
        assert(text.skip(i as int).skip(1) =~= text.skip(i + 1));
        i = i + 1;
    }
    i - from
}

/// The digits a text opens with are ASCII and within the text.
proof fn lemma_digit_count(text: Seq<char>)
    ensures
        digit_count(text) <= text.len(),
        forall|i: int| 0 <= i < digit_count(text) ==> digit_value(#[trigger] text[i]) < 10,
    decreases text.len(),
{
    if text.len() > 0 && digit_value(text[0]) < 10 {
        lemma_digit_count(text.skip(1));
        assert forall|i: int| 0 <= i < digit_count(text) implies digit_value(#[trigger] text[i])
            < 10 by {
            if i > 0 {
                assert(text.skip(1)[i - 1] == text[i]);
            }
        }
    }
}

/// A text is ASCII when its first characters and the rest are.
proof fn lemma_ascii_parts(text: Seq<char>, at: int)
    requires
        0 <= at <= text.len(),
        forall|i: int| 0 <= i < at ==> '\0' <= #[trigger] text[i] <= '\u{7f}',
        is_ascii_chars(text.skip(at)),
    ensures
        is_ascii_chars(text),
{
    assert forall|i: int| 0 <= i < text.len() implies '\0' <= #[trigger] text[i] <= '\u{7f}' by {
        if i >= at {
            assert(text.skip(at)[i - at] == text[i]);
        }
    }
}

/// An exponent has no character outside ASCII.
proof fn lemma_exponent_is_ascii(text: Seq<char>)
    requires
        is_exponent(text),
    ensures
        is_ascii_chars(text),
{
    let tail = text.skip(1);
    let digits = without_sign(tail);
    assert(digits.skip(0) =~= digits);
    lemma_run_is_ascii(digits, 0, 10);
    if tail != digits {
        lemma_ascii_parts(tail, 1);
    }
    lemma_ascii_parts(text, 1);
}

/// A decimal number has no character outside ASCII.
proof fn lemma_decimal_is_ascii(text: Seq<char>)
    requires
        is_decimal(text),
    ensures
        is_ascii_chars(text),
{
    let body = without_sign(text);
    let whole = digit_count(body);
    let after = body.skip(whole as int);
    lemma_digit_count(body);
    if opens_with(after, '.') {
        let tail = after.skip(1);
        let part = digit_count(tail);
        let rest = tail.skip(part as int);
        lemma_digit_count(tail);
        assert(rest =~= after.skip(1 + part as int));
        if rest.len() > 0 {
            lemma_exponent_is_ascii(rest);
        }
        lemma_ascii_parts(tail, part as int);
        lemma_ascii_parts(after, 1);
    } else if after.len() > 0 {
        lemma_exponent_is_ascii(after);
    }
    lemma_ascii_parts(body, whole as int);
    if text != body {
        lemma_ascii_parts(text, 1);
    }
}

/// Whether `value` is a decimal number.
fn is_decimal_text(value: &str) -> (b: bool)
    ensures
        b == is_decimal(value@),
{
    let ghost text = value@;
    let bytes: &[u8] = match ascii_bytes(value) {
        Some(b) => b,
        None => {
            proof {
                if is_decimal(text) {
                    lemma_decimal_is_ascii(text);
                }
            }
            return false;
        },
    };
    assert(text.skip(0) =~= text);
    let from: usize = if bytes.len() > 0 && (bytes[0] == 43 || bytes[0] == 45) {
        1
    } else {
        0
    };
    let ghost body = text.skip(from as int);
    assert(body == without_sign(text));
    let whole: usize = count_digits(bytes, Ghost(text), from);
    let dot: usize = from + whole;
    let ghost after = body.skip(whole as int);
    assert(after =~= text.skip(dot as int));
    assert(after.len() > 0 ==> after[0] == text[dot as int]);
    let dotted = dot < bytes.len() && bytes[dot] == 46;
    assert(dotted == opens_with(after, '.'));
    let part: usize = if dotted {
        assert(after.skip(1) =~= text.skip(dot + 1));
        count_digits(bytes, Ghost(text), dot + 1)
    } else {
        0
    };
    if whole == 0 && part == 0 {
        return false;
    }
    let at: usize = if dotted {
        dot + 1 + part
    } else {
        dot
    };
    let ghost rest = text.skip(at as int);
    assert(dotted ==> rest =~= after.skip(1 + part as int));
    at == bytes.len() || is_exponent_from(bytes, Ghost(text), at)
}

/// Whether the text is an exponent from `at` on.
fn is_exponent_from(bytes: &[u8], Ghost(text): Ghost<Seq<char>>, at: usize) -> (b: bool)
    requires
        crate::text::is_ascii_of(bytes@, text),
        at < text.len(),
    ensures
        b == is_exponent(text.skip(at as int)),
{
    let ghost rest = text.skip(at as int);
    assert(rest[0] == text[at as int]);
    if bytes[at] != 101 && bytes[at] != 69 {
        return false;
    }
    let ghost tail = rest.skip(1);
    assert(tail =~= text.skip(at + 1));
    assert(tail.len() > 0 ==> tail[0] == text[at + 1]);
    let start: usize = if at + 1 < bytes.len() && (bytes[at + 1] == 43 || bytes[at + 1] == 45) {
        at + 2
    } else {
        at + 1
    };
    let ghost run = text.skip(start as int);
    assert(run =~= without_sign(tail));
    let count: usize = count_digits(bytes, Ghost(text), start);
    proof {
        lemma_digit_count_of_run(run);
    }
    count > 0 && start + count == bytes.len()
}

/// A text is a run of decimal digits exactly when its leading digits are all of it.
proof fn lemma_digit_count_of_run(text: Seq<char>)
    ensures
        is_run(text, 10) <==> text.len() > 0 && digit_count(text) == text.len(),
    decreases text.len(),
{
    lemma_digit_count(text);
    if text.len() > 0 && digit_value(text[0]) < 10 {
        let tail = text.skip(1);
        lemma_digit_count_of_run(tail);
        if is_run(text, 10) && tail.len() > 0 {
            assert forall|i: int| 0 <= i < tail.len() implies digit_value(#[trigger] tail[i])
                < 10 by {
                assert(tail[i] == text[i + 1]);
            }
        }
    } else if text.len() > 0 {
        assert(!(digit_value(text[0]) < 10));
    }
}

/// Decides which float `value` spells, if any.
///
/// The dotted infinity and NaN forms are matched case-sensitively against their
/// enumerated spellings. Anything else has to be a decimal number, which always holds a digit: that is what keeps
/// the bare words `inf`, `infinity` and `nan` text.
pub fn float_form(value: &str) -> (form: Option<FloatForm>)
    ensures
        form == float_value(value@),
{
    if same_text(value, ".inf") || same_text(value, ".Inf") || same_text(value, ".INF")
        || same_text(value, "+.inf") || same_text(value, "+.Inf") || same_text(value, "+.INF") {
        Some(FloatForm::Infinity)
    } else if same_text(value, "-.inf") || same_text(value, "-.Inf") || same_text(
        value,
        "-.INF",
    ) {
        Some(FloatForm::NegInfinity)
    } else if same_text(value, ".nan") || same_text(value, ".NaN") || same_text(value, ".NAN") {
        Some(FloatForm::Nan)
    } else if is_decimal_text(value) {
        Some(FloatForm::Number)
    } else {
        None
    }
}

// ---- classification ----------------------------------------------------

/// What a plain scalar resolves to.
#[derive(Debug, Clone, Copy, PartialEq, Eq, Structural)]
pub enum Resolved {
    /// Null.
    Null,
    /// A boolean.
    Bool(bool),
    /// An integer that fits an `i64`.
    I64(i64),
    /// An integer beyond the range of an `i64`.
    U64(u64),
    /// A float.
    F64(FloatForm),
    /// Text.
    Str,
}

/// What a plain scalar resolves to: the first of null, boolean, signed integer,
/// unsigned integer and float that it spells, and otherwise text.
pub open spec fn resolution(text: Seq<char>, version: YamlVersion) -> Resolved {
    if null_text(text) {
        Resolved::Null
    } else if bool_value(text, version) is Some {
        Resolved::Bool(bool_value(text, version)->0)
    } else if int_value(text) is Some {
        Resolved::I64(int_value(text)->0 as i64)
    } else if uint_value(text) is Some {
        Resolved::U64(uint_value(text)->0 as u64)
    } else if float_value(text) is Some {
        Resolved::F64(float_value(text)->0)
    } else {
        Resolved::Str
    }
}

/// Resolves a plain scalar.
pub fn classify_plain(value: &str, version: YamlVersion) -> (r: Resolved)
    ensures
        r == resolution(value@, version),
{
    if is_null(value) {
        return Resolved::Null;
    }
    if let Some(b) = resolve_bool(value, version) {
        return Resolved::Bool(b);
    }
    if let Some(i) = resolve_int(value) {
        return Resolved::I64(i);
    }
    if let Some(u) = resolve_uint(value) {
        return Resolved::U64(u);
    }
    if let Some(f) = float_form(value) {
        return Resolved::F64(f);
    }
    Resolved::Str
}

} // verus!
