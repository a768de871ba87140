//! How tag, style and text together decide what a scalar says, over every scalar.

use std::borrow::Cow;

use vstd::prelude::*;

use super::{CoreTag, Said, ScalarDeserializer, Visit};
use crate::error::{DeError, DeFailure};
use crate::schema::{FloatForm, Resolved};
use crate::types::{ScalarStyle, Tag};

verus! {

// ---- tags --------------------------------------------------------------

/// The word that a core-schema tag is written with, behind two exclamation marks.
pub open spec fn tag_word(tag: CoreTag) -> Seq<char> {
    match tag {
        CoreTag::Null => "null"@,
        CoreTag::Bool => "bool"@,
        CoreTag::Int => "int"@,
        CoreTag::Float => "float"@,
        CoreTag::Str => "str"@,
        CoreTag::Binary => "binary"@,
    }
}

/// Whether a tag is this core-schema tag: its text is the schema's prefix and the word.
pub open spec fn is_tag(tag: Option<Tag<'_>>, core_tag: CoreTag) -> bool {
    tag matches Some(t) && t.value@ == "tag:yaml.org,2002:"@ + tag_word(core_tag)
}

/// Whether a tag is a core-schema tag at all.
pub open spec fn is_some_tag(tag: Option<Tag<'_>>) -> bool {
    exists|core_tag: CoreTag| is_tag(tag, core_tag)
}

proof fn lemma_uris()
    ensures
        "tag:yaml.org,2002:null"@ == "tag:yaml.org,2002:"@ + "null"@,
        "tag:yaml.org,2002:bool"@ == "tag:yaml.org,2002:"@ + "bool"@,
        "tag:yaml.org,2002:int"@ == "tag:yaml.org,2002:"@ + "int"@,
        "tag:yaml.org,2002:float"@ == "tag:yaml.org,2002:"@ + "float"@,
        "tag:yaml.org,2002:str"@ == "tag:yaml.org,2002:"@ + "str"@,
        "tag:yaml.org,2002:binary"@ == "tag:yaml.org,2002:"@ + "binary"@,
{
    reveal_strlit("tag:yaml.org,2002:");
    reveal_strlit("tag:yaml.org,2002:null");
    reveal_strlit("tag:yaml.org,2002:bool");
    reveal_strlit("tag:yaml.org,2002:int");
    reveal_strlit("tag:yaml.org,2002:float");
    reveal_strlit("tag:yaml.org,2002:str");
    reveal_strlit("tag:yaml.org,2002:binary");
    reveal_strlit("null");
    reveal_strlit("bool");
    reveal_strlit("int");
    reveal_strlit("float");
    reveal_strlit("str");
    reveal_strlit("binary");
    assert("tag:yaml.org,2002:null"@ =~= "tag:yaml.org,2002:"@ + "null"@);
    assert("tag:yaml.org,2002:bool"@ =~= "tag:yaml.org,2002:"@ + "bool"@);
    assert("tag:yaml.org,2002:int"@ =~= "tag:yaml.org,2002:"@ + "int"@);
    assert("tag:yaml.org,2002:float"@ =~= "tag:yaml.org,2002:"@ + "float"@);
    assert("tag:yaml.org,2002:str"@ =~= "tag:yaml.org,2002:"@ + "str"@);
    assert("tag:yaml.org,2002:binary"@ =~= "tag:yaml.org,2002:"@ + "binary"@);
}

/// The words of two tags differ, and so do the tags.
proof fn lemma_words_differ(left: CoreTag, right: CoreTag)
    requires
        "tag:yaml.org,2002:"@ + tag_word(left) == "tag:yaml.org,2002:"@ + tag_word(right),
    ensures
        left == right,
{
    let prefix = "tag:yaml.org,2002:"@;
    let l = prefix + tag_word(left);
    let r = prefix + tag_word(right);
    assert(l.skip(prefix.len() as int) =~= tag_word(left));
    assert(r.skip(prefix.len() as int) =~= tag_word(right));
    reveal_strlit("null");
    reveal_strlit("bool");
    reveal_strlit("int");
    reveal_strlit("float");
    reveal_strlit("str");
    reveal_strlit("binary");
    assert(tag_word(left)[0] == tag_word(right)[0]);
    assert(tag_word(left)[1] == tag_word(right)[1]);
}

/// A scalar carries a core-schema tag exactly if its tag is the schema's prefix and the
/// word of that tag. Any other tag counts for nothing, as does none.
pub proof fn law_a_core_tag_is_its_prefix_and_word(tag: Option<Tag<'_>>, core_tag: CoreTag)
    ensures
        super::core_tag_in(tag) == Some(core_tag) <==> is_tag(tag, core_tag),
        super::core_tag_in(tag) is None <==> !is_some_tag(tag),
{
    lemma_uris();
    if let Some(t) = tag {
        if let Some(found) = super::core_tag_of(t.value@) {
            assert(is_tag(tag, found));
            if is_tag(tag, core_tag) {
                lemma_words_differ(found, core_tag);
            }
        } else {
            assert forall|other: CoreTag| !is_tag(tag, other) by {
                if is_tag(tag, other) {
                    match other {
                        CoreTag::Null => {},
                        CoreTag::Bool => {},
                        CoreTag::Int => {},
                        CoreTag::Float => {},
                        CoreTag::Str => {},
                        CoreTag::Binary => {},
                    }
                }
            }
        }
    }
}

// ---- what a scalar says ------------------------------------------------

/// A scalar without a core-schema tag that is not plain is its text, borrowed where it is
/// borrowed. A plain one is what it spells: nothing, a boolean, an integer, a float, or
/// else its text.
pub proof fn law_an_untagged_scalar_is_what_it_spells<'de>(scalar: ScalarDeserializer<'de>)
    requires
        !is_some_tag(scalar.tag),
    ensures
        ({
            let text = scalar.value@;
            let words = Said::Text(text, scalar.value is Borrowed);
            if !(scalar.style is Plain) {
                scalar.said() == Ok::<Said, DeFailure>(words)
            } else {
                match crate::schema::resolution(text, scalar.version) {
                    Resolved::Null => scalar.said() == Ok::<Said, DeFailure>(Said::Unit),
                    Resolved::Bool(b) => scalar.said() == Ok::<Said, DeFailure>(Said::Bool(b)),
                    Resolved::I64(i) => scalar.said() == Ok::<Said, DeFailure>(Said::I64(i)),
                    Resolved::U64(u) => scalar.said() == Ok::<Said, DeFailure>(Said::U64(u)),
                    Resolved::F64(form) => scalar.said() == Ok::<Said, DeFailure>(
                        Said::F64(form, text),
                    ),
                    Resolved::Str => scalar.said() == Ok::<Said, DeFailure>(words),
                }
            }
        }),
{
    law_a_core_tag_is_its_prefix_and_word(scalar.tag, CoreTag::Null);
}

/// A core-schema tag asks for its own kind, in whatever style the scalar is written. Under
/// `!!null`, `!!bool` and `!!int` a scalar says what it would say plain and untagged if
/// that is of the kind, and is refused otherwise. Under `!!float` it says the float it
/// spells, under `!!str` its text, and under `!!binary` the bytes it encodes.
pub proof fn law_a_tag_asks_for_its_kind<'de>(
    scalar: ScalarDeserializer<'de>,
    plain: ScalarDeserializer<'de>,
)
    requires
        plain == (ScalarDeserializer { style: ScalarStyle::Plain, tag: None, ..scalar }),
    ensures
        is_tag(scalar.tag, CoreTag::Null) ==> if plain.said() == Ok::<Said, DeFailure>(
            Said::Unit,
        ) {
            scalar.said() == plain.said()
        } else {
            scalar.said() is Err
        },
        is_tag(scalar.tag, CoreTag::Bool) ==> if plain.said() matches Ok(Said::Bool(_)) {
            scalar.said() == plain.said()
        } else {
            scalar.said() is Err
        },
        is_tag(scalar.tag, CoreTag::Int) ==> if plain.said() matches Ok(Said::I64(_)) {
            scalar.said() == plain.said()
        } else if plain.said() matches Ok(Said::U64(_)) {
            scalar.said() == plain.said()
        } else {
            scalar.said() is Err
        },
        is_tag(scalar.tag, CoreTag::Float) ==> match crate::schema::float_value(scalar.value@) {
            Some(form) => scalar.said() == Ok::<Said, DeFailure>(Said::F64(form, scalar.value@)),
            None => scalar.said() is Err,
        },
        is_tag(scalar.tag, CoreTag::Str) ==> scalar.said() == Ok::<Said, DeFailure>(
            Said::Text(scalar.value@, false),
        ),
        is_tag(scalar.tag, CoreTag::Binary) ==> match crate::stream::base64::decoded(
            scalar.value@,
        ) {
            Some(bytes) => scalar.said() == Ok::<Said, DeFailure>(Said::Bytes(bytes)),
            None => scalar.said() is Err,
        },
{
    let text = scalar.value@;
    law_a_core_tag_is_its_prefix_and_word(scalar.tag, CoreTag::Null);
    law_a_core_tag_is_its_prefix_and_word(scalar.tag, CoreTag::Bool);
    law_a_core_tag_is_its_prefix_and_word(scalar.tag, CoreTag::Int);
    law_a_core_tag_is_its_prefix_and_word(scalar.tag, CoreTag::Float);
    law_a_core_tag_is_its_prefix_and_word(scalar.tag, CoreTag::Str);
    law_a_core_tag_is_its_prefix_and_word(scalar.tag, CoreTag::Binary);
    crate::schema::spelling::law_a_plain_scalar_is_what_it_spells(text, scalar.version, 0);
    if let Some(b) = crate::schema::bool_value(text, scalar.version) {
        assert(crate::schema::bool_value(text, scalar.version) == Some(b));
    }
    if crate::schema::int_value(text) is Some || crate::schema::uint_value(text) is Some {
        crate::schema::laws::law_a_number_is_no_word(text, scalar.version);
    }
}

/// What is refused is quoted: a scalar that is not what its tag asks for, or what its
/// consumer asks for, is refused with its text between back quotes.
pub proof fn law_a_refusal_quotes_the_text<'de>(scalar: ScalarDeserializer<'de>)
    ensures
        scalar.said() matches Err(f) ==> {
            ||| f == DeFailure::Message("expected null"@)
            ||| f == DeFailure::Message(
                "expected boolean, found "@ + seq!['`'] + scalar.value@ + seq!['`'],
            )
            ||| f == DeFailure::Message(
                "expected integer, found "@ + seq!['`'] + scalar.value@ + seq!['`'],
            )
            ||| f == DeFailure::Message(
                "expected float, found "@ + seq!['`'] + scalar.value@ + seq!['`'],
            )
            ||| f == DeFailure::Message(
                "expected base64, found "@ + seq!['`'] + scalar.value@ + seq!['`'],
            )
        },
        scalar.as_int() matches Err(f) ==> f == DeFailure::Message(
            "expected integer, found "@ + seq!['`'] + scalar.value@ + seq!['`'],
        ),
        scalar.as_uint() matches Err(f) ==> f == DeFailure::Message(
            "expected unsigned, found "@ + seq!['`'] + scalar.value@ + seq!['`'],
        ),
        scalar.as_float() matches Err(f) ==> f == DeFailure::Message(
            "expected float, found "@ + seq!['`'] + scalar.value@ + seq!['`'],
        ),
        scalar.bytes() matches Err(f) ==> f == DeFailure::Message(
            "expected base64, found "@ + seq!['`'] + scalar.value@ + seq!['`'],
        ),
{
    reveal_strlit("`");
    assert("`"@ =~= seq!['`']);
}

// ---- typed readings ----------------------------------------------------

/// A consumer that asks for a type gets what one that takes anything would get, if that is
/// of the type, and a refusal otherwise. An integer that is not negative is an unsigned one
/// too, unless it is written with a minus; an integer in decimal digits is a float too.
pub proof fn law_a_typed_reading_is_the_untyped_one<'de>(scalar: ScalarDeserializer<'de>, n: int)
    ensures
        forall|i: i64|
            scalar.as_int() == Ok::<i64, DeFailure>(i) <==> #[trigger] said_int(scalar, i),
        -i64::MAX <= n <= u64::MAX ==> (scalar.as_uint() matches Ok(u) && u == n) == (
        crate::schema::uint_value(scalar.value@) == Some(n) && (said_int(scalar, n as i64)
            || scalar.said() == Ok::<Said, DeFailure>(Said::U64(n as u64)))),
        forall|form: FloatForm|
            scalar.as_float() == Ok::<FloatForm, DeFailure>(form) <==> crate::schema::float_value(
                scalar.value@,
            ) == Some(form) && (scalar.said() matches Ok(Said::I64(_)) || scalar.said() matches Ok(
                Said::U64(_),
            ) || #[trigger] said_float(scalar, form)),
        scalar.resolved() is Null <==> scalar.said() == Ok::<Said, DeFailure>(Said::Unit),
        forall|b: bool|
            scalar.resolved() == Resolved::Bool(b) <==> #[trigger] said_bool(scalar, b),
{
    let text = scalar.value@;
    crate::schema::spelling::law_a_plain_scalar_is_what_it_spells(text, scalar.version, n);
    crate::schema::writing::law_an_unsigned_integer_is_spelled_so(text, n);
    crate::schema::writing::lemma_spelled_magnitude(text, n);
    if let Some(m) = crate::schema::uint_value(text) {
        crate::schema::writing::law_an_unsigned_integer_is_spelled_so(text, m);
        crate::schema::writing::lemma_spelled_magnitude(text, m);
        crate::schema::writing::law_a_signed_integer_is_spelled_so(text, m);
    }
    if let Some(m) = crate::schema::int_value(text) {
        crate::schema::writing::law_a_signed_integer_is_spelled_so(text, m);
        crate::schema::writing::lemma_spelled_magnitude(text, m);
        crate::schema::writing::lemma_spelled_magnitude(text, -m);
    }
}

/// Whether a scalar says this integer to a consumer that takes anything.
pub open spec fn said_int(scalar: ScalarDeserializer<'_>, i: i64) -> bool {
    scalar.said() == Ok::<Said, DeFailure>(Said::I64(i))
}

/// Whether a scalar says this boolean to a consumer that takes anything.
pub open spec fn said_bool(scalar: ScalarDeserializer<'_>, b: bool) -> bool {
    scalar.said() == Ok::<Said, DeFailure>(Said::Bool(b))
}

/// Whether a scalar says this kind of float to a consumer that takes anything.
pub open spec fn said_float(scalar: ScalarDeserializer<'_>, form: FloatForm) -> bool {
    scalar.said() == Ok::<Said, DeFailure>(Said::F64(form, scalar.value@))
}

/// A text is a character exactly if it is that one character; an empty text is refused as
/// such, and a longer one is quoted.
pub proof fn law_a_character_is_a_text_of_one(text: Seq<char>, c: char)
    ensures
        super::char_of(text) == Ok::<char, DeFailure>(c) <==> text == seq![c],
        super::char_of(Seq::empty()) == Err::<char, DeFailure>(
            DeFailure::Message("expected a character, found empty string"@),
        ),
        text.len() > 1 ==> super::char_of(text) == Err::<char, DeFailure>(
            DeFailure::Message(
                "expected a single character, found "@ + seq!['`'] + text + seq!['`'],
            ),
        ),
{
    reveal_strlit("`");
    assert("`"@ =~= seq!['`']);
    if super::char_of(text) == Ok::<char, DeFailure>(c) {
        assert(text =~= seq![c]);
    }
}

/// The bytes of a scalar are what it encodes under `!!binary`, and its text in UTF-8
/// under any other tag and none, in whatever style it is written.
pub proof fn law_bytes_are_encoded_or_raw<'de>(scalar: ScalarDeserializer<'de>)
    ensures
        if is_tag(scalar.tag, CoreTag::Binary) {
            match crate::stream::base64::decoded(scalar.value@) {
                Some(bytes) => scalar.bytes() == Ok::<Seq<u8>, DeFailure>(bytes),
                None => scalar.bytes() is Err,
            }
        } else {
            scalar.bytes() == Ok::<Seq<u8>, DeFailure>(vstd::utf8::encode_utf8(scalar.value@))
        },
{
    law_a_core_tag_is_its_prefix_and_word(scalar.tag, CoreTag::Binary);
}

// ---- what is handed on -------------------------------------------------

/// What is handed to a consumer says what it holds.
pub proof fn law_a_visit_says_what_it_holds<'de>(
    b: bool,
    i: i64,
    u: u64,
    form: FloatForm,
    text: Cow<'de, str>,
    borrowed: &'de str,
    owned: String,
    bytes: Vec<u8>,
)
    ensures
        Visit::<'de>::Unit@ == Said::Unit,
        Visit::<'de>::Bool(b)@ == Said::Bool(b),
        Visit::<'de>::I64(i)@ == Said::I64(i),
        Visit::<'de>::U64(u)@ == Said::U64(u),
        (Visit::F64 { form, text })@ == Said::F64(form, text@),
        Visit::BorrowedStr(borrowed)@ == Said::Text(borrowed@, true),
        Visit::<'de>::String(owned)@ == Said::Text(owned@, false),
        Visit::<'de>::Bytes(bytes)@ == Said::Bytes(bytes@),
{
}

/// A reading went as wanted exactly if both succeed with the same value or both fail with
/// the same refusal.
pub proof fn law_readings_agree_in_every_part<'de, T>(
    visit: Visit<'de>,
    value: T,
    error: DeError,
    said: Result<Said, DeFailure>,
    wanted: Result<T, DeFailure>,
)
    ensures
        super::agrees(Ok::<Visit<'de>, DeError>(visit), said) <==> said == Ok::<Said, DeFailure>(
            visit@,
        ),
        super::agrees(Err::<Visit<'de>, DeError>(error), said) <==> said == Err::<Said, DeFailure>(
            error@,
        ),
        super::agrees_plain(Ok::<T, DeError>(value), wanted) <==> wanted == Ok::<T, DeFailure>(
            value,
        ),
        super::agrees_plain(Err::<T, DeError>(error), wanted) <==> wanted == Err::<T, DeFailure>(
            error@,
        ),
{
}

/// A number too large for the type asked for is refused with its decimal text.
pub proof fn law_an_overflow_names_the_number(n: int, what: Seq<char>)
    ensures
        super::overflows(crate::text::signed_decimal(n), what) == DeFailure::Message(
            (if n < 0 {
                seq!['-'] + crate::schema::writing::written(-n, 10, false)
            } else {
                crate::schema::writing::written(n, 10, false)
            }) + what,
        ),
{
    crate::schema::writing::law_decimal_text_is_base_ten(
        if n < 0 {
            -n
        } else {
            n
        },
        false,
    );
}

} // verus!
