//! What reading a scalar promises as a whole.

use vstd::prelude::*;

use super::{CoreTag, Said, ScalarDeserializer};
use crate::error::DeFailure;
use crate::schema::FloatForm;
use crate::types::ScalarStyle;

verus! {

/// Quoting makes text: a quoted scalar without a core-schema tag is its text, whatever
/// the text looks like, and never a null, a boolean or a number.
pub proof fn law_quoted_scalars_are_text<'de>(scalar: ScalarDeserializer<'de>)
    requires
        scalar.style != ScalarStyle::Plain,
        scalar.schema_tag() is None,
    ensures
        scalar.said() == Ok::<Said, DeFailure>(scalar.said_text()),
        scalar.resolved() is Str,
{
}

/// An explicit core-schema tag overrides both the style and what the text looks like:
/// only the tag, the text and the version decide.
pub proof fn law_a_core_tag_decides<'a, 'b>(
    left: ScalarDeserializer<'a>,
    right: ScalarDeserializer<'b>,
)
    requires
        left.schema_tag() is Some,
        left.schema_tag() == right.schema_tag(),
        left.value@ == right.value@,
        left.version == right.version,
    ensures
        left.said() == right.said(),
        left.resolved() == right.resolved(),
        left.as_int() == right.as_int(),
        left.as_uint() == right.as_uint(),
        left.as_float() == right.as_float(),
{
}

/// Text that points into the input is handed on as such, and only that text.
pub proof fn law_borrowed_text_stays_borrowed<'de>(scalar: ScalarDeserializer<'de>)
    ensures
        scalar.said_text() == Said::Text(scalar.value@, scalar.value is Borrowed),
        scalar.schema_tag() is None && (scalar.said() matches Ok(Said::Text(text, borrowed)))
            ==> scalar.said() == Ok::<Said, DeFailure>(scalar.said_text()),
{
}

/// An integer is unsigned only beyond the signed range.
pub proof fn law_unsigned_only_beyond_signed<'de>(scalar: ScalarDeserializer<'de>, u: u64)
    requires
        scalar.schema_tag() is None || scalar.schema_tag() == Some(CoreTag::Int),
        scalar.said() == Ok::<Said, DeFailure>(Said::U64(u)),
    ensures
        u > i64::MAX,
{
}

/// What a scalar says to a consumer that takes anything, and to one that asks for the
/// type it turned out to have, agree, whatever its tag and style.
pub proof fn law_typed_reading_agrees<'de>(scalar: ScalarDeserializer<'de>)
    ensures
        scalar.said() matches Ok(Said::I64(i)) ==> scalar.as_int() == Ok::<i64, DeFailure>(i),
        scalar.said() matches Ok(Said::U64(u)) ==> scalar.as_uint() == Ok::<u64, DeFailure>(u),
        scalar.said() matches Ok(Said::F64(form, _)) ==> scalar.as_float() == Ok::<
            FloatForm,
            DeFailure,
        >(form),
        scalar.as_int() matches Ok(i) ==> scalar.said() == Ok::<Said, DeFailure>(Said::I64(i)),
{
}

/// A plain scalar without a core-schema tag is read by its text alone.
pub proof fn law_plain_text_decides<'de>(scalar: ScalarDeserializer<'de>)
    requires
        scalar.schema_tag() is None,
        scalar.style == ScalarStyle::Plain,
    ensures
        scalar.resolved() == crate::schema::resolution(scalar.value@, scalar.version),
        scalar.as_int() == super::int_of(scalar.value@),
        scalar.as_uint() == super::uint_of(scalar.value@),
        scalar.as_float() == super::float_of(scalar.value@),
        scalar.resolved() is Null <==> crate::schema::null_text(scalar.value@),
{
    let text = scalar.value@;
    if crate::schema::int_value(text) is Some || crate::schema::uint_value(text) is Some
        || crate::schema::float_value(text) is Some {
        crate::schema::laws::law_a_number_is_no_word(text, scalar.version);
    }
}

} // verus!
