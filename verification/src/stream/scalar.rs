//! Reading a single scalar event into the type that was asked for.
//!
//! Each entry point decides what the text says and hands that back as a plain
//! value. Fills a typed target without a node tree existing.

use std::borrow::Cow;

use vstd::prelude::*;
use vstd::slice::slice_to_vec;
use vstd::string::*;

use crate::error::{DeError, DeFailure};
use crate::schema;
use crate::schema::{FloatForm, Resolved};
use crate::stream::base64::decode;
use crate::text::{cow_str, decimal_text, same_text, signed_decimal_text};
use crate::types::{ScalarStyle, Tag, YamlVersion};

pub mod laws;
pub mod reading;

verus! {

/// The core-schema tags a scalar can carry.
#[derive(Debug, Clone, Copy, PartialEq, Eq, Structural)]
pub enum CoreTag {
    /// `!!null`
    Null,
    /// `!!bool`
    Bool,
    /// `!!int`
    Int,
    /// `!!float`
    Float,
    /// `!!str`
    Str,
    /// `!!binary`
    Binary,
}

/// The core-schema tag with this URI.
pub open spec fn core_tag_of(uri: Seq<char>) -> Option<CoreTag> {
    if uri == "tag:yaml.org,2002:null"@ {
        Some(CoreTag::Null)
    } else if uri == "tag:yaml.org,2002:bool"@ {
        Some(CoreTag::Bool)
    } else if uri == "tag:yaml.org,2002:int"@ {
        Some(CoreTag::Int)
    } else if uri == "tag:yaml.org,2002:float"@ {
        Some(CoreTag::Float)
    } else if uri == "tag:yaml.org,2002:str"@ {
        Some(CoreTag::Str)
    } else if uri == "tag:yaml.org,2002:binary"@ {
        Some(CoreTag::Binary)
    } else {
        None
    }
}

impl CoreTag {
    /// The core-schema tag with this URI, if there is one.
    pub fn from_uri(uri: &str) -> (tag: Option<CoreTag>)
        ensures
            tag == core_tag_of(uri@),
    {
        if same_text(uri, "tag:yaml.org,2002:null") {
            Some(CoreTag::Null)
        } else if same_text(uri, "tag:yaml.org,2002:bool") {
            Some(CoreTag::Bool)
        } else if same_text(uri, "tag:yaml.org,2002:int") {
            Some(CoreTag::Int)
        } else if same_text(uri, "tag:yaml.org,2002:float") {
            Some(CoreTag::Float)
        } else if same_text(uri, "tag:yaml.org,2002:str") {
            Some(CoreTag::Str)
        } else if same_text(uri, "tag:yaml.org,2002:binary") {
            Some(CoreTag::Binary)
        } else {
            None
        }
    }
}

/// What a scalar says, in the form it is handed to a consumer.
#[derive(Debug, PartialEq, Eq)]
pub enum Visit<'de> {
    /// Nothing.
    Unit,
    /// A boolean.
    Bool(bool),
    /// A signed integer.
    I64(i64),
    /// An unsigned integer beyond the signed range.
    U64(u64),
    /// A float: its kind, and the text that spells it.
    F64 {
        /// Which kind of float it is.
        form: FloatForm,
        /// The text that spells it.
        text: Cow<'de, str>,
    },
    /// Text that points into the input.
    BorrowedStr(&'de str),
    /// Text that had to be built.
    String(String),
    /// Bytes.
    Bytes(Vec<u8>),
}

/// What a scalar says, wherever its text is stored.
pub enum Said {
    /// Nothing.
    Unit,
    /// A boolean.
    Bool(bool),
    /// A signed integer.
    I64(i64),
    /// An unsigned integer beyond the signed range.
    U64(u64),
    /// A float: its kind, and the text that spells it.
    F64(FloatForm, Seq<char>),
    /// Text, and whether it points into the input.
    Text(Seq<char>, bool),
    /// Bytes.
    Bytes(Seq<u8>),
}

impl<'de> View for Visit<'de> {
    type V = Said;

    open spec fn view(&self) -> Said {
        match self {
            Visit::Unit => Said::Unit,
            Visit::Bool(b) => Said::Bool(*b),
            Visit::I64(i) => Said::I64(*i),
            Visit::U64(u) => Said::U64(*u),
            Visit::F64 { form, text } => Said::F64(*form, text@),
            Visit::BorrowedStr(s) => Said::Text(s@, true),
            Visit::String(s) => Said::Text(s@, false),
            Visit::Bytes(b) => Said::Bytes(b@),
        }
    }
}

/// Whether a reading went as `wanted` says.
pub open spec fn agrees<'de>(got: Result<Visit<'de>, DeError>, wanted: Result<Said, DeFailure>) -> bool {
    match got {
        Ok(visit) => wanted == Ok::<Said, DeFailure>(visit@),
        Err(error) => wanted == Err::<Said, DeFailure>(error@),
    }
}

/// Whether a reading into a plain value went as `wanted` says.
pub open spec fn agrees_plain<T>(got: Result<T, DeError>, wanted: Result<T, DeFailure>) -> bool {
    match got {
        Ok(value) => wanted == Ok::<T, DeFailure>(value),
        Err(error) => wanted == Err::<T, DeFailure>(error@),
    }
}

/// The refusal of a text that is not what was asked for.
pub open spec fn expected(what: Seq<char>, found: Seq<char>) -> DeFailure {
    DeFailure::Message(what + "`"@ + found + "`"@)
}

/// A text as a signed integer.
pub open spec fn int_of(text: Seq<char>) -> Result<i64, DeFailure> {
    match crate::schema::int_value(text) {
        Some(n) => Ok(n as i64),
        None => Err(expected("expected integer, found "@, text)),
    }
}

/// A text as an unsigned integer.
pub open spec fn uint_of(text: Seq<char>) -> Result<u64, DeFailure> {
    match crate::schema::uint_value(text) {
        Some(n) => Ok(n as u64),
        None => Err(expected("expected unsigned, found "@, text)),
    }
}

/// A text as a float.
pub open spec fn float_of(text: Seq<char>) -> Result<FloatForm, DeFailure> {
    match crate::schema::float_value(text) {
        Some(form) => Ok(form),
        None => Err(expected("expected float, found "@, text)),
    }
}

/// The refusal of a number that the type asked for cannot hold.
pub open spec fn overflows(number: Seq<char>, what: Seq<char>) -> DeFailure {
    DeFailure::Message(number + what)
}

/// A text as a single character.
pub open spec fn char_of(text: Seq<char>) -> Result<char, DeFailure> {
    if text.len() == 0 {
        Err(DeFailure::Message("expected a character, found empty string"@))
    } else if text.len() == 1 {
        Ok(text[0])
    } else {
        Err(expected("expected a single character, found "@, text))
    }
}

/// What a text says under an explicit core-schema tag.
pub open spec fn tagged(tag: CoreTag, text: Seq<char>, version: YamlVersion) -> Result<
    Said,
    DeFailure,
> {
    match tag {
        CoreTag::Null => if crate::schema::null_text(text) {
            Ok(Said::Unit)
        } else {
            Err(DeFailure::Message("expected null"@))
        },
        CoreTag::Bool => match crate::schema::bool_value(text, version) {
            Some(b) => Ok(Said::Bool(b)),
            None => Err(expected("expected boolean, found "@, text)),
        },
        CoreTag::Int => match crate::schema::int_value(text) {
            Some(n) => Ok(Said::I64(n as i64)),
            None => match crate::schema::uint_value(text) {
                Some(n) => Ok(Said::U64(n as u64)),
                None => Err(expected("expected integer, found "@, text)),
            },
        },
        CoreTag::Float => match float_of(text) {
            Ok(form) => Ok(Said::F64(form, text)),
            Err(f) => Err(f),
        },
        CoreTag::Str => Ok(Said::Text(text, false)),
        CoreTag::Binary => match crate::stream::base64::decoded(text) {
            Some(bytes) => Ok(Said::Bytes(bytes)),
            None => Err(expected("expected base64, found "@, text)),
        },
    }
}

/// What a text says, written in this style, under this tag and this version.
///
/// An explicit core-schema tag decides first, quoting second, and what the text looks
/// like last.
pub open spec fn meaning(
    text: Seq<char>,
    borrowed: bool,
    style: ScalarStyle,
    tag: Option<CoreTag>,
    version: YamlVersion,
) -> Result<Said, DeFailure> {
    match tag {
        Some(t) => tagged(t, text, version),
        None => if style != ScalarStyle::Plain {
            Ok(Said::Text(text, borrowed))
        } else {
            match crate::schema::resolution(text, version) {
                Resolved::Null => Ok(Said::Unit),
                Resolved::Bool(b) => Ok(Said::Bool(b)),
                Resolved::I64(i) => Ok(Said::I64(i)),
                Resolved::U64(u) => Ok(Said::U64(u)),
                Resolved::F64(form) => Ok(Said::F64(form, text)),
                Resolved::Str => Ok(Said::Text(text, borrowed)),
            }
        },
    }
}

/// The core-schema tag that an optional tag is.
pub open spec fn core_tag_in(tag: Option<Tag<'_>>) -> Option<CoreTag> {
    match tag {
        Some(t) => core_tag_of(t.value@),
        None => None,
    }
}

/// One scalar event, ready to be read.
///
/// Holds the event's `Cow` rather than a `&str` so **borrowed** text can be handed
/// on as borrowed: copying it here would give up the saving streaming exists to
/// capture.
#[derive(Debug, PartialEq, Eq)]
pub struct ScalarDeserializer<'de> {
    /// The scalar's text.
    pub value: Cow<'de, str>,
    /// How it was written.
    pub style: ScalarStyle,
    /// Its tag.
    pub tag: Option<Tag<'de>>,
    /// The version it is read under.
    pub version: YamlVersion,
}

impl<'de> ScalarDeserializer<'de> {
    /// The scalar's core-schema tag.
    pub open spec fn schema_tag(self) -> Option<CoreTag> {
        core_tag_in(self.tag)
    }

    /// The scalar's text, and whether it points into the input.
    pub open spec fn said_text(self) -> Said {
        Said::Text(self.value@, self.value is Borrowed)
    }

    /// What the scalar says, if that is no text and no bytes.
    ///
    /// The tag and the style decide here as they do for a consumer that takes anything:
    /// a quoted `"42"` is text, and `!!int "42"` is an integer.
    pub open spec fn resolved(self) -> Resolved {
        match self.said() {
            Ok(Said::Unit) => Resolved::Null,
            Ok(Said::Bool(b)) => Resolved::Bool(b),
            Ok(Said::I64(i)) => Resolved::I64(i),
            Ok(Said::U64(u)) => Resolved::U64(u),
            Ok(Said::F64(form, _)) => Resolved::F64(form),
            _ => Resolved::Str,
        }
    }

    /// Whether the scalar is an integer.
    pub open spec fn is_integer(self) -> bool {
        self.resolved() is I64 || self.resolved() is U64
    }

    /// The scalar as a signed integer.
    pub open spec fn as_int(self) -> Result<i64, DeFailure> {
        if self.is_integer() {
            int_of(self.value@)
        } else {
            Err(expected("expected integer, found "@, self.value@))
        }
    }

    /// The scalar as an unsigned integer.
    pub open spec fn as_uint(self) -> Result<u64, DeFailure> {
        if self.is_integer() {
            uint_of(self.value@)
        } else {
            Err(expected("expected unsigned, found "@, self.value@))
        }
    }

    /// The scalar as a float; an integer in decimal digits is one too.
    pub open spec fn as_float(self) -> Result<FloatForm, DeFailure> {
        if self.is_integer() || self.resolved() is F64 {
            float_of(self.value@)
        } else {
            Err(expected("expected float, found "@, self.value@))
        }
    }

    /// The scalar as bytes.
    pub open spec fn bytes(self) -> Result<Seq<u8>, DeFailure> {
        if self.schema_tag() == Some(CoreTag::Binary) {
            match crate::stream::base64::decoded(self.value@) {
                Some(bytes) => Ok(bytes),
                None => Err(expected("expected base64, found "@, self.value@)),
            }
        } else {
            Ok(vstd::utf8::encode_utf8(self.value@))
        }
    }

    /// What the scalar says to a consumer that takes anything.
    pub open spec fn said(self) -> Result<Said, DeFailure> {
        meaning(
            self.value@,
            self.value is Borrowed,
            self.style,
            self.schema_tag(),
            self.version,
        )
    }

    /// A scalar ready to be read.
    pub fn new(
        value: Cow<'de, str>,
        style: ScalarStyle,
        tag: Option<Tag<'de>>,
        version: YamlVersion,
    ) -> (scalar: Self)
        ensures
            scalar == (ScalarDeserializer { value, style, tag, version }),
    {
        ScalarDeserializer { value, style, tag, version }
    }

    /// The core-schema tag this scalar carries, if any.
    pub fn core_tag(&self) -> (tag: Option<CoreTag>)
        ensures
            tag == self.schema_tag(),
    {
        match &self.tag {
            Some(tag) => CoreTag::from_uri(cow_str(&tag.value)),
            None => None,
        }
    }

    /// Hands on the text, **borrowed where it is borrowed**.
    fn visit_text(self) -> (visit: Visit<'de>)
        ensures
            visit@ == self.said_text(),
    {
        match self.value {
            Cow::Borrowed(s) => Visit::BorrowedStr(s),
            Cow::Owned(s) => Visit::String(s),
        }
    }

    /// What the scalar says, if that is no text and no bytes.
    fn resolve(&self) -> (r: Resolved)
        ensures
            r == self.resolved(),
    {
        let text = cow_str(&self.value);
        match self.core_tag() {
            Some(CoreTag::Null) => if schema::is_null(text) {
                Resolved::Null
            } else {
                Resolved::Str
            },
            Some(CoreTag::Bool) => match schema::resolve_bool(text, self.version) {
                Some(b) => Resolved::Bool(b),
                None => Resolved::Str,
            },
            Some(CoreTag::Int) => match schema::resolve_int(text) {
                Some(i) => Resolved::I64(i),
                None => match schema::resolve_uint(text) {
                    Some(u) => Resolved::U64(u),
                    None => Resolved::Str,
                },
            },
            Some(CoreTag::Float) => match schema::float_form(text) {
                Some(form) => Resolved::F64(form),
                None => Resolved::Str,
            },
            Some(_) => Resolved::Str,
            None => match self.style {
                ScalarStyle::Plain => schema::classify_plain(text, self.version),
                _ => Resolved::Str,
            },
        }
    }

    /// The value as a signed integer, or the error the wide method would give.
    fn signed(&self) -> (value: Result<i64, DeError>)
        ensures
            agrees_plain(value, self.as_int()),
            value matches Ok(i) ==> crate::schema::int_value(self.value@) == Some(i as int),
    {
        let text = cow_str(&self.value);
        let found = match self.resolve() {
            Resolved::I64(_) => schema::resolve_int(text),
            Resolved::U64(_) => schema::resolve_int(text),
            _ => None,
        };
        match found {
            Some(i) => Ok(i),
            None => Err(DeError::quoting("expected integer, found ", text)),
        }
    }

    /// The value as an unsigned integer.
    fn unsigned(&self) -> (value: Result<u64, DeError>)
        ensures
            agrees_plain(value, self.as_uint()),
            value matches Ok(u) ==> crate::schema::uint_value(self.value@) == Some(u as int),
    {
        let text = cow_str(&self.value);
        let found = match self.resolve() {
            Resolved::I64(_) => schema::resolve_uint(text),
            Resolved::U64(_) => schema::resolve_uint(text),
            _ => None,
        };
        match found {
            Some(u) => Ok(u),
            None => Err(DeError::quoting("expected unsigned, found ", text)),
        }
    }

    /// What the text says under an explicit core-schema tag.
    fn visit_tagged(self, tag: CoreTag) -> (visit: Result<Visit<'de>, DeError>)
        ensures
            agrees(visit, tagged(tag, self.value@, self.version)),
    {
        let text = cow_str(&self.value);
        match tag {
            CoreTag::Null => if schema::is_null(text) {
                Ok(Visit::Unit)
            } else {
                Err(DeError::custom("expected null"))
            },
            CoreTag::Bool => match schema::resolve_bool(text, self.version) {
                Some(b) => Ok(Visit::Bool(b)),
                None => Err(DeError::quoting("expected boolean, found ", text)),
            },
            CoreTag::Int => match schema::resolve_int(text) {
                Some(i) => Ok(Visit::I64(i)),
                None => match schema::resolve_uint(text) {
                    Some(u) => Ok(Visit::U64(u)),
                    None => Err(DeError::quoting("expected integer, found ", text)),
                },
            },
            CoreTag::Float => match schema::float_form(text) {
                Some(form) => Ok(Visit::F64 { form, text: self.value }),
                None => Err(DeError::quoting("expected float, found ", text)),
            },
            CoreTag::Str => Ok(Visit::String(text.to_owned())),
            CoreTag::Binary => match decode(text) {
                Some(bytes) => Ok(Visit::Bytes(bytes)),
                None => Err(DeError::quoting("expected base64, found ", text)),
            },
        }
    }

    /// What the scalar says to a consumer that takes anything.
    ///
    /// An explicit core-schema tag overrides both implicit resolution and the style
    /// shortcut: `!!int "456"` is the author overriding what the quotes would
    /// otherwise imply. Quoting is the author stating the value is text.
    pub fn deserialize_any(self) -> (visit: Result<Visit<'de>, DeError>)
        ensures
            agrees(visit, self.said()),
    {
        if let Some(tag) = self.core_tag() {
            return self.visit_tagged(tag);
        }
        match self.style {
            ScalarStyle::Plain => {},
            _ => {
                return Ok(self.visit_text());
            },
        }
        match schema::classify_plain(cow_str(&self.value), self.version) {
            Resolved::Null => Ok(Visit::Unit),
            Resolved::Bool(b) => Ok(Visit::Bool(b)),
            Resolved::I64(i) => Ok(Visit::I64(i)),
            Resolved::U64(u) => Ok(Visit::U64(u)),
            Resolved::F64(form) => Ok(Visit::F64 { form, text: self.value }),
            Resolved::Str => Ok(self.visit_text()),
        }
    }

    /// The raw text, never classified.
    ///
    /// A text target asked for text, so `1` is the one-character string rather than
    /// the integer.
    pub fn deserialize_str(self) -> (visit: Visit<'de>)
        ensures
            visit@ == self.said_text(),
    {
        self.visit_text()
    }

    /// The raw text, never classified.
    pub fn deserialize_string(self) -> (visit: Visit<'de>)
        ensures
            visit@ == self.said_text(),
    {
        self.visit_text()
    }

    /// The raw text, never classified: a field or variant name.
    pub fn deserialize_identifier(self) -> (visit: Visit<'de>)
        ensures
            visit@ == self.said_text(),
    {
        self.visit_text()
    }

    /// The value as `i8`; one that does not fit is reported, never truncated.
    pub fn deserialize_i8(self) -> (value: Result<i8, DeError>)
        ensures
            match self.as_int() {
                Ok(n) => if i8::MIN <= n <= i8::MAX {
                    value matches Ok(v) && v == n
                } else {
                    value matches Err(e) && e@ == overflows(
                        crate::text::signed_decimal(n as int),
                        " overflows i8"@,
                    )
                },
                Err(f) => value matches Err(e) && e@ == f,
            },
    {
        match self.signed() {
            Ok(n) => if n < i8::MIN as i64 || n > i8::MAX as i64 {
                Err(DeError::custom(signed_decimal_text(n).concat(" overflows i8").as_str()))
            } else {
                Ok(n as i8)
            },
            Err(e) => Err(e),
        }
    }

    /// The value as `i16`; one that does not fit is reported, never truncated.
    pub fn deserialize_i16(self) -> (value: Result<i16, DeError>)
        ensures
            match self.as_int() {
                Ok(n) => if i16::MIN <= n <= i16::MAX {
                    value matches Ok(v) && v == n
                } else {
                    value matches Err(e) && e@ == overflows(
                        crate::text::signed_decimal(n as int),
                        " overflows i16"@,
                    )
                },
                Err(f) => value matches Err(e) && e@ == f,
            },
    {
        match self.signed() {
            Ok(n) => if n < i16::MIN as i64 || n > i16::MAX as i64 {
                Err(DeError::custom(signed_decimal_text(n).concat(" overflows i16").as_str()))
            } else {
                Ok(n as i16)
            },
            Err(e) => Err(e),
        }
    }

    /// The value as `i32`; one that does not fit is reported, never truncated.
    pub fn deserialize_i32(self) -> (value: Result<i32, DeError>)
        ensures
            match self.as_int() {
                Ok(n) => if i32::MIN <= n <= i32::MAX {
                    value matches Ok(v) && v == n
                } else {
                    value matches Err(e) && e@ == overflows(
                        crate::text::signed_decimal(n as int),
                        " overflows i32"@,
                    )
                },
                Err(f) => value matches Err(e) && e@ == f,
            },
    {
        match self.signed() {
            Ok(n) => if n < i32::MIN as i64 || n > i32::MAX as i64 {
                Err(DeError::custom(signed_decimal_text(n).concat(" overflows i32").as_str()))
            } else {
                Ok(n as i32)
            },
            Err(e) => Err(e),
        }
    }

    /// The value as `u8`; one that does not fit is reported, never truncated.
    pub fn deserialize_u8(self) -> (value: Result<u8, DeError>)
        ensures
            match self.as_uint() {
                Ok(n) => if u8::MIN <= n <= u8::MAX {
                    value matches Ok(v) && v == n
                } else {
                    value matches Err(e) && e@ == overflows(
                        crate::text::decimal(n as int),
                        " overflows u8"@,
                    )
                },
                Err(f) => value matches Err(e) && e@ == f,
            },
    {
        match self.unsigned() {
            Ok(n) => if n > u8::MAX as u64 {
                Err(DeError::custom(decimal_text(n).concat(" overflows u8").as_str()))
            } else {
                Ok(n as u8)
            },
            Err(e) => Err(e),
        }
    }

    /// The value as `u16`; one that does not fit is reported, never truncated.
    pub fn deserialize_u16(self) -> (value: Result<u16, DeError>)
        ensures
            match self.as_uint() {
                Ok(n) => if u16::MIN <= n <= u16::MAX {
                    value matches Ok(v) && v == n
                } else {
                    value matches Err(e) && e@ == overflows(
                        crate::text::decimal(n as int),
                        " overflows u16"@,
                    )
                },
                Err(f) => value matches Err(e) && e@ == f,
            },
    {
        match self.unsigned() {
            Ok(n) => if n > u16::MAX as u64 {
                Err(DeError::custom(decimal_text(n).concat(" overflows u16").as_str()))
            } else {
                Ok(n as u16)
            },
            Err(e) => Err(e),
        }
    }

    /// The value as `u32`; one that does not fit is reported, never truncated.
    pub fn deserialize_u32(self) -> (value: Result<u32, DeError>)
        ensures
            match self.as_uint() {
                Ok(n) => if u32::MIN <= n <= u32::MAX {
                    value matches Ok(v) && v == n
                } else {
                    value matches Err(e) && e@ == overflows(
                        crate::text::decimal(n as int),
                        " overflows u32"@,
                    )
                },
                Err(f) => value matches Err(e) && e@ == f,
            },
    {
        match self.unsigned() {
            Ok(n) => if n > u32::MAX as u64 {
                Err(DeError::custom(decimal_text(n).concat(" overflows u32").as_str()))
            } else {
                Ok(n as u32)
            },
            Err(e) => Err(e),
        }
    }

    /// The value as a boolean.
    ///
    /// A scalar is a boolean here exactly when it is one to a consumer that takes
    /// anything: a quoted `"true"` is text, and `!!bool "true"` is a boolean.
    pub fn deserialize_bool(self) -> (value: Result<bool, DeError>)
        ensures
            agrees_plain(
                value,
                match self.resolved() {
                    Resolved::Bool(b) => Ok(b),
                    _ => Err(expected("expected boolean, found "@, self.value@)),
                },
            ),
    {
        match self.resolve() {
            Resolved::Bool(b) => Ok(b),
            _ => Err(DeError::quoting("expected boolean, found ", cow_str(&self.value))),
        }
    }

    /// The value as a signed integer: a quoted `"42"` is text.
    pub fn deserialize_i64(self) -> (value: Result<i64, DeError>)
        ensures
            agrees_plain(value, self.as_int()),
    {
        self.signed()
    }

    /// The value as an unsigned integer.
    pub fn deserialize_u64(self) -> (value: Result<u64, DeError>)
        ensures
            agrees_plain(value, self.as_uint()),
    {
        self.unsigned()
    }

    /// Which kind of float the value is.
    pub fn deserialize_f64(&self) -> (form: Result<FloatForm, DeError>)
        ensures
            agrees_plain(form, self.as_float()),
    {
        let text = cow_str(&self.value);
        let found = match self.resolve() {
            Resolved::I64(_) => schema::float_form(text),
            Resolved::U64(_) => schema::float_form(text),
            Resolved::F64(form) => Some(form),
            _ => None,
        };
        match found {
            Some(form) => Ok(form),
            None => Err(DeError::quoting("expected float, found ", text)),
        }
    }

    /// `None` for a null, or the scalar itself, still to be read.
    pub fn deserialize_option(self) -> (value: Option<Self>)
        ensures
            value == (if self.resolved() is Null {
                None
            } else {
                Some(self)
            }),
    {
        match self.resolve() {
            Resolved::Null => None,
            _ => Some(self),
        }
    }

    /// Accepts a null, and nothing else: a quoted `"null"` is text.
    pub fn deserialize_unit(self) -> (value: Result<(), DeError>)
        ensures
            agrees_plain(
                value,
                if self.resolved() is Null {
                    Ok(())
                } else {
                    Err(DeFailure::Message("expected null"@))
                },
            ),
    {
        match self.resolve() {
            Resolved::Null => Ok(()),
            _ => Err(DeError::custom("expected null")),
        }
    }

    /// Accepts a null, and nothing else.
    pub fn deserialize_unit_struct(self) -> (value: Result<(), DeError>)
        ensures
            agrees_plain(
                value,
                if self.resolved() is Null {
                    Ok(())
                } else {
                    Err(DeFailure::Message("expected null"@))
                },
            ),
    {
        self.deserialize_unit()
    }

    /// The scalar itself: a wrapper reads what it wraps.
    pub fn deserialize_newtype_struct(self) -> (value: Self)
        ensures
            value == self,
    {
        self
    }

    /// The value as a single character.
    pub fn deserialize_char(self) -> (value: Result<char, DeError>)
        ensures
            agrees_plain(value, char_of(self.value@)),
    {
        let text = cow_str(&self.value);
        let mut chars = text.chars();
        match chars.next() {
            None => Err(DeError::custom("expected a character, found empty string")),
            Some(c) => match chars.next() {
                None => Ok(c),
                Some(_) => Err(DeError::quoting("expected a single character, found ", text)),
            },
        }
    }

    /// The value as bytes.
    ///
    /// `!!binary` is base64 in the source and bytes in the data model, so it is
    /// decoded. Any other scalar passes its UTF-8 through unchanged.
    pub fn deserialize_bytes(self) -> (value: Result<Vec<u8>, DeError>)
        ensures
            match self.bytes() {
                Ok(b) => value matches Ok(v) && v@ == b,
                Err(f) => value matches Err(e) && e@ == f,
            },
    {
        let text = cow_str(&self.value);
        match self.core_tag() {
            Some(CoreTag::Binary) => match decode(text) {
                Some(bytes) => Ok(bytes),
                None => Err(DeError::quoting("expected base64, found ", text)),
            },
            _ => Ok(slice_to_vec(text.as_bytes())),
        }
    }

    /// The value as bytes.
    pub fn deserialize_byte_buf(self) -> (value: Result<Vec<u8>, DeError>)
        ensures
            match self.bytes() {
                Ok(b) => value matches Ok(v) && v@ == b,
                Err(f) => value matches Err(e) && e@ == f,
            },
    {
        self.deserialize_bytes()
    }
}

} // verus!
