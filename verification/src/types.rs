//! The vocabulary shared by every layer: positions, styles, versions and tags.

use std::borrow::Cow;

use vstd::prelude::*;

use crate::text::{cow_clone, cow_into_owned};

verus! {

/// A place in the source text.
#[derive(Debug, Clone, Copy, PartialEq, Eq, Structural)]
pub struct Position {
    /// Byte offset from the start of the input.
    pub offset: usize,
    /// Line number, counted from one.
    pub line: usize,
    /// Column number, counted from one.
    pub column: usize,
}

impl Position {
    /// The first position of an input.
    pub fn start() -> (p: Position)
        ensures
            p.offset == 0,
            p.line == 1,
            p.column == 1,
    {
        Position { offset: 0, line: 1, column: 1 }
    }
}

/// A half-open stretch of the source text.
#[derive(Debug, Clone, Copy, PartialEq, Eq, Structural)]
pub struct Span {
    /// Where the stretch begins.
    pub start: Position,
    /// Where it ends.
    pub end: Position,
}

impl Span {
    /// The empty span at `at`.
    pub fn point(at: Position) -> (s: Span)
        ensures
            s.start == at,
            s.end == at,
    {
        Span { start: at, end: at }
    }
}

/// How a scalar was written.
#[derive(Debug, Clone, Copy, PartialEq, Eq, Structural)]
pub enum ScalarStyle {
    /// Unquoted.
    Plain,
    /// `'single quoted'`.
    SingleQuoted,
    /// `"double quoted"`.
    DoubleQuoted,
    /// A `|` block.
    Literal,
    /// A `>` block.
    Folded,
}

/// How a collection was written.
#[derive(Debug, Clone, Copy, PartialEq, Eq, Structural)]
pub enum CollectionStyle {
    /// One entry per line, by indentation.
    Block,
    /// Bracketed: `[a, b]` or `{a: b}`.
    Flow,
}

/// The YAML version a document is read under.
#[derive(Debug, Clone, Copy, PartialEq, Eq, Structural)]
pub enum YamlVersion {
    /// YAML 1.1, with its extended boolean vocabulary.
    V1_1,
    /// YAML 1.2.
    V1_2,
}

impl YamlVersion {
    /// Whether this is YAML 1.1.
    pub fn is_1_1(self) -> (b: bool)
        ensures
            b == (self == YamlVersion::V1_1),
    {
        match self {
            YamlVersion::V1_1 => true,
            YamlVersion::V1_2 => false,
        }
    }
}

/// A tag, resolved to its full URI.
#[derive(Debug, PartialEq, Eq)]
pub struct Tag<'a> {
    /// The tag's text.
    pub value: Cow<'a, str>,
    /// Where it was written.
    pub span: Span,
}

/// What a tag says, wherever its text is stored.
pub struct TagContent {
    /// The tag's text.
    pub text: Seq<char>,
    /// Where it was written.
    pub span: Span,
}

impl<'a> Tag<'a> {
    /// What the tag says.
    pub open spec fn content(self) -> TagContent {
        TagContent { text: self.value@, span: self.span }
    }

    /// Whether the tag owns its text.
    pub open spec fn is_owned(self) -> bool {
        self.value is Owned
    }

    /// Takes ownership of the tag's text, so the tag outlives the source.
    pub fn into_owned(self) -> (owned: Tag<'static>)
        ensures
            owned.content() == self.content(),
            owned.is_owned(),
    {
        Tag { value: cow_into_owned(self.value), span: self.span }
    }
}

impl<'a> Clone for Tag<'a> {
    fn clone(&self) -> (copy: Self)
        ensures
            copy == *self,
    {
        Tag { value: cow_clone(&self.value), span: self.span }
    }
}

/// What an optional tag says.
pub open spec fn tag_content(tag: Option<Tag<'_>>) -> Option<TagContent> {
    match tag {
        Some(t) => Some(t.content()),
        None => None,
    }
}

/// Whether an optional tag borrows nothing.
pub open spec fn tag_is_owned(tag: Option<Tag<'_>>) -> bool {
    tag matches Some(t) ==> t.is_owned()
}

/// Copies an optional tag.
pub fn clone_tag<'a>(tag: &Option<Tag<'a>>) -> (copy: Option<Tag<'a>>)
    ensures
        copy == *tag,
{
    match tag {
        Some(t) => Some(t.clone()),
        None => None,
    }
}

/// Takes ownership of an optional tag.
pub fn own_tag<'a>(tag: Option<Tag<'a>>) -> (owned: Option<Tag<'static>>)
    ensures
        tag_content(owned) == tag_content(tag),
        tag_is_owned(owned),
{
    match tag {
        Some(t) => Some(t.into_owned()),
        None => None,
    }
}

} // verus!
