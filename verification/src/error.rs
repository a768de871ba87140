//! What can go wrong, and how it is reported.

use vstd::prelude::*;
use vstd::string::*;

use crate::text::decimal_text;
use crate::types::Span;

pub mod laws;

verus! {

/// The reason a document was refused.
#[derive(Debug, PartialEq, Eq)]
pub enum ErrorKind {
    /// The input ended where a document or a value was expected.
    UnexpectedEof,
    /// An alias names an anchor that is not defined where the alias stands.
    UndefinedAlias(String),
    /// More aliases were expanded than the limit allows.
    AliasExpansionLimitExceeded {
        /// The limit that was exceeded.
        limit: usize,
    },
    /// The expanded aliases stand for more events than the limit allows.
    AliasMaterializationLimitExceeded {
        /// The limit that was exceeded.
        limit: usize,
    },
    /// An expanded alias nests collections deeper than the limit allows.
    DepthLimitExceeded {
        /// The limit that was exceeded.
        limit: usize,
    },
    /// The text is not well-formed YAML; the parser says why.
    Syntax(String),
}

/// A reason, wherever its text is stored.
pub enum Reason {
    /// The input ended where a document or a value was expected.
    UnexpectedEof,
    /// An alias names an anchor that is not defined where the alias stands.
    UndefinedAlias(Seq<char>),
    /// More aliases were expanded than the limit allows.
    AliasExpansionLimitExceeded { limit: usize },
    /// The expanded aliases stand for more events than the limit allows.
    AliasMaterializationLimitExceeded { limit: usize },
    /// An expanded alias nests collections deeper than the limit allows.
    DepthLimitExceeded { limit: usize },
    /// The text is not well-formed YAML.
    Syntax(Seq<char>),
}

impl View for ErrorKind {
    type V = Reason;

    open spec fn view(&self) -> Reason {
        match self {
            ErrorKind::UnexpectedEof => Reason::UnexpectedEof,
            ErrorKind::UndefinedAlias(name) => Reason::UndefinedAlias(name@),
            ErrorKind::AliasExpansionLimitExceeded { limit } =>
            Reason::AliasExpansionLimitExceeded { limit: *limit },
            ErrorKind::AliasMaterializationLimitExceeded { limit } =>
            Reason::AliasMaterializationLimitExceeded { limit: *limit },
            ErrorKind::DepthLimitExceeded { limit } => Reason::DepthLimitExceeded {
                limit: *limit,
            },
            ErrorKind::Syntax(text) => Reason::Syntax(text@),
        }
    }
}

impl Reason {
    /// The reason in words.
    pub open spec fn words(self) -> Seq<char> {
        match self {
            Reason::UnexpectedEof => "unexpected end of input"@,
            Reason::UndefinedAlias(name) => "undefined alias `"@ + name + "`"@,
            Reason::AliasExpansionLimitExceeded { limit } => "alias expansion limit of "@
                + crate::text::decimal(limit as int) + " exceeded"@,
            Reason::AliasMaterializationLimitExceeded { limit } =>
            "alias materialization limit of "@ + crate::text::decimal(limit as int)
                + " exceeded"@,
            Reason::DepthLimitExceeded { limit } => "nesting depth limit of "@
                + crate::text::decimal(limit as int) + " exceeded"@,
            Reason::Syntax(text) => text,
        }
    }
}

impl ErrorKind {
    /// Says the reason in words.
    pub fn message(&self) -> (text: String)
        ensures
            text@ == self@.words(),
    {
        match self {
            ErrorKind::UnexpectedEof => "unexpected end of input".to_owned(),
            ErrorKind::UndefinedAlias(name) => "undefined alias `".to_owned().concat(
                name.as_str(),
            ).concat("`"),
            ErrorKind::AliasExpansionLimitExceeded { limit } => limit_message(
                "alias expansion limit of ",
                *limit,
            ),
            ErrorKind::AliasMaterializationLimitExceeded { limit } => limit_message(
                "alias materialization limit of ",
                *limit,
            ),
            ErrorKind::DepthLimitExceeded { limit } => limit_message(
                "nesting depth limit of ",
                *limit,
            ),
            ErrorKind::Syntax(text) => text.clone(),
        }
    }
}

/// Says that a limit was exceeded.
fn limit_message(what: &str, limit: usize) -> (text: String)
    ensures
        text@ == what@ + crate::text::decimal(limit as int) + " exceeded"@,
{
    what.to_owned().concat(decimal_text(limit as u64).as_str()).concat(" exceeded")
}

/// A refused document: the reason, and where it was found if that is known.
#[derive(Debug, PartialEq, Eq)]
pub struct Error {
    /// The reason.
    pub kind: ErrorKind,
    /// Where it was found.
    pub span: Option<Span>,
}

/// A refusal, wherever its text is stored.
pub struct Failure {
    /// The reason.
    pub reason: Reason,
    /// Where it was found.
    pub span: Option<Span>,
}

impl View for Error {
    type V = Failure;

    open spec fn view(&self) -> Failure {
        Failure { reason: self.kind@, span: self.span }
    }
}

impl Error {
    /// An error found at `span`.
    pub fn new(kind: ErrorKind, span: Span) -> (error: Self)
        ensures
            error == (Error { kind, span: Some(span) }),
    {
        Error { kind, span: Some(span) }
    }

    /// An error that belongs to no place in the source.
    pub fn spanless(kind: ErrorKind) -> (error: Self)
        ensures
            error == (Error { kind, span: None }),
    {
        Error { kind, span: None }
    }

    /// Says the reason in words.
    pub fn message(&self) -> (text: String)
        ensures
            text@ == self@.reason.words(),
    {
        self.kind.message()
    }
}

/// A value that could not be read out of an event stream.
#[derive(Debug, PartialEq, Eq)]
pub enum DeError {
    /// The event stream itself failed.
    Core(Error),
    /// The events are not the value that was asked for; the text says why.
    Message(String),
}

/// What a reading error says, wherever its text is stored.
pub enum DeFailure {
    /// The event stream itself failed.
    Core(Failure),
    /// The events are not the value that was asked for.
    Message(Seq<char>),
}

impl View for DeError {
    type V = DeFailure;

    open spec fn view(&self) -> DeFailure {
        match self {
            DeError::Core(e) => DeFailure::Core(e@),
            DeError::Message(text) => DeFailure::Message(text@),
        }
    }
}

impl DeError {
    /// An error made of this text.
    pub fn custom(text: &str) -> (error: Self)
        ensures
            error@ == DeFailure::Message(text@),
    {
        DeError::Message(text.to_owned())
    }

    /// An error made of this text, with `found` quoted at its end.
    pub fn quoting(text: &str, found: &str) -> (error: Self)
        ensures
            error@ == DeFailure::Message(text@ + "`"@ + found@ + "`"@),
    {
        DeError::Message(text.to_owned().concat("`").concat(found).concat("`"))
    }

    /// Says what went wrong in words.
    pub fn message(&self) -> (text: String)
        ensures
            text@ == (match self@ {
                DeFailure::Core(f) => f.reason.words(),
                DeFailure::Message(t) => t,
            }),
    {
        match self {
            DeError::Core(e) => e.message(),
            DeError::Message(text) => text.clone(),
        }
    }
}

} // verus!
