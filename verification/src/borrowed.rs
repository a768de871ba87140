//! A zero-copy YAML value borrowing scalar text directly from the input, and its
//! owned counterpart.

use std::ops::Deref;

use vstd::prelude::*;

use crate::error::{Error, ErrorKind};
use crate::node::Node;

verus! {

/// A YAML value that borrows scalar slices directly from the source string.
///
/// It derefs to the [`Node`] it wraps, so the whole node surface -- `is_null`,
/// `as_str`, `as_bool`, `as_i64`, `as_u64`, `as_mapping`, `as_sequence`, `get_path`
/// and `query` -- is available directly on it.
#[derive(Debug, PartialEq)]
pub struct BorrowedValue<'a>(Node<'a>);

/// A YAML value that owns everything it holds, and so outlives its source.
///
/// It derefs to the [`Node`] it wraps.
#[derive(Debug, PartialEq)]
pub struct Value(Node<'static>);

impl<'a> BorrowedValue<'a> {
    /// The node it wraps.
    pub closed spec fn node(self) -> Node<'a> {
        self.0
    }

    /// Takes the first document of an input, as a composer yields it.
    ///
    /// An input without a document is an unexpected end of input.
    pub fn parse(first: Option<Result<Node<'a>, Error>>) -> (value: Result<Self, Error>)
        ensures
            match first {
                Some(Ok(node)) => value matches Ok(v) && v.node() == node,
                Some(Err(error)) => value matches Err(e) && e == error,
                None => value matches Err(e) && e == (Error {
                    kind: ErrorKind::UnexpectedEof,
                    span: None,
                }),
            },
    {
        match first {
            Some(Ok(node)) => Ok(BorrowedValue(node)),
            Some(Err(error)) => Err(error),
            None => Err(Error::spanless(ErrorKind::UnexpectedEof)),
        }
    }

    /// Wraps an existing borrowed node.
    pub fn new(node: Node<'a>) -> (value: Self)
        ensures
            value.node() == node,
    {
        BorrowedValue(node)
    }

    /// Returns a reference to the inner node.
    pub fn as_node(&self) -> (node: &Node<'a>)
        ensures
            *node == self.node(),
    {
        &self.0
    }

    /// Clones every borrowed scalar so the value outlives its source.
    ///
    /// It pays the copy once, at the point the caller chooses, rather than on every
    /// access.
    pub fn into_owned(self) -> (value: Value)
        ensures
            value.node().content() == self.node().content(),
            value.node().is_owned(),
    {
        Value(self.0.into_owned())
    }

    /// Consumes self, returning the inner node.
    pub fn into_node(self) -> (node: Node<'a>)
        ensures
            node == self.node(),
    {
        self.0
    }
}

impl<'a> Clone for BorrowedValue<'a> {
    fn clone(&self) -> (copy: Self)
        ensures
            copy.node().is_copy_of(self.node()),
            copy.node().content() == self.node().content(),
    {
        BorrowedValue(self.0.clone())
    }
}

impl<'a> Deref for BorrowedValue<'a> {
    type Target = Node<'a>;

    fn deref(&self) -> (node: &Node<'a>)
        ensures
            *node == self.node(),
    {
        &self.0
    }
}

impl<'a> From<Node<'a>> for BorrowedValue<'a> {
    fn from(node: Node<'a>) -> (value: Self) {
        BorrowedValue(node)
    }
}

impl<'a> vstd::std_specs::convert::FromSpecImpl<Node<'a>> for BorrowedValue<'a> {
    open spec fn obeys_from_spec() -> bool {
        true
    }

    closed spec fn from_spec(node: Node<'a>) -> Self {
        BorrowedValue(node)
    }
}

impl<'a> From<BorrowedValue<'a>> for Node<'a> {
    fn from(value: BorrowedValue<'a>) -> (node: Self) {
        value.0
    }
}

impl<'a> vstd::std_specs::convert::FromSpecImpl<BorrowedValue<'a>> for Node<'a> {
    open spec fn obeys_from_spec() -> bool {
        true
    }

    open spec fn from_spec(value: BorrowedValue<'a>) -> Self {
        value.node()
    }
}

impl Value {
    /// The node it wraps.
    pub closed spec fn node(self) -> Node<'static> {
        self.0
    }

    /// Wraps an existing owned node.
    pub fn new(node: Node<'static>) -> (value: Self)
        ensures
            value.node() == node,
    {
        Value(node)
    }

    /// Returns a reference to the inner node.
    pub fn as_node(&self) -> (node: &Node<'static>)
        ensures
            *node == self.node(),
    {
        &self.0
    }
}

impl Deref for Value {
    type Target = Node<'static>;

    fn deref(&self) -> (node: &Node<'static>)
        ensures
            *node == self.node(),
    {
        &self.0
    }
}

/// Wrapping a node and taking it out again gives back the same node.
pub proof fn law_wrapping_keeps_the_node<'a>(node: Node<'a>)
    ensures
        <BorrowedValue<'a> as vstd::std_specs::convert::FromSpec<Node<'a>>>::from_spec(
            node,
        ).node() == node,
        <Node<'a> as vstd::std_specs::convert::FromSpec<BorrowedValue<'a>>>::from_spec(
            <BorrowedValue<'a> as vstd::std_specs::convert::FromSpec<Node<'a>>>::from_spec(node),
        ) == node,
{
}

} // verus!
