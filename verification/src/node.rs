//! The YAML representation tree (`Node`) and its constituent nodes.

use std::borrow::Cow;

use vstd::prelude::*;

use crate::path::{parse_path, Segment, Step};
use crate::schema;
use crate::schema::FloatForm;
use crate::text::{cow_clone, cow_into_owned, cow_str, same_text};
use crate::types::{clone_tag, own_tag, CollectionStyle, ScalarStyle, Span, Tag, TagContent, YamlVersion};

pub mod laws;
pub mod search;
pub mod structure;

verus! {

/// A YAML node in the representation graph.
///
/// The lifetime `'a` ties borrowed scalar values to the input source, enabling
/// zero-copy parsing for plain scalars.
#[derive(Debug, PartialEq)]
pub enum Node<'a> {
    /// A scalar (leaf) value.
    Scalar(Scalar<'a>),
    /// An ordered sequence of nodes.
    Sequence(Sequence<'a>),
    /// An ordered mapping of key-value pairs.
    Mapping(Mapping<'a>),
}

/// A YAML scalar (leaf) value.
#[derive(Debug, PartialEq, Eq)]
pub struct Scalar<'a> {
    /// The scalar value, borrowing from the input when no transformation is needed.
    pub value: Cow<'a, str>,
    /// Optional YAML tag.
    pub tag: Option<Tag<'a>>,
    /// The presentation style used in the source.
    pub style: ScalarStyle,
    /// Source span.
    pub span: Span,
}

/// A YAML sequence (ordered list).
#[derive(Debug, PartialEq)]
pub struct Sequence<'a> {
    /// The items in the sequence.
    pub items: Vec<Node<'a>>,
    /// Optional YAML tag.
    pub tag: Option<Tag<'a>>,
    /// The presentation style used in the source.
    pub style: CollectionStyle,
    /// Source span.
    pub span: Span,
}

/// A YAML mapping (ordered key-value pairs).
///
/// Uses `Vec<(Node, Node)>` to preserve insertion order and to support non-string
/// keys.
#[derive(Debug, PartialEq)]
pub struct Mapping<'a> {
    /// The key-value entries in insertion order.
    pub entries: Vec<(Node<'a>, Node<'a>)>,
    /// Optional YAML tag.
    pub tag: Option<Tag<'a>>,
    /// The presentation style used in the source.
    pub style: CollectionStyle,
    /// Source span.
    pub span: Span,
}

// ---- content -----------------------------------------------------------

/// Everything a node says, whether its text is borrowed or owned.
pub enum Content {
    /// A scalar.
    Scalar { text: Seq<char>, tag: Option<TagContent>, style: ScalarStyle, span: Span },
    /// A sequence and what its items say.
    Sequence {
        items: Seq<Content>,
        tag: Option<TagContent>,
        layout: CollectionStyle,
        span: Span,
    },
    /// A mapping and what its keys and values say.
    Mapping {
        entries: Seq<(Content, Content)>,
        tag: Option<TagContent>,
        layout: CollectionStyle,
        span: Span,
    },
}

impl<'a> Node<'a> {
    /// Everything the node says.
    pub open spec fn content(self) -> Content
        decreases self,
    {
        match self {
            Node::Scalar(s) => Content::Scalar {
                text: s.value@,
                tag: crate::types::tag_content(s.tag),
                style: s.style,
                span: s.span,
            },
            Node::Sequence(s) => Content::Sequence {
                items: Seq::new(
                    s.items@.len(),
                    |i: int|
                        if 0 <= i < s.items@.len() {
                            s.items@[i].content()
                        } else {
                            arbitrary()
                        },
                ),
                tag: crate::types::tag_content(s.tag),
                layout: s.style,
                span: s.span,
            },
            Node::Mapping(m) => Content::Mapping {
                entries: Seq::new(
                    m.entries@.len(),
                    |i: int|
                        if 0 <= i < m.entries@.len() {
                            (m.entries@[i].0.content(), m.entries@[i].1.content())
                        } else {
                            arbitrary()
                        },
                ),
                tag: crate::types::tag_content(m.tag),
                layout: m.style,
                span: m.span,
            },
        }
    }

    /// Whether the node borrows nothing: every text and every tag in it is owned.
    pub open spec fn is_owned(self) -> bool
        decreases self,
    {
        match self {
            Node::Scalar(s) => s.value is Owned && crate::types::tag_is_owned(s.tag),
            Node::Sequence(s) => {
                &&& crate::types::tag_is_owned(s.tag)
                &&& forall|i: int|
                    0 <= i < s.items@.len() ==> (#[trigger] s.items@[i]).is_owned()
            },
            Node::Mapping(m) => {
                &&& crate::types::tag_is_owned(m.tag)
                &&& forall|i: int|
                    #![trigger m.entries@[i]]
                    0 <= i < m.entries@.len() ==> m.entries@[i].0.is_owned()
                        && m.entries@[i].1.is_owned()
            },
        }
    }

    /// Whether the node is the same as `other` in every part, at every depth: the same
    /// scalars and tags, a borrowed text borrowed and an owned one owned.
    pub open spec fn is_copy_of(self, other: Node<'a>) -> bool
        decreases self,
    {
        match (self, other) {
            (Node::Scalar(s), Node::Scalar(o)) => s == o,
            (Node::Sequence(s), Node::Sequence(o)) => {
                &&& s.tag == o.tag
                &&& s.style == o.style
                &&& s.span == o.span
                &&& s.items@.len() == o.items@.len()
                &&& forall|i: int|
                    0 <= i < s.items@.len() ==> (#[trigger] s.items@[i]).is_copy_of(o.items@[i])
            },
            (Node::Mapping(m), Node::Mapping(o)) => {
                &&& m.tag == o.tag
                &&& m.style == o.style
                &&& m.span == o.span
                &&& m.entries@.len() == o.entries@.len()
                &&& forall|i: int|
                    #![trigger m.entries@[i]]
                    0 <= i < m.entries@.len() ==> m.entries@[i].0.is_copy_of(o.entries@[i].0)
                        && m.entries@[i].1.is_copy_of(o.entries@[i].1)
            },
            _ => false,
        }
    }
}

impl<'a> Clone for Scalar<'a> {
    fn clone(&self) -> (copy: Self)
        ensures
            copy == *self,
    {
        Scalar {
            value: cow_clone(&self.value),
            tag: clone_tag(&self.tag),
            style: self.style,
            span: self.span,
        }
    }
}

impl<'a> Clone for Sequence<'a> {
    fn clone(&self) -> (copy: Self)
        ensures
            Node::Sequence(copy).is_copy_of(Node::Sequence(*self)),
            Node::Sequence(copy).content() == Node::Sequence(*self).content(),
        decreases self,
    {
        let mut items: Vec<Node<'a>> = Vec::new();
        let mut i: usize = 0;
        while i < self.items.len()
            invariant
                i <= self.items@.len(),
                items@.len() == i,
                forall|k: int|
                    #![trigger items@[k]]
                    0 <= k < i ==> items@[k].is_copy_of(self.items@[k]) && items@[k].content()
                        == self.items@[k].content(),
            decreases self.items@.len() - i,
        {
            items.push(self.items[i].clone());
            i = i + 1;
        }
        let copy = Sequence {
            items,
            tag: clone_tag(&self.tag),
            style: self.style,
            span: self.span,
        };
        assert(Node::Sequence(copy).content()->items =~= Node::Sequence(*self).content()->items);
        copy
    }
}

impl<'a> Clone for Mapping<'a> {
    fn clone(&self) -> (copy: Self)
        ensures
            Node::Mapping(copy).is_copy_of(Node::Mapping(*self)),
            Node::Mapping(copy).content() == Node::Mapping(*self).content(),
        decreases self,
    {
        let mut entries: Vec<(Node<'a>, Node<'a>)> = Vec::new();
        let mut i: usize = 0;
        while i < self.entries.len()
            invariant
                i <= self.entries@.len(),
                entries@.len() == i,
                forall|k: int|
                    #![trigger entries@[k]]
                    0 <= k < i ==> entries@[k].0.is_copy_of(self.entries@[k].0)
                        && entries@[k].1.is_copy_of(self.entries@[k].1)
                        && entries@[k].0.content() == self.entries@[k].0.content()
                        && entries@[k].1.content() == self.entries@[k].1.content(),
            decreases self.entries@.len() - i,
        {
            let entry = &self.entries[i];
            entries.push((entry.0.clone(), entry.1.clone()));
            i = i + 1;
        }
        let copy = Mapping {
            entries,
            tag: clone_tag(&self.tag),
            style: self.style,
            span: self.span,
        };
        assert(Node::Mapping(copy).content()->entries =~= Node::Mapping(*self).content()->entries);
        copy
    }
}

impl<'a> Clone for Node<'a> {
    fn clone(&self) -> (copy: Self)
        ensures
            copy.is_copy_of(*self),
            copy.content() == self.content(),
        decreases self,
    {
        match self {
            Node::Scalar(s) => Node::Scalar(s.clone()),
            Node::Sequence(s) => Node::Sequence(s.clone()),
            Node::Mapping(m) => Node::Mapping(m.clone()),
        }
    }
}

// ---- shape -------------------------------------------------------------

impl<'a> Node<'a> {
    /// The text of a scalar node.
    pub open spec fn text(self) -> Option<Seq<char>> {
        match self {
            Node::Scalar(s) => Some(s.value@),
            _ => None,
        }
    }

    /// The text of a scalar node written without quotes.
    pub open spec fn plain(self) -> Option<Seq<char>> {
        match self {
            Node::Scalar(s) => if s.style == ScalarStyle::Plain {
                Some(s.value@)
            } else {
                None
            },
            _ => None,
        }
    }

    /// How many nodes hang directly below this one. A mapping's keys are labels,
    /// so only its values count.
    pub open spec fn arity(self) -> nat {
        match self {
            Node::Scalar(_) => 0,
            Node::Sequence(s) => s.items@.len(),
            Node::Mapping(m) => m.entries@.len(),
        }
    }

    /// The `j`th node directly below this one.
    pub open spec fn child(self, j: int) -> Node<'a> {
        match self {
            Node::Scalar(_) => self,
            Node::Sequence(s) => s.items@[j],
            Node::Mapping(m) => m.entries@[j].1,
        }
    }

    /// Where every node at or below this one stands, in document order: this node
    /// first, then everything below its first child, and so on.
    ///
    /// A place is the list of child numbers that leads to it.
    pub open spec fn places(self) -> Seq<Seq<int>>
        decreases self, self.arity() + 1,
    {
        seq![Seq::<int>::empty()] + self.places_from(0)
    }

    /// The places below this node, from its `j`th child on.
    pub open spec fn places_from(self, j: int) -> Seq<Seq<int>>
        decreases self, self.arity() - j,
    {
        if 0 <= j < self.arity() {
            under(j, self.child(j).places()) + self.places_from(j + 1)
        } else {
            Seq::empty()
        }
    }

    /// The node at a place.
    pub open spec fn at(self, place: Seq<int>) -> Node<'a>
        decreases place.len(),
    {
        if place.len() == 0 {
            self
        } else {
            self.child(place[0]).at(place.skip(1))
        }
    }
}

/// Places below a node become places below its parent, behind its number.
pub open spec fn under(j: int, places: Seq<Seq<int>>) -> Seq<Seq<int>> {
    places.map_values(|p: Seq<int>| seq![j] + p)
}

// ---- paths -------------------------------------------------------------

/// The number of the first entry whose key is a scalar with this text.
pub open spec fn first_key(entries: Seq<(Node<'_>, Node<'_>)>, key: Seq<char>) -> Option<int>
    decreases entries.len(),
{
    if entries.len() == 0 {
        None
    } else if entries[0].0.text() == Some(key) {
        Some(0)
    } else {
        match first_key(entries.skip(1), key) {
            Some(i) => Some(i + 1),
            None => None,
        }
    }
}

/// Finds the first entry whose key is a scalar with this text.
fn find_key(entries: &Vec<(Node<'_>, Node<'_>)>, key: &str) -> (number: Option<usize>)
    ensures
        match first_key(entries@, key@) {
            Some(j) => number matches Some(n) && n == j,
            None => number is None,
        },
        number matches Some(n) ==> n < entries@.len() && (entries@[n as int].0 matches Node::Scalar(s)
            && s.value@ == key@),
        forall|j: int|
            0 <= j < (match number {
                Some(n) => n as int,
                None => entries@.len() as int,
            }) ==> !((#[trigger] entries@[j]).0 matches Node::Scalar(s) && s.value@ == key@),
{
    let mut i: usize = 0;
    assert(entries@.skip(0) =~= entries@);
    while i < entries.len()
        invariant
            i <= entries@.len(),
            forall|j: int|
                0 <= j < i ==> !((#[trigger] entries@[j]).0 matches Node::Scalar(s) && s.value@
                    == key@),
            match first_key(entries@.skip(i as int), key@) {
                Some(j) => first_key(entries@, key@) == Some(i + j),
                None => first_key(entries@, key@) is None,
            },
        decreases entries@.len() - i,
    {
        assert(entries@.skip(i as int)[0] == entries@[i as int]);
        assert(entries@.skip(i as int).skip(1) =~= entries@.skip(i + 1));
        if let Some(text) = entries[i].0.as_str() {
            if same_text(text, key) {
                return Some(i);
            }
        }
        i = i + 1;
    }
    None
}

impl<'a> Node<'a> {
    /// The number of the child that a step leads to.
    ///
    /// The node decides between index and key: a mapping asks for the step's text
    /// and a sequence for its index. A descent leads to no single child.
    pub open spec fn next(self, step: Step) -> Option<int> {
        match self {
            Node::Scalar(_) => None,
            Node::Sequence(s) => match step.index() {
                Some(i) => if 0 <= i < s.items@.len() {
                    Some(i)
                } else {
                    None
                },
                None => None,
            },
            Node::Mapping(m) => match step.key() {
                Some(k) => first_key(m.entries@, k),
                None => None,
            },
        }
    }

    /// The node that a list of steps leads to, if every step leads somewhere.
    pub open spec fn walk(self, steps: Seq<Step>) -> Option<Node<'a>>
        decreases steps.len(),
    {
        if steps.len() == 0 {
            Some(self)
        } else {
            match self.next(steps[0]) {
                Some(j) => self.child(j).walk(steps.skip(1)),
                None => None,
            }
        }
    }

    /// Whether a list of steps leads from this node to `place`.
    ///
    /// An ordinary step moves to one child. A descent may stop here, or move into
    /// any child and still be a descent.
    pub open spec fn leads_to(self, steps: Seq<Step>, place: Seq<int>) -> bool
        decreases steps.len() + place.len(),
    {
        if steps.len() == 0 {
            place.len() == 0
        } else if steps[0] is Descend {
            ||| self.leads_to(steps.skip(1), place)
            ||| place.len() > 0 && self.child(place[0]).leads_to(steps, place.skip(1))
        } else {
            &&& place.len() > 0
            &&& self.next(steps[0]) == Some(place[0])
            &&& self.child(place[0]).leads_to(steps.skip(1), place.skip(1))
        }
    }

    /// The nodes that a list of steps leads to, in document order.
    pub open spec fn matches(self, steps: Seq<Step>) -> Seq<Node<'a>> {
        self.places().filter(|p: Seq<int>| self.leads_to(steps, p)).map_values(
            |p: Seq<int>| self.at(p),
        )
    }

    /// The number of the child that `segment` leads to, or `None`.
    ///
    /// A descent segment always yields `None` here -- descent branches, and a
    /// single-result walk cannot express "any depth".
    fn step_number(&self, segment: Segment<'_>) -> (number: Option<usize>)
        ensures
            match self.next(segment@) {
                Some(j) => number matches Some(n) && n == j,
                None => number is None,
            },
            number matches Some(n) ==> n < self.arity(),
    {
        match self {
            Node::Scalar(_) => None,
            Node::Sequence(s) => match segment.as_index() {
                Some(i) => if i < s.items.len() {
                    Some(i)
                } else {
                    None
                },
                None => None,
            },
            Node::Mapping(m) => match segment.as_key() {
                Some(key) => find_key(&m.entries, key),
                None => None,
            },
        }
    }

    /// The `j`th node directly below this one.
    fn child_ref(&self, j: usize) -> (child: &Self)
        requires
            j < self.arity(),
        ensures
            *child == self.child(j as int),
    {
        match self {
            Node::Scalar(_) => self,
            Node::Sequence(s) => &s.items[j],
            Node::Mapping(m) => &m.entries[j].1,
        }
    }

    /// Follows one path segment, or `None`.
    fn step(&self, segment: Segment<'_>) -> (child: Option<&Self>)
        ensures
            match self.next(segment@) {
                Some(j) => child matches Some(c) && *c == self.child(j),
                None => child is None,
            },
    {
        match self.step_number(segment) {
            Some(j) => Some(self.child_ref(j)),
            None => None,
        }
    }

    /// Resolves a dotted, indexed path to the node it addresses.
    ///
    /// Segments are `.`-separated. A segment that parses as a non-negative integer
    /// indexes a sequence; anything else names a mapping key. The empty path
    /// addresses the root.
    ///
    /// Returns a **borrow**, and `None` for an absent key, an out-of-range index, a
    /// step into a scalar, or a `..` descent.
    pub fn get_path(&self, path: &str) -> (found: Option<&Self>)
        ensures
            match self.walk(crate::path::path_steps(path@)) {
                Some(n) => found matches Some(f) && *f == n,
                None => found is None,
            },
    {
        let segments = parse_path(path);
        let ghost steps = crate::path::path_steps(path@);
        let mut current: &Self = self;
        let mut i: usize = 0;
        assert(steps.skip(0) =~= steps);
        while i < segments.len()
            invariant
                i <= segments@.len(),
                steps == crate::path::path_steps(path@),
                crate::path::steps_of(segments@) == steps,
                self.walk(steps) == current.walk(steps.skip(i as int)),
            decreases segments@.len() - i,
        {
            assert(steps.skip(i as int)[0] == segments@[i as int]@);
            assert(steps.skip(i as int).skip(1) =~= steps.skip(i + 1));
            match current.step(segments[i]) {
                Some(child) => {
                    current = child;
                },
                None => {
                    return None;
                },
            }
            i = i + 1;
        }
        Some(current)
    }

    /// Returns the scalar value as a string slice, if this is a scalar node.
    pub fn as_str(&self) -> (text: Option<&str>)
        ensures
            match self.text() {
                Some(t) => text matches Some(s) && s@ == t,
                None => text is None,
            },
    {
        match self {
            Node::Scalar(s) => Some(cow_str(&s.value)),
            _ => None,
        }
    }
}

// ---- accessors ---------------------------------------------------------

impl<'a> Node<'a> {
    /// The integer a node resolves to, if it is a plain scalar that does.
    pub open spec fn signed(self) -> Option<int> {
        match self.plain() {
            Some(t) => crate::schema::int_value(t),
            None => None,
        }
    }

    /// The unsigned integer a node resolves to, if it is a plain scalar that does.
    pub open spec fn unsigned(self) -> Option<int> {
        match self.plain() {
            Some(t) => crate::schema::uint_value(t),
            None => None,
        }
    }

    /// The kind of float a node resolves to, if it is a plain scalar that does.
    pub open spec fn float(self) -> Option<FloatForm> {
        match self.plain() {
            Some(t) => crate::schema::float_value(t),
            None => None,
        }
    }

    /// The source span of the node.
    pub open spec fn extent(self) -> Span {
        match self {
            Node::Scalar(s) => s.span,
            Node::Sequence(s) => s.span,
            Node::Mapping(m) => m.span,
        }
    }

    /// The tag of the node, if it has one.
    pub open spec fn label(self) -> Option<Tag<'a>> {
        match self {
            Node::Scalar(s) => s.tag,
            Node::Sequence(s) => s.tag,
            Node::Mapping(m) => m.tag,
        }
    }

    /// Returns the source span of this node.
    pub fn span(&self) -> (span: Span)
        ensures
            span == self.extent(),
    {
        match self {
            Node::Scalar(s) => s.span,
            Node::Sequence(s) => s.span,
            Node::Mapping(m) => m.span,
        }
    }

    /// Returns the tag of this node, if it has one.
    pub fn tag(&self) -> (tag: Option<&Tag<'a>>)
        ensures
            match self.label() {
                Some(t) => tag matches Some(f) && *f == t,
                None => tag is None,
            },
    {
        let tag = match self {
            Node::Scalar(s) => &s.tag,
            Node::Sequence(s) => &s.tag,
            Node::Mapping(m) => &m.tag,
        };
        match tag {
            Some(t) => Some(t),
            None => None,
        }
    }

    /// Returns `true` if this is a scalar node.
    pub fn is_scalar(&self) -> (yes: bool)
        ensures
            yes == (self is Scalar),
    {
        matches!(self, Node::Scalar(_))
    }

    /// Returns `true` if this is a sequence node.
    pub fn is_sequence(&self) -> (yes: bool)
        ensures
            yes == (self is Sequence),
    {
        matches!(self, Node::Sequence(_))
    }

    /// Returns `true` if this is a mapping node.
    pub fn is_mapping(&self) -> (yes: bool)
        ensures
            yes == (self is Mapping),
    {
        matches!(self, Node::Mapping(_))
    }

    /// The scalar's text if this is a **plain** (unquoted) scalar.
    ///
    /// Quoting is the author stating that the value is text, so every typed
    /// accessor below declines a quoted scalar: `"true"` is a string, not a boolean,
    /// and `""` is the empty string, not null.
    fn plain_text(&self) -> (text: Option<&str>)
        ensures
            match self.plain() {
                Some(t) => text matches Some(s) && s@ == t,
                None => text is None,
            },
    {
        match self {
            Node::Scalar(s) => match s.style {
                ScalarStyle::Plain => Some(cow_str(&s.value)),
                _ => None,
            },
            _ => None,
        }
    }

    /// Returns `true` if this is a plain scalar resolving to null.
    ///
    /// That is `null`, `Null`, `NULL`, `~`, or the empty plain scalar. A quoted
    /// `"null"` is the four-character string and returns `false`, as does any
    /// collection.
    pub fn is_null(&self) -> (yes: bool)
        ensures
            yes == (self.plain() matches Some(t) && crate::schema::null_text(t)),
    {
        match self.plain_text() {
            Some(text) => schema::is_null(text),
            None => false,
        }
    }

    /// Resolves this node as a boolean, or `None`.
    ///
    /// **YAML 1.2 resolution only.** A `Node` carries no document version, so the
    /// 1.1 spellings -- `yes`, `on`, `y` and their negatives -- are strings here.
    ///
    /// Matching is case-sensitive: `true`, `True` and `TRUE` resolve, `tRuE` does
    /// not.
    pub fn as_bool(&self) -> (value: Option<bool>)
        ensures
            value == (match self.plain() {
                Some(t) => crate::schema::bool_value(t, YamlVersion::V1_2),
                None => None,
            }),
    {
        match self.plain_text() {
            Some(text) => schema::resolve_bool(text, YamlVersion::V1_2),
            None => None,
        }
    }

    /// Resolves this node as a signed integer, or `None`.
    ///
    /// Accepts the Core Schema radix prefixes: `0x`/`0X` and `0o`/`0O`. A bare
    /// leading zero is decimal -- `017` is seventeen.
    pub fn as_i64(&self) -> (value: Option<i64>)
        ensures
            match self.signed() {
                Some(n) => value matches Some(v) && v == n,
                None => value is None,
            },
    {
        match self.plain_text() {
            Some(text) => schema::resolve_int(text),
            None => None,
        }
    }

    /// Resolves this node as an unsigned integer, or `None`.
    ///
    /// A leading `-` is refused outright, so `-0` does not become zero.
    pub fn as_u64(&self) -> (value: Option<u64>)
        ensures
            match self.unsigned() {
                Some(n) => value matches Some(v) && v == n,
                None => value is None,
            },
    {
        match self.plain_text() {
            Some(text) => schema::resolve_uint(text),
            None => None,
        }
    }

    /// Which kind of float this node resolves to, or `None`.
    ///
    /// Only the dotted infinity and NaN forms resolve. Bare `inf`, `infinity` and
    /// `nan` are strings under YAML 1.2.
    pub fn as_float_form(&self) -> (form: Option<FloatForm>)
        ensures
            form == self.float(),
    {
        match self.plain_text() {
            Some(text) => schema::float_form(text),
            None => None,
        }
    }

    /// Returns a reference to the sequence items, if this is a sequence node.
    pub fn as_sequence(&self) -> (items: Option<&[Self]>)
        ensures
            match *self {
                Node::Sequence(s) => items matches Some(i) && i@ == s.items@,
                _ => items is None,
            },
    {
        match self {
            Node::Sequence(s) => Some(s.items.as_slice()),
            _ => None,
        }
    }

    /// Returns a reference to the mapping entries, if this is a mapping node.
    pub fn as_mapping(&self) -> (entries: Option<&[(Self, Self)]>)
        ensures
            match *self {
                Node::Mapping(m) => entries matches Some(e) && e@ == m.entries@,
                _ => entries is None,
            },
    {
        match self {
            Node::Mapping(m) => Some(m.entries.as_slice()),
            _ => None,
        }
    }
}

// ---- ownership ---------------------------------------------------------

impl<'a> Scalar<'a> {
    /// Converts this scalar into a `'static` lifetime by taking ownership of borrowed data.
    pub fn into_owned(self) -> (owned: Scalar<'static>)
        ensures
            Node::Scalar(owned).content() == Node::Scalar(self).content(),
            Node::Scalar(owned).is_owned(),
    {
        Scalar {
            value: cow_into_owned(self.value),
            tag: own_tag(self.tag),
            style: self.style,
            span: self.span,
        }
    }
}

impl<'a> Sequence<'a> {
    /// Converts this sequence into a `'static` lifetime by taking ownership of borrowed data.
    pub fn into_owned(self) -> (owned: Sequence<'static>)
        ensures
            Node::Sequence(owned).content() == Node::Sequence(self).content(),
            Node::Sequence(owned).is_owned(),
        decreases self,
    {
        let ghost whole = self;
        let ghost source = self.items@;
        let mut items: Vec<Node<'static>> = Vec::new();
        for item in it: self.items
            invariant
                whole.items@ == source,
                it.seq() == source,
                items@.len() == it.index(),
                forall|k: int|
                    #![trigger items@[k]]
                    0 <= k < items@.len() ==> items@[k].content() == source[k].content()
                        && items@[k].is_owned(),
        {
            assert(item == source[items@.len() as int]);
            assert(decreases_to!(whole => whole.items));
            assert(decreases_to!(whole.items => whole.items@));
            assert(decreases_to!(whole.items@ => whole.items@[items@.len() as int]));
            items.push(item.into_owned());
        }
        let owned = Sequence {
            items,
            tag: own_tag(self.tag),
            style: self.style,
            span: self.span,
        };
        assert(Node::Sequence(owned).content()->items =~= Node::Sequence(whole).content()->items);
        owned
    }
}

impl<'a> Node<'a> {
    /// Converts this node into a `'static` lifetime by taking ownership of all borrowed data.
    pub fn into_owned(self) -> (owned: Node<'static>)
        ensures
            owned.content() == self.content(),
            owned.is_owned(),
        decreases self,
    {
        match self {
            Node::Scalar(s) => Node::Scalar(s.into_owned()),
            Node::Sequence(s) => Node::Sequence(s.into_owned()),
            Node::Mapping(m) => Node::Mapping(m.into_owned()),
        }
    }
}

impl<'a> Mapping<'a> {
    /// Converts this mapping into a `'static` lifetime by taking ownership of borrowed data.
    pub fn into_owned(self) -> (owned: Mapping<'static>)
        ensures
            Node::Mapping(owned).content() == Node::Mapping(self).content(),
            Node::Mapping(owned).is_owned(),
        decreases self,
    {
        let ghost whole = self;
        let ghost source = self.entries@;
        let mut entries: Vec<(Node<'static>, Node<'static>)> = Vec::new();
        for entry in it: self.entries
            invariant
                whole.entries@ == source,
                it.seq() == source,
                entries@.len() == it.index(),
                forall|k: int|
                    #![trigger entries@[k]]
                    0 <= k < entries@.len() ==> entries@[k].0.content() == source[k].0.content()
                        && entries@[k].0.is_owned() && entries@[k].1.content()
                        == source[k].1.content() && entries@[k].1.is_owned(),
        {
            assert(entry == source[entries@.len() as int]);
            assert(decreases_to!(whole => whole.entries));
            assert(decreases_to!(whole.entries => whole.entries@));
            assert(decreases_to!(whole.entries@ => whole.entries@[entries@.len() as int]));
            entries.push((entry.0.into_owned(), entry.1.into_owned()));
        }
        let owned = Mapping {
            entries,
            tag: own_tag(self.tag),
            style: self.style,
            span: self.span,
        };
        assert(Node::Mapping(owned).content()->entries =~= Node::Mapping(
            whole,
        ).content()->entries);
        owned
    }
}

} // verus!
