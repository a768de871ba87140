//! Whole documents: trees, paths, tapes and streamed values.
//!
//! A small reader for the YAML used here turns text into parser events. A tree is
//! composed from those events, or they are streamed through a tape.

use std::borrow::Cow;
use std::collections::BTreeMap;
use std::collections::VecDeque;

use glaucus::borrowed::{BorrowedValue, Value};
use glaucus::error::{DeError, Error, ErrorKind};
use glaucus::event::{Event, EventKind};
use glaucus::limits::{ParserConfig, ResourceLimits};
use glaucus::node::{Mapping, Node, Scalar, Sequence};
use glaucus::schema::{FloatForm, Resolved};
use glaucus::stream::base64;
use glaucus::stream::mapping::{MapAccess, NextKey, NextValue};
use glaucus::stream::merge::{
    inner_events, is_mapping, merge_value_error, push_mapping_entries, scalar_text,
    split_merge_sources, value_extent,
};
use glaucus::stream::scalar::{CoreTag, ScalarDeserializer, Visit};
use glaucus::stream::source::{EventSource, ParsedSource, SliceSource};
use glaucus::stream::tape::Tape;
use glaucus::stream::value::{EventDeserializer, Peek, Start};
use glaucus::types::{CollectionStyle, Position, ScalarStyle, Span, Tag, YamlVersion};

// ---- a reader for the documents below ------------------------------------

/// The budgets of the reader itself.
#[derive(Clone, Copy)]
struct ReaderLimits {
    anchors: usize,
    anchor_name: usize,
    scalar: usize,
    depth: usize,
}

impl ReaderLimits {
    fn new() -> Self {
        ReaderLimits {
            anchors: 1000,
            anchor_name: 1000,
            scalar: 1000,
            depth: 192,
        }
    }
}

type Props<'a> = (Option<Cow<'a, str>>, Option<Tag<'a>>);

struct Reader<'a> {
    src: &'a str,
    pos: usize,
    depth: usize,
    anchors: usize,
    version: YamlVersion,
    limits: ReaderLimits,
    out: Vec<Event<'a>>,
}

fn point() -> Span {
    Span::point(Position::start())
}

fn at(kind: EventKind<'_>) -> Event<'_> {
    Event { kind, span: point() }
}

impl<'a> Reader<'a> {
    fn rest(&self) -> &'a str {
        &self.src[self.pos..]
    }

    fn peek(&self) -> Option<char> {
        self.rest().chars().next()
    }

    fn column(&self) -> usize {
        self.pos - self.src[..self.pos].rfind('\n').map_or(0, |i| i + 1)
    }

    fn emit(&mut self, kind: EventKind<'a>) {
        self.out.push(at(kind));
    }

    /// Skips spaces, line ends and comments.
    fn skip_blank(&mut self) -> Result<(), String> {
        loop {
            let rest = self.rest();
            if rest.starts_with(' ') || rest.starts_with('\n') {
                self.pos += 1;
            } else if rest.starts_with('#') {
                self.pos += rest.find('\n').unwrap_or(rest.len());
            } else if rest.starts_with('\t') {
                return Err("a tab cannot indent".to_owned());
            } else {
                return Ok(());
            }
        }
    }

    fn skip_spaces(&mut self) {
        while self.peek() == Some(' ') {
            self.pos += 1;
        }
    }

    fn enter(&mut self) -> Result<(), String> {
        self.depth += 1;
        if self.depth > self.limits.depth {
            return Err("nested too deep".to_owned());
        }
        Ok(())
    }

    /// Reads anchors and tags.
    fn props(&mut self) -> Result<Props<'a>, String> {
        let mut anchor = None;
        let mut tag = None;
        loop {
            let rest = self.rest();
            if !rest.starts_with('&') && !rest.starts_with('!') {
                return Ok((anchor, tag));
            }
            let end = rest.find([' ', '\n', ',', ']', '}']).unwrap_or(rest.len());
            let end = if rest.starts_with("!<") {
                rest.find('>').map_or(rest.len(), |i| i + 1)
            } else {
                end
            };
            let word = &rest[..end];
            self.pos += end;
            if let Some(name) = word.strip_prefix('&') {
                self.anchors += 1;
                if name.is_empty() || name.len() > self.limits.anchor_name {
                    return Err("bad anchor name".to_owned());
                }
                if self.anchors > self.limits.anchors {
                    return Err("too many anchors".to_owned());
                }
                anchor = Some(Cow::Borrowed(name));
            } else {
                let uri = if let Some(suffix) = word.strip_prefix("!!") {
                    format!("tag:yaml.org,2002:{suffix}")
                } else if word.starts_with("!<") {
                    word[2..word.len() - 1].to_owned()
                } else {
                    word.to_owned()
                };
                tag = Some(Tag {
                    value: Cow::Owned(uri),
                    span: point(),
                });
            }
            self.skip_spaces();
        }
    }

    /// The length of the plain or quoted scalar here, and of its text.
    fn scalar_here(&self, flow: bool) -> Result<(usize, &'a str, ScalarStyle), String> {
        let rest = self.rest();
        for (quote, style) in [
            ('"', ScalarStyle::DoubleQuoted),
            ('\'', ScalarStyle::SingleQuoted),
        ] {
            if rest.starts_with(quote) {
                let end = rest[1..].find(quote).ok_or("unclosed quote")?;
                return Ok((end + 2, &rest[1..end + 1], style));
            }
        }
        if rest.starts_with([',', '[', ']', '{', '}', '&', '*', '!', '|', '>', '%', '@', '`']) {
            return Err(format!("unexpected {rest:?}"));
        }
        let mut end = rest.len();
        let bytes = rest.as_bytes();
        for (i, b) in bytes.iter().enumerate() {
            let next = bytes.get(i + 1);
            let ends = match b {
                b'\n' => true,
                b'#' => i == 0 || bytes[i - 1] == b' ',
                b':' => {
                    matches!(next, None | Some(b' ' | b'\n'))
                        || (flow && matches!(next, Some(b',' | b']' | b'}')))
                }
                b',' | b'[' | b']' | b'{' | b'}' => flow,
                _ => false,
            };
            if ends {
                end = i;
                break;
            }
        }
        Ok((end, rest[..end].trim_end(), ScalarStyle::Plain))
    }

    fn scalar(&mut self, props: Props<'a>, flow: bool) -> Result<(), String> {
        let (length, text, style) = self.scalar_here(flow)?;
        if text.len() > self.limits.scalar {
            return Err("scalar too long".to_owned());
        }
        self.pos += length;
        self.emit(EventKind::Scalar {
            value: Cow::Borrowed(text),
            style,
            anchor: props.0,
            tag: props.1,
        });
        Ok(())
    }

    fn nothing(&mut self, props: Props<'a>) {
        self.emit(EventKind::Scalar {
            value: Cow::Borrowed(""),
            style: ScalarStyle::Plain,
            anchor: props.0,
            tag: props.1,
        });
    }

    fn alias(&mut self) {
        let rest = &self.rest()[1..];
        let end = rest.find([' ', '\n', ',', ']', '}']).unwrap_or(rest.len());
        self.pos += end + 1;
        self.emit(EventKind::Alias {
            name: Cow::Borrowed(&rest[..end]),
        });
    }

    fn flow(&mut self) -> Result<(), String> {
        self.skip_blank()?;
        let props = self.props()?;
        self.skip_blank()?;
        match self.peek() {
            None => Err("unexpected end of input".to_owned()),
            Some('*') => {
                self.alias();
                Ok(())
            }
            Some('[') => self.flow_sequence(props),
            Some('{') => self.flow_mapping(props),
            Some(',' | ']' | '}' | ':') => {
                self.nothing(props);
                Ok(())
            }
            Some(_) => self.scalar(props, true),
        }
    }

    fn separator(&mut self, close: char) -> Result<bool, String> {
        self.skip_blank()?;
        match self.peek() {
            Some(',') => {
                self.pos += 1;
                Ok(false)
            }
            Some(c) if c == close => Ok(true),
            other => Err(format!("expected , or {close}, found {other:?}")),
        }
    }

    fn flow_sequence(&mut self, props: Props<'a>) -> Result<(), String> {
        self.enter()?;
        self.emit(EventKind::SequenceStart {
            anchor: props.0,
            tag: props.1,
            style: CollectionStyle::Flow,
        });
        self.pos += 1;
        loop {
            self.skip_blank()?;
            if self.peek() == Some(']') {
                break;
            }
            self.flow()?;
            if self.separator(']')? {
                break;
            }
        }
        self.pos += 1;
        self.depth -= 1;
        self.emit(EventKind::SequenceEnd);
        Ok(())
    }

    fn flow_mapping(&mut self, props: Props<'a>) -> Result<(), String> {
        self.enter()?;
        self.emit(EventKind::MappingStart {
            anchor: props.0,
            tag: props.1,
            style: CollectionStyle::Flow,
        });
        self.pos += 1;
        loop {
            self.skip_blank()?;
            if self.peek() == Some('}') {
                break;
            }
            if self.rest().starts_with("? ") {
                self.pos += 1;
            }
            self.flow()?;
            self.skip_blank()?;
            if self.peek() == Some(':') {
                self.pos += 1;
                self.flow()?;
            } else {
                self.nothing((None, None));
            }
            if self.separator('}')? {
                break;
            }
        }
        self.pos += 1;
        self.depth -= 1;
        self.emit(EventKind::MappingEnd);
        Ok(())
    }

    /// Whether an implicit mapping key stands here.
    fn key_here(&self) -> bool {
        match self.scalar_here(false) {
            Ok((length, _, _)) => {
                let after = self.rest()[length..].trim_start_matches(' ');
                after.starts_with(": ") || after.starts_with(":\n") || after == ":"
            }
            Err(_) => false,
        }
    }

    fn dash_here(&self) -> bool {
        self.rest().starts_with("- ") || self.rest().starts_with("-\n")
    }

    /// Reads a node whose content is indented more than `parent`.
    fn block(&mut self, parent: Option<usize>) -> Result<(), String> {
        let deeper = |column: usize| parent.is_none_or(|p| column > p);
        self.skip_blank()?;
        if self.rest().is_empty() || !deeper(self.column()) {
            self.nothing((None, None));
            return Ok(());
        }
        let props = self.props()?;
        self.skip_blank()?;
        if self.rest().is_empty() || !deeper(self.column()) {
            self.nothing(props);
            return Ok(());
        }
        if self.dash_here() {
            return self.block_sequence(props);
        }
        if self.rest().starts_with("? ") || self.key_here() {
            return self.block_mapping(props);
        }
        match self.peek() {
            Some('*') => {
                self.alias();
                Ok(())
            }
            Some('[') => self.flow_sequence(props),
            Some('{') => self.flow_mapping(props),
            _ => self.scalar(props, false),
        }
    }

    fn block_sequence(&mut self, props: Props<'a>) -> Result<(), String> {
        let column = self.column();
        self.enter()?;
        self.emit(EventKind::SequenceStart {
            anchor: props.0,
            tag: props.1,
            style: CollectionStyle::Block,
        });
        while self.dash_here() && self.column() == column {
            self.pos += 1;
            self.block(Some(column))?;
            self.skip_blank()?;
        }
        self.depth -= 1;
        self.emit(EventKind::SequenceEnd);
        Ok(())
    }

    fn block_mapping(&mut self, props: Props<'a>) -> Result<(), String> {
        let column = self.column();
        let mut keys: Vec<&str> = Vec::new();
        self.enter()?;
        self.emit(EventKind::MappingStart {
            anchor: props.0,
            tag: props.1,
            style: CollectionStyle::Block,
        });
        while !self.rest().is_empty() && self.column() == column {
            if self.rest().starts_with("? ") {
                self.pos += 1;
                self.block(Some(column))?;
                self.skip_blank()?;
                if self.peek() != Some(':') || self.column() != column {
                    return Err("a key without a value".to_owned());
                }
            } else {
                if !self.key_here() {
                    return Err("expected a key".to_owned());
                }
                let (_, text, _) = self.scalar_here(false)?;
                if text != "<<" && keys.contains(&text) {
                    return Err("duplicate key".to_owned());
                }
                keys.push(text);
                self.scalar((None, None), false)?;
                self.skip_spaces();
            }
            self.pos += 1;
            self.block(Some(column))?;
            self.skip_blank()?;
        }
        self.depth -= 1;
        self.emit(EventKind::MappingEnd);
        Ok(())
    }

    fn document(&mut self) -> Result<(), String> {
        self.emit(EventKind::StreamStart);
        let mut explicit = false;
        if let Some(rest) = self.rest().strip_prefix("%YAML 1.1\n---\n") {
            self.pos = self.src.len() - rest.len();
            self.version = YamlVersion::V1_1;
            explicit = true;
        }
        self.skip_blank()?;
        if !self.rest().is_empty() {
            self.emit(EventKind::DocumentStart {
                explicit,
                version: self.version,
            });
            self.block(None)?;
            self.skip_blank()?;
            if !self.rest().is_empty() {
                return Err(format!("unexpected {:?}", self.rest()));
            }
            self.emit(EventKind::DocumentEnd { explicit: false });
        }
        self.emit(EventKind::StreamEnd);
        Ok(())
    }
}

/// What the reader has to say of a document.
struct Script<'a> {
    items: Vec<Result<Event<'a>, Error>>,
    version: YamlVersion,
}

fn parse_within(src: &str, limits: ReaderLimits) -> Script<'_> {
    let mut reader = Reader {
        src,
        pos: 0,
        depth: 0,
        anchors: 0,
        version: YamlVersion::V1_2,
        limits,
        out: Vec::new(),
    };
    let result = reader.document();
    let version = reader.version;
    let mut items: Vec<_> = reader.out.into_iter().map(Ok).collect();
    if let Err(text) = result {
        items.push(Err(Error::new(ErrorKind::Syntax(text), point())));
    }
    Script { items, version }
}

fn parse(src: &str) -> Script<'_> {
    parse_within(src, ReaderLimits::new())
}

fn pull<'a>(more: &mut VecDeque<Result<Event<'a>, Error>>) -> Event<'a> {
    more.pop_front()
        .expect("a complete document")
        .expect("a valid document")
}

fn source(src: &str) -> ParsedSource<'_> {
    ParsedSource::new(parse(src).items)
}

/// Composes the value that starts with `event` out of a document without aliases.
fn compose<'a>(event: Event<'a>, more: &mut VecDeque<Result<Event<'a>, Error>>) -> Node<'a> {
    match event.kind {
        EventKind::Scalar {
            value, style, tag, ..
        } => Node::Scalar(Scalar {
            value,
            tag,
            style,
            span: event.span,
        }),
        EventKind::SequenceStart { tag, style, .. } => {
            let mut items = Vec::new();
            loop {
                let event = pull(more);
                if event.kind == EventKind::SequenceEnd {
                    break;
                }
                items.push(compose(event, more));
            }
            Node::Sequence(Sequence {
                items,
                tag,
                style,
                span: event.span,
            })
        }
        EventKind::MappingStart { tag, style, .. } => {
            let mut entries = Vec::new();
            loop {
                let event = pull(more);
                if event.kind == EventKind::MappingEnd {
                    break;
                }
                let key = compose(event, more);
                let event = pull(more);
                let value = compose(event, more);
                entries.push((key, value));
            }
            Node::Mapping(Mapping {
                entries,
                tag,
                style,
                span: event.span,
            })
        }
        other => panic!("{} is no value", other.name()),
    }
}

/// The first document of an input, if it has one.
fn first_document(src: &str) -> Option<Result<Node<'_>, Error>> {
    let mut items = VecDeque::from(parse(src).items);
    while let Some(item) = items.pop_front() {
        match item {
            Err(error) => return Some(Err(error)),
            Ok(event) => match event.kind {
                EventKind::StreamStart | EventKind::DocumentStart { .. } => {}
                EventKind::StreamEnd => return None,
                _ => return Some(Ok(compose(event, &mut items))),
            },
        }
    }
    None
}

fn node(src: &str) -> Node<'static> {
    first_document(src)
        .expect("a document")
        .expect("a valid document")
        .into_owned()
}

// ---- values read off a stream --------------------------------------------

/// A float compared so that `NaN` equals `NaN`.
#[derive(Debug, Clone)]
struct F64(f64);

impl PartialEq for F64 {
    fn eq(&self, other: &Self) -> bool {
        (self.0.is_nan() && other.0.is_nan()) || self.0 == other.0
    }
}

/// The float a text of this kind spells.
fn float(form: FloatForm, text: &str) -> f64 {
    match form {
        FloatForm::Infinity => f64::INFINITY,
        FloatForm::NegInfinity => f64::NEG_INFINITY,
        FloatForm::Nan => f64::NAN,
        FloatForm::Number => text.parse().expect("a decimal number parses"),
    }
}

/// The float a node resolves to.
fn as_f64(node: &Node<'_>) -> Option<f64> {
    Some(float(node.as_float_form()?, node.as_str()?))
}

/// A span-free, style-free view of a document.
#[derive(Debug, Clone, PartialEq)]
enum Shape {
    List(Vec<Shape>),
    Table(Vec<(Shape, Shape)>),
    Bool(bool),
    Int(i64),
    UInt(u64),
    Float(F64),
    Str(String),
    Bytes(Vec<u8>),
    Null,
}

impl Shape {
    fn get(&self, key: &str) -> &Shape {
        match self {
            Shape::Table(entries) => entries
                .iter()
                .find(|(k, _)| *k == Shape::Str(key.to_owned()))
                .map(|(_, v)| v)
                .unwrap_or_else(|| panic!("no key {key:?} in {self:?}")),
            _ => panic!("{self:?} is no mapping"),
        }
    }

    fn integer(&self) -> i64 {
        match self {
            Shape::Int(i) => *i,
            _ => panic!("{self:?} is no integer"),
        }
    }

    fn integers(&self) -> Vec<i64> {
        match self {
            Shape::List(items) => items.iter().map(Shape::integer).collect(),
            _ => panic!("{self:?} is no sequence"),
        }
    }

    /// The integers of a mapping, by key.
    fn integer_map(&self) -> BTreeMap<String, i64> {
        match self {
            Shape::Table(entries) => entries
                .iter()
                .map(|(k, v)| match k {
                    Shape::Str(k) => (k.clone(), v.integer()),
                    _ => panic!("{k:?} is no text"),
                })
                .collect(),
            _ => panic!("{self:?} is no mapping"),
        }
    }
}

fn text(value: &str) -> Shape {
    Shape::Str(value.to_owned())
}

fn integers(values: &[i64]) -> Shape {
    Shape::List(values.iter().map(|i| Shape::Int(*i)).collect())
}

fn table(entries: Vec<(&str, Shape)>) -> Shape {
    Shape::Table(entries.into_iter().map(|(k, v)| (text(k), v)).collect())
}

fn visited(visit: Visit<'_>) -> Shape {
    match visit {
        Visit::Unit => Shape::Null,
        Visit::Bool(b) => Shape::Bool(b),
        Visit::I64(i) => Shape::Int(i),
        Visit::U64(u) => Shape::UInt(u),
        Visit::F64 { form, text } => Shape::Float(F64(float(form, &text))),
        Visit::BorrowedStr(s) => Shape::Str(s.to_owned()),
        Visit::String(s) => Shape::Str(s),
        Visit::Bytes(b) => Shape::Bytes(b),
    }
}

/// Reads the next value.
fn read<'de, S: EventSource<'de>>(de: &mut EventDeserializer<'_, 'de, S>) -> Result<Shape, DeError> {
    match de.start_value()? {
        Start::Scalar(scalar) => scalar.deserialize_any().map(visited),
        Start::Sequence => {
            let mut items = Vec::new();
            while de.next_element()? {
                items.push(read(de)?);
            }
            Ok(Shape::List(items))
        }
        Start::Mapping => {
            let mut access = MapAccess::new();
            let mut entries = Vec::new();
            loop {
                let key = match access.next_key(de)? {
                    NextKey::End => return Ok(Shape::Table(entries)),
                    NextKey::Live => read(de)?,
                    NextKey::Recorded(run) => read_run(run, de.version(), de.merge_keys())?,
                };
                let value = match access.next_value(de)? {
                    NextValue::Live => read(de)?,
                    NextValue::Recorded(run) => read_run(run, de.version(), de.merge_keys())?,
                };
                entries.push((key, value));
            }
        }
    }
}

/// Reads a recorded run.
fn read_run(
    run: Vec<Event<'_>>,
    version: YamlVersion,
    merge_keys: bool,
) -> Result<Shape, DeError> {
    let mut source = SliceSource::new(run);
    let mut de = EventDeserializer::new(&mut source, version, merge_keys);
    read(&mut de)
}

fn stream_within(
    input: &str,
    reader: ReaderLimits,
    config: ParserConfig,
) -> Result<Shape, DeError> {
    let script = parse_within(input, reader);
    let version = script.version;
    let mut tape = Tape::with_config(ParsedSource::new(script.items), config);
    let mut de = EventDeserializer::new(&mut tape, version, config.merge_keys);
    de.skip_framing()?;
    read(&mut de)
}

/// Reads `input` by driving a parser through a tape.
fn from_yaml(input: &str) -> Result<Shape, DeError> {
    stream_within(input, ReaderLimits::new(), ParserConfig::default())
}

/// Reads `input` with `<<` merge keys expanded.
fn from_yaml_merged(input: &str) -> Result<Shape, DeError> {
    let config = ParserConfig {
        merge_keys: true,
        ..ParserConfig::default()
    };
    stream_within(input, ReaderLimits::new(), config)
}

/// Reads a value from injected events.
fn from_events(events: Vec<Event<'_>>) -> Result<Shape, DeError> {
    read_run(events, YamlVersion::V1_2, false)
}

fn refusal(got: Result<Shape, DeError>) -> String {
    match got {
        Ok(shape) => panic!("accepted as {shape:?}"),
        Err(error) => error.message(),
    }
}

// ---- the tree path -------------------------------------------------------

/// Builds values the other way round: an anchored value is built once and copied, and
/// merges are folded into a mapping once it is complete.
struct Tree<'a> {
    events: VecDeque<Result<Event<'a>, Error>>,
    version: YamlVersion,
    merge_keys: bool,
    anchors: BTreeMap<String, Built>,
    expansions: usize,
    max_expansions: usize,
}

/// A value, and the texts of a mapping's keys.
#[derive(Clone)]
struct Built {
    shape: Shape,
    keys: Vec<Option<String>>,
}

impl<'a> Tree<'a> {
    fn next(&mut self) -> Result<Event<'a>, String> {
        match self.events.pop_front() {
            Some(Ok(event)) => Ok(event),
            Some(Err(error)) => Err(error.message()),
            None => Err("unexpected end of input".to_owned()),
        }
    }

    fn document(&mut self) -> Result<Shape, String> {
        loop {
            let event = self.next()?;
            match event.kind {
                EventKind::StreamStart | EventKind::DocumentStart { .. } => {}
                _ => return self.build(event).map(|b| b.shape),
            }
        }
    }

    fn build(&mut self, event: Event<'a>) -> Result<Built, String> {
        let mut keys = Vec::new();
        let (anchor, shape) = match event.kind {
            EventKind::Alias { name } => {
                self.expansions += 1;
                if self.expansions > self.max_expansions {
                    return Err("too many aliases".to_owned());
                }
                return match self.anchors.get(&*name) {
                    Some(built) => Ok(built.clone()),
                    None => Err("undefined alias".to_owned()),
                };
            }
            EventKind::Scalar {
                value,
                style,
                anchor,
                tag,
            } => {
                keys.push(Some(value.to_string()));
                let scalar = ScalarDeserializer::new(value, style, tag, self.version);
                let shape = scalar.deserialize_any().map(visited);
                (anchor, shape.map_err(|e| e.message())?)
            }
            EventKind::SequenceStart { anchor, .. } => {
                let mut items = Vec::new();
                loop {
                    let event = self.next()?;
                    if event.kind == EventKind::SequenceEnd {
                        break;
                    }
                    items.push(self.build(event)?.shape);
                }
                (anchor, Shape::List(items))
            }
            EventKind::MappingStart { anchor, .. } => {
                let mut entries = Vec::new();
                let mut merged: Vec<(Option<String>, Shape, Shape)> = Vec::new();
                loop {
                    let event = self.next()?;
                    if event.kind == EventKind::MappingEnd {
                        break;
                    }
                    let scalar = matches!(event.kind, EventKind::Scalar { .. });
                    let key = self.build(event)?;
                    let event = self.next()?;
                    let text = if scalar { key.keys[0].clone() } else { None };
                    if self.merge_keys && text.as_deref() == Some("<<") {
                        self.merge(event, &mut merged)?;
                        continue;
                    }
                    let value = self.build(event)?;
                    keys.push(text);
                    entries.push((key.shape, value.shape));
                }
                for (text, key, value) in merged {
                    if text.is_some() && keys.contains(&text) {
                        continue;
                    }
                    keys.push(text);
                    entries.push((key, value));
                }
                (anchor, Shape::Table(entries))
            }
            other => return Err(format!("{} is no value", other.name())),
        };
        let built = Built { shape, keys };
        if let Some(name) = anchor {
            self.anchors.insert(name.to_string(), built.clone());
        }
        Ok(built)
    }

    fn merge(
        &mut self,
        event: Event<'a>,
        merged: &mut Vec<(Option<String>, Shape, Shape)>,
    ) -> Result<(), String> {
        let sources = if matches!(event.kind, EventKind::SequenceStart { .. }) {
            let mut sources = Vec::new();
            loop {
                let event = self.next()?;
                if event.kind == EventKind::SequenceEnd {
                    break;
                }
                sources.push(self.build(event)?);
            }
            sources
        } else {
            vec![self.build(event)?]
        };
        for source in sources {
            match source.shape {
                Shape::Table(entries) => {
                    for (text, (key, value)) in source.keys.into_iter().zip(entries) {
                        merged.push((text, key, value));
                    }
                }
                _ => return Err("not a mapping for the merge key".to_owned()),
            }
        }
        Ok(())
    }
}

fn tree_within(input: &str, reader: ReaderLimits, config: ParserConfig) -> Result<Shape, String> {
    let script = parse_within(input, reader);
    let mut tree = Tree {
        version: script.version,
        events: script.items.into(),
        merge_keys: config.merge_keys,
        anchors: BTreeMap::new(),
        expansions: 0,
        max_expansions: config.limits.max_alias_expansions,
    };
    tree.document()
}

fn tree(input: &str, merge_keys: bool) -> Result<Shape, String> {
    let config = ParserConfig {
        merge_keys,
        ..ParserConfig::default()
    };
    tree_within(input, ReaderLimits::new(), config)
}

// ---- nodes ---------------------------------------------------------------

#[test]
fn node_span_collections() {
    let span = Span {
        start: Position {
            offset: 1,
            line: 1,
            column: 2,
        },
        end: Position {
            offset: 4,
            line: 1,
            column: 5,
        },
    };
    let seq = Node::Sequence(Sequence {
        items: vec![],
        tag: None,
        style: CollectionStyle::Block,
        span,
    });
    assert_eq!(seq.span(), span);

    let map = Node::Mapping(Mapping {
        entries: vec![],
        tag: None,
        style: CollectionStyle::Block,
        span,
    });
    assert_eq!(map.span(), span);
}

#[test]
fn as_str_on_non_scalar() {
    let seq = Node::Sequence(Sequence {
        items: vec![],
        tag: None,
        style: CollectionStyle::Block,
        span: Span::point(Position::start()),
    });
    assert!(seq.as_str().is_none());
}

#[test]
fn node_accessors() {
    let scalar = Node::Scalar(Scalar {
        value: Cow::Borrowed("hello"),
        tag: None,
        style: ScalarStyle::Plain,
        span: Span::point(Position::start()),
    });
    assert!(scalar.is_scalar());
    assert!(!scalar.is_sequence());
    assert!(!scalar.is_mapping());
    assert_eq!(scalar.as_str(), Some("hello"));
    assert!(scalar.as_sequence().is_none());
    assert!(scalar.as_mapping().is_none());
}

#[test]
fn node_sequence_accessor() {
    let seq = Node::Sequence(Sequence {
        items: vec![Node::Scalar(Scalar {
            value: Cow::Borrowed("item"),
            tag: None,
            style: ScalarStyle::Plain,
            span: Span::point(Position::start()),
        })],
        tag: None,
        style: CollectionStyle::Block,
        span: Span::point(Position::start()),
    });
    assert!(seq.is_sequence());
    assert_eq!(seq.as_sequence().unwrap().len(), 1);
}

#[test]
fn scalar_into_owned() {
    let scalar = Scalar {
        value: Cow::Borrowed("hello"),
        tag: Some(Tag {
            value: Cow::Borrowed("!!str"),
            span: Span::point(Position::start()),
        }),
        style: ScalarStyle::Plain,
        span: Span::point(Position::start()),
    };
    let owned: Scalar<'static> = scalar.into_owned();
    assert_eq!(&*owned.value, "hello");
    assert_eq!(&*owned.tag.unwrap().value, "!!str");
}

#[test]
fn ownership_changes_no_lookup_and_no_search() {
    let source = "a: {b: [1, {b: 2}], c: {b: 3}}\nb: 4\n";
    let borrowed = first_document(source).unwrap().unwrap();
    let owned = first_document(source).unwrap().unwrap().into_owned();
    for path in ["..b", "a..b", "a.b[1].b", "b", "..", "..zzz", "a.b"] {
        assert_eq!(borrowed.query(path), owned.query(path), "{path}");
        assert_eq!(borrowed.get_path(path), owned.get_path(path), "{path}");
    }
    assert_eq!(owned.query("..b").len(), 4);
}

#[test]
fn node_into_owned_scalar() {
    let node = Node::Scalar(Scalar {
        value: Cow::Borrowed("test"),
        tag: None,
        style: ScalarStyle::Plain,
        span: Span::point(Position::start()),
    });
    let owned: Node<'static> = node.into_owned();
    assert_eq!(owned.as_str(), Some("test"));
}

#[test]
fn node_into_owned_sequence() {
    let node = Node::Sequence(Sequence {
        items: vec![Node::Scalar(Scalar {
            value: Cow::Borrowed("item"),
            tag: None,
            style: ScalarStyle::Plain,
            span: Span::point(Position::start()),
        })],
        tag: None,
        style: CollectionStyle::Block,
        span: Span::point(Position::start()),
    });
    let owned: Node<'static> = node.into_owned();
    assert_eq!(owned.as_sequence().unwrap().len(), 1);
    assert_eq!(owned.as_sequence().unwrap()[0].as_str(), Some("item"));
}

#[test]
fn node_into_owned_mapping() {
    let node = Node::Mapping(Mapping {
        entries: vec![(
            Node::Scalar(Scalar {
                value: Cow::Borrowed("key"),
                tag: None,
                style: ScalarStyle::Plain,
                span: Span::point(Position::start()),
            }),
            Node::Scalar(Scalar {
                value: Cow::Borrowed("val"),
                tag: None,
                style: ScalarStyle::Plain,
                span: Span::point(Position::start()),
            }),
        )],
        tag: None,
        style: CollectionStyle::Block,
        span: Span::point(Position::start()),
    });
    let owned: Node<'static> = node.into_owned();
    let entries = owned.as_mapping().unwrap();
    assert_eq!(entries.len(), 1);
    assert_eq!(entries[0].0.as_str(), Some("key"));
    assert_eq!(entries[0].1.as_str(), Some("val"));
}

#[test]
fn node_mapping_accessor() {
    let map = Node::Mapping(Mapping {
        entries: vec![(
            Node::Scalar(Scalar {
                value: Cow::Borrowed("key"),
                tag: None,
                style: ScalarStyle::Plain,
                span: Span::point(Position::start()),
            }),
            Node::Scalar(Scalar {
                value: Cow::Borrowed("value"),
                tag: None,
                style: ScalarStyle::Plain,
                span: Span::point(Position::start()),
            }),
        )],
        tag: None,
        style: CollectionStyle::Block,
        span: Span::point(Position::start()),
    });
    assert!(map.is_mapping());
    assert_eq!(map.as_mapping().unwrap().len(), 1);
}

// ---- typed accessors -----------------------------------------------------

/// The value under key `v`.
fn v(src: &str) -> Node<'static> {
    node(&format!("v: {src}\n")).as_mapping().unwrap()[0].1.clone()
}

#[test]
fn plain_scalars_resolve() {
    assert!(v("null").is_null());
    assert!(v("~").is_null());
    assert_eq!(v("true").as_bool(), Some(true));
    assert_eq!(v("TRUE").as_bool(), Some(true));
    assert_eq!(v("false").as_bool(), Some(false));
    assert_eq!(v("42").as_i64(), Some(42));
    assert_eq!(v("42").as_u64(), Some(42));
    assert_eq!(as_f64(&v("1.5")), Some(1.5));
}

#[test]
fn radix_prefixes_resolve_through_both_integer_accessors() {
    assert_eq!(v("0x1F").as_i64(), Some(31));
    assert_eq!(v("0x1F").as_u64(), Some(31));
    assert_eq!(v("0o17").as_i64(), Some(15));
    assert_eq!(
        v("017").as_i64(),
        Some(17),
        "a bare leading zero is decimal"
    );
}

#[test]
fn negative_resolves_as_signed_but_not_unsigned() {
    assert_eq!(v("-1").as_i64(), Some(-1));
    assert_eq!(v("-1").as_u64(), None);
    assert_eq!(v("-0").as_u64(), None, "`-0` must not become zero");
}

/// Quoting is the author stating the value is text. Every typed accessor must
/// check the style, not just the characters.
#[test]
fn quoted_scalars_decline_every_typed_accessor() {
    for src in ["\"true\"", "'true'"] {
        let n = v(src);
        assert_eq!(n.as_bool(), None, "{src} is text");
        assert_eq!(n.as_str(), Some("true"), "{src} still reads as a string");
    }
    assert_eq!(v("\"42\"").as_i64(), None);
    assert_eq!(v("\"42\"").as_u64(), None);
    assert_eq!(as_f64(&v("\"1.5\"")), None);
    assert!(!v("\"null\"").is_null(), "a quoted null is a string");
    assert!(
        !v("\"\"").is_null(),
        "an empty quoted scalar is the empty string"
    );
}

#[test]
fn an_empty_plain_scalar_is_null() {
    assert!(v("").is_null());
}

#[test]
fn collections_decline_every_typed_accessor() {
    for src in ["[1]", "{a: 1}"] {
        let n = v(src);
        assert!(!n.is_null(), "{src}");
        assert_eq!(n.as_bool(), None, "{src}");
        assert_eq!(n.as_i64(), None, "{src}");
        assert_eq!(n.as_u64(), None, "{src}");
        assert_eq!(as_f64(&n), None, "{src}");
    }
}

/// A node carries no document version, so 1.1 boolean spellings are strings here.
#[test]
fn yaml_1_1_boolean_spellings_are_strings_on_a_node() {
    for src in ["yes", "no", "on", "off", "y", "n", "Yes", "NO"] {
        assert_eq!(v(src).as_bool(), None, "{src} is a string on a Node");
        assert_eq!(v(src).as_str(), Some(src));
    }
}

#[test]
fn boolean_matching_is_case_sensitive() {
    assert_eq!(v("tRuE").as_bool(), None);
    assert_eq!(v("fAlSe").as_bool(), None);
}

#[test]
fn bare_inf_and_nan_are_strings_dotted_forms_are_floats() {
    for src in ["inf", "Infinity", "nan"] {
        assert_eq!(as_f64(&v(src)), None, "{src} is a string");
    }
    assert!(as_f64(&v(".inf")).is_some_and(f64::is_infinite));
    assert!(
        as_f64(&v("-.inf"))
            .is_some_and(|f| f.is_infinite() && f.is_sign_negative())
    );
    assert!(as_f64(&v(".nan")).is_some_and(f64::is_nan));
}

// ---- single-result paths -------------------------------------------------

fn doc() -> Node<'static> {
    node(
        "spec:\n  containers:\n    - name: app\n      port: 8080\n    - name: sidecar\n\
         meta:\n  '1': numeric-key\n  '-1': negative-key\n",
    )
}

#[test]
fn walks_mappings_and_sequences_in_one_path() {
    let d = doc();
    assert_eq!(
        d.get_path("spec.containers.0.name").and_then(Node::as_str),
        Some("app")
    );
    assert_eq!(
        d.get_path("spec.containers.1.name").and_then(Node::as_str),
        Some("sidecar")
    );
    assert_eq!(
        d.get_path("spec.containers.0.port").and_then(Node::as_i64),
        Some(8080)
    );
}

#[test]
fn the_empty_path_returns_the_root() {
    let d = doc();
    assert!(std::ptr::eq(
        d.get_path("").unwrap(),
        std::ptr::from_ref(&d)
    ));
}

#[test]
fn returns_a_borrow_of_the_subtree_not_a_copy() {
    let d = doc();
    let sub = d.get_path("spec.containers").unwrap();
    assert!(std::ptr::eq(sub, d.get_path("spec.containers").unwrap()));
    assert_eq!(sub.as_sequence().map(<[Node<'_>]>::len), Some(2));
}

#[test]
fn absent_key_returns_none() {
    assert!(doc().get_path("spec.missing").is_none());
}

#[test]
fn index_out_of_range_returns_none() {
    assert!(doc().get_path("spec.containers.9").is_none());
}

#[test]
fn stepping_into_a_scalar_returns_none() {
    assert!(doc().get_path("spec.containers.0.name.deeper").is_none());
}

#[test]
fn indexing_a_mapping_that_has_no_such_key_returns_none() {
    // `spec` is a mapping with no key "0", so an index finds nothing.
    assert!(doc().get_path("spec.0").is_none());
}

/// A numeric segment still addresses a numeric mapping key.
#[test]
fn a_numeric_segment_addresses_a_numeric_mapping_key() {
    assert_eq!(
        doc().get_path("meta.1").and_then(Node::as_str),
        Some("numeric-key")
    );
}

/// Sequence indices are non-negative, so `-1` can only be a key.
#[test]
fn a_negative_segment_addresses_a_key_never_an_index() {
    assert_eq!(
        doc().get_path("meta.-1").and_then(Node::as_str),
        Some("negative-key")
    );
    assert!(doc().get_path("spec.containers.-1").is_none());
}

/// Descent branches; a single-result walk cannot express it. `query` does.
#[test]
fn a_descent_segment_returns_none() {
    assert!(doc().get_path("spec..name").is_none());
    assert!(doc().get_path(".spec").is_none());
}

// ---- searches ------------------------------------------------------------

fn ints_of(results: &[&Node<'_>]) -> Vec<i64> {
    results.iter().filter_map(|x| x.as_i64()).collect()
}

/// Descent must match at the CURRENT level as well as below. Matching only
/// the nested one is the obvious wrong implementation.
#[test]
fn descent_matches_here_and_below() {
    let d = node("a: 1\nb:\n  a: 2\n");
    assert_eq!(ints_of(&d.query("..a")), vec![1, 2]);
}

#[test]
fn descent_finds_matches_at_several_depths_in_document_order() {
    let d = node("a: 1\nb:\n  a: 2\n  c:\n    a: 3\n");
    assert_eq!(ints_of(&d.query("..a")), vec![1, 2, 3]);
}

#[test]
fn descent_reaches_through_sequences() {
    let d = node("items:\n  - a: 1\n  - a: 2\n  - b:\n      a: 3\n");
    assert_eq!(ints_of(&d.query("..a")), vec![1, 2, 3]);
}

/// A path without `..` must agree with `get_path` on the same input.
#[test]
fn without_descent_it_agrees_with_get_path() {
    let d = node("spec:\n  containers:\n    - name: app\n");
    for path in [
        "",
        "spec",
        "spec.containers",
        "spec.containers.0.name",
        "nope",
        "spec.9",
    ] {
        let q = d.query(path);
        match d.get_path(path) {
            Some(one) => {
                assert_eq!(q.len(), 1, "{path}");
                assert!(std::ptr::eq(q[0], one), "{path}");
            }
            None => assert!(q.is_empty(), "{path} should be empty"),
        }
    }
}

#[test]
fn no_match_is_an_empty_vec_not_an_error() {
    let d = node("a: 1\n");
    assert!(d.query("..zzz").is_empty());
    assert!(d.query("zzz").is_empty());
}

#[test]
fn descent_can_be_followed_by_more_segments() {
    let d = node("x:\n  cfg:\n    port: 1\ny:\n  deep:\n    cfg:\n      port: 2\n");
    assert_eq!(ints_of(&d.query("..cfg.port")), vec![1, 2]);
}

#[test]
fn a_leading_descent_searches_the_whole_document() {
    let d = node("a:\n  name: one\nb:\n  name: two\n");
    let got: Vec<&str> = d
        .query("..name")
        .iter()
        .filter_map(|x| x.as_str())
        .collect();
    assert_eq!(got, vec!["one", "two"]);
}

/// Mapping KEYS are labels, not nodes the path descends through.
#[test]
fn descent_does_not_match_mapping_keys() {
    let d = node("name: outer\nnested:\n  name: inner\n");
    let got: Vec<&str> = d
        .query("..name")
        .iter()
        .filter_map(|x| x.as_str())
        .collect();
    assert_eq!(got, vec!["outer", "inner"], "values only, never keys");
}

#[test]
fn descent_on_a_scalar_root_finds_nothing_below_it() {
    let d = node("just-a-scalar\n");
    assert!(d.query("..a").is_empty());
}

/// Matches come in document order, not by the depth of their parent.
#[test]
fn a_nested_match_comes_before_a_later_shallow_one() {
    let d = node("x:\n  a: 1\na: 2\n");
    assert_eq!(ints_of(&d.query("..a")), vec![1, 2]);
}

/// A node reached in several ways is found once.
#[test]
fn a_node_reached_twice_is_found_once() {
    let d = node("a:\n  a:\n    b: 1\n");
    assert_eq!(ints_of(&d.query("..a..b")), vec![1]);
    assert_eq!(d.query("..").len(), 4);
}

#[test]
fn descent_through_a_sequence_keeps_indices() {
    let d = node("x:\n  - [1, 2]\n  - [3, 4]\n");
    assert_eq!(ints_of(&d.query("..1")), vec![2, 4]);
    assert_eq!(ints_of(&d.query("x.1.0")), vec![3]);
}

#[test]
fn the_first_of_two_equal_keys_is_followed() {
    let scalar = |text: &'static str| {
        Node::Scalar(Scalar {
            value: Cow::Borrowed(text),
            tag: None,
            style: ScalarStyle::Plain,
            span: point(),
        })
    };
    let d = Node::Mapping(Mapping {
        entries: vec![
            (scalar("k"), scalar("1")),
            (scalar("k"), scalar("2")),
        ],
        tag: None,
        style: CollectionStyle::Flow,
        span: point(),
    });
    assert_eq!(d.get_path("k").and_then(Node::as_i64), Some(1));
    assert_eq!(ints_of(&d.query("..k")), vec![1]);
}

#[test]
fn a_node_has_the_tag_it_was_given() {
    let d = node("a: !!str 1\n");
    let tag = d.get_path("a").unwrap().tag().expect("a tag");
    assert_eq!(&*tag.value, "tag:yaml.org,2002:str");
    assert!(d.tag().is_none());
}

#[test]
fn a_clone_says_the_same() {
    let d = doc();
    assert_eq!(d.clone(), d);
    let value = BorrowedValue::new(doc());
    assert_eq!(value.clone(), value);
}

/// A copy borrows what was borrowed and owns what was owned.
#[test]
fn a_clone_keeps_borrowed_text_borrowed() {
    let input = String::from("a: [x, {y: z}]\n");
    let borrowed = first_document(&input).unwrap().unwrap().clone();
    let owned = borrowed.clone().into_owned().clone();
    for path in ["a.0", "a.1.y"] {
        for (node, owns) in [(&borrowed, false), (&owned, true)] {
            match node.get_path(path) {
                Some(Node::Scalar(s)) => {
                    assert_eq!(matches!(s.value, Cow::Owned(_)), owns, "{path}");
                }
                other => panic!("{other:?} is no scalar"),
            }
        }
    }
}

// ---- borrowed values -----------------------------------------------------

#[test]
fn borrowed_value_is_zero_copy_for_plain_scalars() {
    let input = String::from("hello world");
    let bv = BorrowedValue::parse(first_document(&input)).unwrap();
    assert_eq!(bv.as_str(), Some("hello world"));
    if let Node::Scalar(s) = bv.as_node() {
        assert!(
            matches!(s.value, Cow::Borrowed(_)),
            "plain scalar must borrow, not own"
        );
    } else {
        panic!("expected scalar");
    }
}

#[test]
fn borrowed_value_traverses_mapping() {
    let input = String::from("a: 1\nb: two\n");
    let bv = BorrowedValue::parse(first_document(&input)).unwrap();
    let m = bv.as_node().as_mapping().unwrap();
    assert_eq!(m.len(), 2);
}

#[test]
fn borrowed_value_empty_input_returns_unexpected_eof() {
    let result = BorrowedValue::parse(first_document(""));
    assert!(result.is_err());
    let err = result.unwrap_err();
    assert!(
        matches!(err.kind, ErrorKind::UnexpectedEof),
        "expected UnexpectedEof, got {:?}",
        err.kind
    );
}

#[test]
fn borrowed_value_new_wraps_node() {
    let input = String::from("42");
    let node = first_document(&input)
        .unwrap()
        .unwrap();
    let bv = BorrowedValue::new(node);
    assert_eq!(bv.as_str(), Some("42"));
}

#[test]
fn borrowed_value_into_node_round_trips() {
    let input = String::from("round: trip");
    let bv = BorrowedValue::parse(first_document(&input)).unwrap();
    let node = bv.into_node();
    assert!(node.as_mapping().is_some());
}

#[test]
fn borrowed_value_from_node_conversion() {
    let input = String::from("from: conversion");
    let node: Node<'_> = first_document(&input)
        .unwrap()
        .unwrap();
    let bv: BorrowedValue<'_> = BorrowedValue::from(node);
    assert!(bv.is_mapping());
}

#[test]
fn borrowed_value_into_node_via_from_impl() {
    let input = String::from("key: val");
    let bv = BorrowedValue::parse(first_document(&input)).unwrap();
    let node: Node<'_> = Node::from(bv);
    assert!(node.as_mapping().is_some());
}

#[test]
fn borrowed_value_deref_exposes_node_methods() {
    let input = String::from("- a\n- b\n");
    let bv = BorrowedValue::parse(first_document(&input)).unwrap();
    // Deref lets us call Node methods directly.
    assert!(bv.is_sequence());
    assert_eq!(bv.as_sequence().unwrap().len(), 2);
}

#[test]
fn borrowed_value_sequence_items_borrow_via_flow_sequence() {
    let input = String::from("[alpha, beta]");
    let bv = BorrowedValue::parse(first_document(&input)).unwrap();
    let items = bv.as_sequence().unwrap();
    assert_eq!(items.len(), 2);
    for item in items {
        if let Node::Scalar(s) = item {
            assert!(
                matches!(s.value, Cow::Borrowed(_)),
                "flow-sequence scalar items must borrow: got {:?}",
                s.value
            );
        } else {
            panic!("expected scalar item");
        }
    }
}

const DOC: &str = "n: 0x1F\nneg: -1\nflag: true\nnothing: ~\ntext: hello\n\
                   f: 1.5\nitems:\n  - a\n  - b\nnested:\n  n: 7\n";

/// Every accessor, on the borrowed type, reached through `Deref`.
#[test]
fn borrowed_value_exposes_the_whole_node_surface() {
    let src = DOC.to_owned();
    let v = BorrowedValue::parse(first_document(&src)).unwrap();

    assert!(v.get_path("nothing").unwrap().is_null());
    assert_eq!(v.get_path("text").unwrap().as_str(), Some("hello"));
    assert_eq!(v.get_path("flag").unwrap().as_bool(), Some(true));
    assert_eq!(v.get_path("neg").unwrap().as_i64(), Some(-1));
    assert_eq!(v.get_path("neg").unwrap().as_u64(), None);
    assert_eq!(as_f64(v.get_path("f").unwrap()), Some(1.5));
    assert!(v.as_mapping().is_some());
    assert_eq!(
        v.get_path("items").unwrap().as_sequence().map(<[_]>::len),
        Some(2)
    );
    assert_eq!(v.query("..n").len(), 2);
}

#[test]
fn radix_prefixed_integers_resolve_through_the_forwarded_accessor() {
    let src = DOC.to_owned();
    let v = BorrowedValue::parse(first_document(&src)).unwrap();
    assert_eq!(v.get_path("n").unwrap().as_i64(), Some(31));
    assert_eq!(v.get_path("n").unwrap().as_u64(), Some(31));
}

/// The borrow must genuinely end, so the source is dropped inside the block.
#[test]
fn into_owned_survives_the_source_being_dropped() {
    let owned: Value = {
        let src = DOC.to_owned();
        BorrowedValue::parse(first_document(&src)).unwrap().into_owned()
    };

    assert_eq!(owned.get_path("n").unwrap().as_i64(), Some(31));
    assert_eq!(owned.get_path("text").unwrap().as_str(), Some("hello"));
    assert_eq!(owned.query("..n").len(), 2);
}

#[test]
fn owned_value_exposes_the_whole_node_surface() {
    let v = Value::new(node(DOC));

    assert!(v.get_path("nothing").unwrap().is_null());
    assert_eq!(v.get_path("text").unwrap().as_str(), Some("hello"));
    assert_eq!(v.get_path("flag").unwrap().as_bool(), Some(true));
    assert_eq!(v.get_path("n").unwrap().as_i64(), Some(31));
    assert_eq!(v.get_path("neg").unwrap().as_u64(), None);
    assert_eq!(as_f64(v.get_path("f").unwrap()), Some(1.5));
    assert!(v.as_mapping().is_some());
    assert_eq!(
        v.get_path("items").unwrap().as_sequence().map(<[_]>::len),
        Some(2)
    );
    assert_eq!(v.query("..n").len(), 2);
}

#[test]
fn a_refused_document_keeps_its_error() {
    let error = BorrowedValue::parse(first_document("]\n")).unwrap_err();
    assert!(matches!(error.kind, ErrorKind::Syntax(_)), "{error:?}");
    assert_eq!(error.span, Some(point()));
}

/// Taking ownership changes no answer.
#[test]
fn an_owned_value_answers_as_the_borrowed_one_did() {
    let borrowed = BorrowedValue::parse(first_document(DOC)).unwrap();
    let owned = borrowed.clone().into_owned();
    for path in ["", "n", "items.1", "nested.n", "nested.nope", "..n"] {
        assert_eq!(owned.get_path(path), borrowed.get_path(path), "{path}");
    }
    assert_eq!(owned.as_node(), borrowed.as_node());
}

// ---- tapes ---------------------------------------------------------------

/// Drives a tape to exhaustion, or to its first error.
fn drive(input: &str) -> Tape<'_, ParsedSource<'_>> {
    let mut tape = Tape::new(source(input));
    while let Some(Ok(_)) = tape.next() {}
    tape
}

/// A document with no anchors must never allocate the buffer.
#[test]
fn an_anchor_free_document_records_nothing() {
    for input in [
        "a: 1\n",
        "a:\n  b:\n    - 1\n    - 2\n",
        "[1, 2, {a: b}]\n",
        "",
        "# comment only\n",
        "a: !!str 123\n",
    ] {
        let tape = drive(input);
        assert_eq!(
            tape.buffered_events(),
            0,
            "{input:?} has no anchors and must not be recorded"
        );
    }
}

#[test]
fn a_scalar_anchor_records_and_replays() {
    let tape = drive("a: &x 1\nb: *x\n");
    let events = tape.replay("x").expect("x was anchored");
    assert_eq!(events.len(), 1, "a scalar anchor is one event");
    assert!(tape.buffered_events() > 0);
}

#[test]
fn a_collection_anchor_replays_its_whole_span() {
    let tape = drive("a: &x [1, 2, 3]\nb: *x\n");
    let events = tape.replay("x").expect("x was anchored");
    // SequenceStart, three scalars, SequenceEnd.
    assert_eq!(events.len(), 5, "got {events:?}");
}

/// The buffer is flat: `y` sits inside `x`, stored once.
#[test]
fn nested_anchors_share_one_buffer() {
    let tape = drive("a: &x {p: &y 1}\n");
    let x = tape.replay("x").expect("x").len();
    let y = tape.replay("y").expect("y").len();

    assert_eq!(y, 1, "y is the inner scalar");
    assert!(x > y, "x must contain y, got x={x} y={y}");
    assert_eq!(
        tape.buffered_events(),
        x,
        "the inner events must be stored once, not duplicated per anchor"
    );
}

/// An outer anchor still open must keep collecting after an inner one closes.
#[test]
fn recording_continues_until_the_last_scope_closes() {
    let tape = drive("a: &outer\n  inner: &in [1, 2]\n  after: 3\n");
    let outer = tape.replay("outer").expect("outer");
    let inner = tape.replay("in").expect("in");

    assert!(
        outer.len() > inner.len(),
        "outer must span past the inner anchor: outer={} inner={}",
        outer.len(),
        inner.len()
    );
}

#[test]
fn an_undefined_alias_yields_none_not_a_panic() {
    let tape = drive("a: 1\n");
    assert!(tape.replay("nope").is_none());

    let tape = drive("a: &x 1\n");
    assert!(tape.replay("x").is_some());
    assert!(tape.replay("y").is_none());
}

/// An anchor name may be redefined; a later alias refers to the most recent
/// definition.
#[test]
fn a_redefined_anchor_replaces_the_earlier_span() {
    let tape = drive("a: &x 1\nb: &x [1, 2]\nc: *x\n");
    let events = tape.replay("x").expect("x");
    assert_eq!(events.len(), 4, "the sequence, not the earlier scalar");
}

#[test]
fn an_unbalanced_end_event_does_not_underflow_the_depth() {
    // A stray `]` is a malformed document. The depth must saturate rather than wrap
    // and leave every later anchor scope permanently open.
    for input in ["a: 1\n]\n", "]\n", "a: &x [1]\n]\n"] {
        let tape = drive(input);
        let _ = tape.buffered_events();
    }

    let anchored = at(EventKind::Scalar {
        value: Cow::Borrowed("1"),
        style: ScalarStyle::Plain,
        anchor: Some(Cow::Borrowed("x")),
        tag: None,
    });
    let alias = at(EventKind::Alias {
        name: Cow::Borrowed("x"),
    });
    let mut tape = Tape::new(SliceSource::new(vec![
        at(EventKind::SequenceEnd),
        at(EventKind::MappingEnd),
        anchored.clone(),
        alias,
    ]));
    let mut got = Vec::new();
    while let Some(item) = tape.next() {
        got.push(item.expect("no error"));
    }
    assert_eq!(
        got,
        vec![
            at(EventKind::SequenceEnd),
            at(EventKind::MappingEnd),
            anchored.clone(),
            anchored,
        ]
    );
}

/// Drives a tape to exhaustion, returning the first error it reports.
fn drive_err(input: &str, config: ParserConfig) -> Option<String> {
    let mut tape = Tape::with_config(source(input), config);
    while let Some(result) = tape.next() {
        if let Err(e) = result {
            return Some(e.message());
        }
    }
    None
}

#[test]
fn the_alias_expansion_budget_is_enforced() {
    let mut config = ParserConfig::default();
    config.limits.max_alias_expansions = 1;

    let input = "a: &x 1\nb: *x\nc: *x\n";
    assert!(
        drive_err(input, config).is_some_and(|e| e.contains("alias expansion")),
        "a second expansion must exceed a budget of one"
    );

    // The budget is a ceiling, not a trap: one expansion is still allowed.
    assert_eq!(drive_err("a: &x 1\nb: *x\n", config), None);
}

#[test]
fn the_total_expanded_event_budget_is_enforced() {
    let mut config = ParserConfig::default();
    config.limits.max_total_alias_nodes = 2;

    // `x` is five events (start, three scalars, end), so one alias to it already
    // exceeds a budget of two.
    let input = "a: &x [1, 2, 3]\nb: *x\n";
    assert!(
        drive_err(input, config).is_some_and(|e| e.contains("alias")),
        "a span larger than the budget must be refused"
    );

    // A one-event anchor stays under it.
    assert_eq!(drive_err("a: &x 1\nb: *x\n", config), None);
}

#[test]
fn limits_say_which_and_how_much() {
    let mut config = ParserConfig::default();
    config.limits.max_alias_expansions = 0;
    assert_eq!(
        drive_err("a: &x 1\nb: *x\n", config).as_deref(),
        Some("alias expansion limit of 0 exceeded")
    );

    let mut config = ParserConfig::default();
    config.limits.max_total_alias_nodes = 12;
    let input = "a: &x [1, 2, 3]\nb: *x\nc: *x\nd: *x\n";
    assert_eq!(
        drive_err(input, config).as_deref(),
        Some("alias materialization limit of 12 exceeded")
    );

    let mut config = ParserConfig::default();
    config.limits.max_depth = 2;
    assert_eq!(
        drive_err("a: &x [1]\nb: *x\nc: [*x]\n", config).as_deref(),
        Some("nesting depth limit of 2 exceeded")
    );
    assert_eq!(drive_err("a: &x [1]\nb: *x\n", config), None);

    assert_eq!(
        drive_err("a: *nope\n", ParserConfig::default()).as_deref(),
        Some("undefined alias `nope`")
    );
    let config = ParserConfig::default();
    assert_eq!(config.limits.max_alias_expansions, 1024);
    assert_eq!(config.limits.max_total_alias_nodes, 100_000);
    assert_eq!(config.limits.max_depth, 192);
}

#[test]
fn a_document_without_aliases_comes_through_unchanged() {
    let input = "a: &x [1, 2]\nb: {c: &y 3}\n";
    let want: Vec<Event<'_>> = parse(input).items.into_iter().map(|i| i.unwrap()).collect();
    let mut tape = Tape::new(source(input));
    let mut got = Vec::new();
    while let Some(item) = tape.next() {
        got.push(item.unwrap());
    }
    assert_eq!(got, want);
}

#[test]
fn an_alias_is_replaced_by_the_events_it_names() {
    let mut tape = Tape::new(source("[&x [1], &z [*x, 2], *z]\n"));
    let mut names = Vec::new();
    while let Some(item) = tape.next() {
        names.push(item.unwrap().kind.name());
    }
    assert_eq!(
        names,
        vec![
            "stream-start",
            "document-start",
            "sequence-start",
            // x
            "sequence-start",
            "scalar",
            "sequence-end",
            // z, with x in it
            "sequence-start",
            "sequence-start",
            "scalar",
            "sequence-end",
            "scalar",
            "sequence-end",
            // z again
            "sequence-start",
            "sequence-start",
            "scalar",
            "sequence-end",
            "scalar",
            "sequence-end",
            "sequence-end",
            "document-end",
            "stream-end",
        ]
    );
    // The alias in `z` is recorded as an alias.
    assert_eq!(tape.replay("z").unwrap().len(), 4);
    assert_eq!(tape.buffered_events(), 7);
}

#[test]
fn a_tape_goes_on_after_an_undefined_alias() {
    let mut tape = Tape::new(source("[*nope, 1]\n"));
    let mut errors = 0;
    let mut scalars = 0;
    while let Some(item) = tape.next() {
        match item {
            Ok(event) => scalars += usize::from(event.kind.name() == "scalar"),
            Err(error) => {
                assert_eq!(error.kind, ErrorKind::UndefinedAlias("nope".to_owned()));
                errors += 1;
            }
        }
    }
    assert_eq!((errors, scalars), (1, 1));
    assert!(tape.next_event().is_none());
}

// ---- scalars -------------------------------------------------------------

/// A plain scalar borrowed from the input, resolved under YAML 1.2.
fn plain(value: &str) -> ScalarDeserializer<'_> {
    ScalarDeserializer::new(
        Cow::Borrowed(value),
        ScalarStyle::Plain,
        None,
        YamlVersion::V1_2,
    )
}

fn quoted(value: &str) -> ScalarDeserializer<'_> {
    ScalarDeserializer::new(
        Cow::Borrowed(value),
        ScalarStyle::DoubleQuoted,
        None,
        YamlVersion::V1_2,
    )
}

fn plain_1_1(value: &str) -> ScalarDeserializer<'_> {
    ScalarDeserializer::new(
        Cow::Borrowed(value),
        ScalarStyle::Plain,
        None,
        YamlVersion::V1_1,
    )
}

fn tagged<'a>(value: &'a str, uri: &'a str) -> ScalarDeserializer<'a> {
    ScalarDeserializer::new(
        Cow::Borrowed(value),
        ScalarStyle::Plain,
        Some(Tag {
            value: Cow::Borrowed(uri),
            span: point(),
        }),
        YamlVersion::V1_2,
    )
}

fn any(scalar: ScalarDeserializer<'_>) -> Shape {
    visited(scalar.deserialize_any().expect("should deserialise"))
}

fn string(scalar: ScalarDeserializer<'_>) -> String {
    match scalar.deserialize_string() {
        Visit::BorrowedStr(s) => s.to_owned(),
        Visit::String(s) => s,
        other => panic!("{other:?} is no text"),
    }
}

#[test]
fn a_borrowed_scalar_reaches_serde_borrowed() {
    let input = String::from("hello world");
    match plain(&input).deserialize_str() {
        Visit::BorrowedStr(borrowed) => {
            assert_eq!(borrowed, "hello world");
            assert!(
                std::ptr::eq(borrowed.as_ptr(), input.as_ptr()),
                "the &str must point INTO the input, not at a copy"
            );
        }
        other => panic!("{other:?} must borrow"),
    }
}

#[test]
fn an_owned_scalar_still_deserialises_as_a_string() {
    // A folded scalar arrives owned; it cannot be borrowed, and must not fail.
    let de = ScalarDeserializer::new(
        Cow::Owned("folded text".to_owned()),
        ScalarStyle::Plain,
        None,
        YamlVersion::V1_2,
    );
    assert_eq!(
        de.deserialize_string(),
        Visit::String("folded text".to_owned())
    );
}

#[test]
fn radix_prefixes_resolve() {
    assert_eq!(any(plain("0x1F")), Shape::Int(31));
    assert_eq!(any(plain("0X1f")), Shape::Int(31));
    assert_eq!(any(plain("0o17")), Shape::Int(15));
    assert_eq!(any(plain("-0x10")), Shape::Int(-16));
    assert_eq!(
        any(plain("017")),
        Shape::Int(17),
        "a bare leading zero is decimal"
    );
}

#[test]
fn booleans_are_case_sensitive_and_version_aware() {
    assert_eq!(any(plain("true")), Shape::Bool(true));
    assert_eq!(any(plain("TRUE")), Shape::Bool(true));
    assert_eq!(any(plain("tRuE")), text("tRuE"));

    // 1.1 spellings are strings under 1.2 and booleans under 1.1.
    assert_eq!(any(plain("yes")), text("yes"));
    assert_eq!(any(plain_1_1("yes")), Shape::Bool(true));
    assert_eq!(any(plain_1_1("no")), Shape::Bool(false));
}

#[test]
fn bare_inf_and_nan_stay_strings_dotted_forms_are_floats() {
    for word in ["inf", "Infinity", "nan", "NaN"] {
        assert_eq!(any(plain(word)), text(word), "{word}");
    }
    assert!(matches!(any(plain(".inf")), Shape::Float(F64(f)) if f.is_infinite()));
    assert!(
        matches!(any(plain("-.inf")), Shape::Float(F64(f)) if f.is_infinite() && f.is_sign_negative())
    );
    assert!(matches!(any(plain(".nan")), Shape::Float(F64(f)) if f.is_nan()));
}

#[test]
fn null_resolves_and_options_see_none() {
    assert_eq!(any(plain("null")), Shape::Null);
    assert_eq!(any(plain("~")), Shape::Null);
    assert_eq!(plain("~").deserialize_option().map(string), None);
    assert_eq!(
        plain("text").deserialize_option().map(string),
        Some("text".to_owned())
    );
}

/// Quoting is the author stating the value is text.
#[test]
fn quoted_scalars_stay_strings_regardless_of_content() {
    for content in ["1", "true", "null", "0x1F", ".inf", ""] {
        assert_eq!(
            any(quoted(content)),
            text(content),
            "{content:?} is quoted and must stay text"
        );
    }
    // A quoted null is not None.
    assert_eq!(
        quoted("~").deserialize_option().map(string),
        Some("~".to_owned())
    );
}

/// An explicit tag beats both implicit resolution and the style shortcut.
#[test]
fn core_schema_tags_drive_resolution() {
    assert_eq!(any(tagged("123", "tag:yaml.org,2002:str")), text("123"));
    assert_eq!(
        any(tagged("456", "tag:yaml.org,2002:int")),
        Shape::Int(456)
    );
    assert_eq!(
        any(tagged("true", "tag:yaml.org,2002:bool")),
        Shape::Bool(true)
    );
    assert_eq!(any(tagged("null", "tag:yaml.org,2002:null")), Shape::Null);
    assert!(tagged("abc", "tag:yaml.org,2002:int")
        .deserialize_any()
        .is_err());
}

#[test]
fn every_core_tag_can_refuse() {
    for (value, name, message) in [
        ("abc", "int", "expected integer, found `abc`"),
        ("abc", "float", "expected float, found `abc`"),
        ("yes", "bool", "expected boolean, found `yes`"),
        ("abc", "null", "expected null"),
        ("a", "binary", "expected base64, found `a`"),
    ] {
        let uri = format!("tag:yaml.org,2002:{name}");
        let error = tagged(value, &uri).deserialize_any().unwrap_err();
        assert_eq!(error.message(), message);
    }
    let big = tagged("18446744073709551615", "tag:yaml.org,2002:int");
    assert_eq!(any(big), Shape::UInt(u64::MAX));
    let whole = tagged("1", "tag:yaml.org,2002:float");
    assert_eq!(any(whole), Shape::Float(F64(1.0)));
    // A tag outside the core schema decides nothing.
    let local = tagged("1", "!local");
    assert_eq!(local.core_tag(), None);
    assert_eq!(any(local), Shape::Int(1));
    assert_eq!(
        CoreTag::from_uri("tag:yaml.org,2002:binary"),
        Some(CoreTag::Binary)
    );
}

/// A text target asked for text, so `1` is the one-character string.
#[test]
fn a_str_target_is_never_classified() {
    assert_eq!(string(plain("1")), "1");
    assert_eq!(string(plain("true")), "true");
    assert_eq!(string(plain("0x1F")), "0x1F");
    assert_eq!(plain("7").deserialize_identifier(), Visit::BorrowedStr("7"));
}

#[test]
fn typed_targets_use_the_shared_resolvers() {
    assert_eq!(plain("0x1F").deserialize_i64(), Ok(31));
    assert_eq!(plain("0o17").deserialize_u64(), Ok(15));
    assert!(
        plain("-1").deserialize_u64().is_err(),
        "unsigned refuses a minus"
    );
    let form = plain("1.5").deserialize_f64().unwrap();
    assert!((float(form, "1.5") - 1.5).abs() < f64::EPSILON);
    assert!(
        plain("yes").deserialize_bool().is_err(),
        "not a 1.2 boolean"
    );
    assert_eq!(plain_1_1("yes").deserialize_bool(), Ok(true));
}

#[test]
fn a_boolean_is_plain_or_tagged() {
    assert_eq!(plain("true").deserialize_bool(), Ok(true));
    assert_eq!(
        quoted("true").deserialize_bool().unwrap_err().message(),
        "expected boolean, found `true`"
    );
    let tag = |name: &str| {
        Some(Tag {
            value: Cow::Owned(format!("tag:yaml.org,2002:{name}")),
            span: point(),
        })
    };
    let scalar = |style, name: &str| {
        ScalarDeserializer::new(Cow::Borrowed("true"), style, tag(name), YamlVersion::V1_2)
    };
    let both = [ScalarStyle::Plain, ScalarStyle::DoubleQuoted];
    for style in both {
        assert_eq!(scalar(style, "bool").deserialize_bool(), Ok(true));
        assert!(scalar(style, "str").deserialize_bool().is_err());
    }
}

/// The tag decides first, quoting second, and what the text looks like last, for a
/// typed target as for one that takes anything.
#[test]
fn typed_targets_check_the_tag_and_the_style() {
    let in_style = |value: &'static str, style, name: &str| {
        let tag = Tag {
            value: Cow::Owned(format!("tag:yaml.org,2002:{name}")),
            span: point(),
        };
        ScalarDeserializer::new(Cow::Borrowed(value), style, Some(tag), YamlVersion::V1_2)
    };
    assert_eq!(
        quoted("42").deserialize_i64().unwrap_err().message(),
        "expected integer, found `42`"
    );
    assert_eq!(
        quoted("42").deserialize_u64().unwrap_err().message(),
        "expected unsigned, found `42`"
    );
    assert_eq!(
        quoted("1.5").deserialize_f64().unwrap_err().message(),
        "expected float, found `1.5`"
    );
    assert!(quoted("42").deserialize_i8().is_err());
    assert!(quoted("42").deserialize_u32().is_err());

    for style in [ScalarStyle::Plain, ScalarStyle::DoubleQuoted] {
        assert_eq!(in_style("42", style, "int").deserialize_i64(), Ok(42));
        assert_eq!(in_style("42", style, "int").deserialize_u16(), Ok(42));
        assert!(in_style("42", style, "int").deserialize_f64().is_ok());
        assert!(in_style("1.5", style, "float").deserialize_f64().is_ok());
        assert!(in_style("42", style, "str").deserialize_i64().is_err());
        assert!(in_style("42", style, "str").deserialize_u8().is_err());
        assert!(in_style("42", style, "float").deserialize_i64().is_err());
        assert!(in_style("1.5", style, "str").deserialize_f64().is_err());
        assert_eq!(in_style("null", style, "null").deserialize_unit(), Ok(()));
        assert!(in_style("null", style, "null").deserialize_option().is_none());
        assert!(in_style("null", style, "str").deserialize_unit().is_err());
        assert!(in_style("null", style, "str").deserialize_option().is_some());
    }
    // A plain integer in decimal digits is a float too; one in another base is not.
    assert!(plain("42").deserialize_f64().is_ok());
    assert!(plain("0x1F").deserialize_f64().is_err());
}

#[test]
fn a_doubled_sign_is_text() {
    for value in ["++5", "0x+1F", "+0x+1F", "--5"] {
        assert_eq!(any(plain(value)), text(value), "{value}");
        let error = tagged(value, "tag:yaml.org,2002:int").deserialize_any();
        assert!(error.is_err(), "{value}");
    }
}

#[test]
fn deserialize_unit_requires_a_plain_null() {
    assert!(plain("null").deserialize_unit().is_ok());
    assert!(plain("text").deserialize_unit().is_err());
    assert!(quoted("null").deserialize_unit().is_err());
}

#[test]
fn deserialize_any_picks_u64_only_beyond_i64_range() {
    assert_eq!(plain("1").deserialize_any(), Ok(Visit::I64(1)));
    assert_eq!(
        plain("9223372036854775807").deserialize_any(),
        Ok(Visit::I64(i64::MAX))
    );
    assert_eq!(
        plain("18446744073709551615").deserialize_any(),
        Ok(Visit::U64(u64::MAX))
    );
}

#[test]
fn a_plain_scalar_beyond_i64_resolves_as_u64() {
    assert_eq!(plain("18446744073709551615").deserialize_u64(), Ok(u64::MAX));
}

#[test]
fn asking_for_an_integer_rejects_non_integer_text() {
    let msg = plain("abc")
        .deserialize_i64()
        .expect_err("non-integer text deserialized as i64")
        .message();
    assert!(msg.contains("expected integer, found `abc`"), "{msg}");
}

#[test]
fn asking_for_a_float_rejects_non_float_text() {
    let msg = plain("abc")
        .deserialize_f64()
        .expect_err("non-float text deserialized as f64")
        .message();
    assert!(msg.contains("expected float, found `abc`"), "{msg}");
}

#[test]
fn an_untagged_scalar_hands_bytes_through_unchanged() {
    // Only `!!binary` is decoded; anything else is its own UTF-8.
    assert_eq!(plain("abc").deserialize_bytes(), Ok(b"abc".to_vec()));
    assert_eq!(
        plain("\u{e9}").deserialize_byte_buf(),
        Ok("\u{e9}".as_bytes().to_vec())
    );
}

#[test]
fn binary_is_decoded() {
    let uri = "tag:yaml.org,2002:binary";
    let encoded = "SGVsbG8gV29ybGQh";
    assert_eq!(
        tagged(encoded, uri).deserialize_bytes(),
        Ok(b"Hello World!".to_vec())
    );
    assert_eq!(
        any(tagged(encoded, uri)),
        Shape::Bytes(b"Hello World!".to_vec())
    );
    assert!(tagged("SGVsb", uri).deserialize_bytes().is_err());
}

#[test]
fn base64_has_one_encoding_per_payload() {
    assert_eq!(base64::decode(""), Some(vec![]));
    assert_eq!(base64::decode("AA=="), Some(vec![0]));
    assert_eq!(base64::decode("//8="), Some(vec![255, 255]));
    assert_eq!(base64::decode("+/+/"), Some(vec![251, 255, 191]));
    assert_eq!(base64::decode(" S G\nVs\r\n\tbG8= "), Some(b"Hello".to_vec()));
    for bad in ["A", "AA", "AAA", "AA=", "A===", "AB==", "AAB=", "AA==AAAA", "A?==", "=AAA"] {
        assert_eq!(base64::decode(bad), None, "{bad:?}");
    }
}

#[test]
fn a_unit_struct_requires_a_plain_null() {
    assert_eq!(plain("~").deserialize_unit_struct(), Ok(()));
    assert!(plain("1").deserialize_unit_struct().is_err());
}

#[test]
fn a_newtype_struct_wraps_the_scalar() {
    assert_eq!(
        plain("7").deserialize_newtype_struct().deserialize_i64(),
        Ok(7)
    );
}

#[test]
fn narrow_integers_report_overflow() {
    assert_eq!(plain("127").deserialize_i8(), Ok(127));
    assert_eq!(plain("-128").deserialize_i8(), Ok(-128));
    assert_eq!(plain("-32768").deserialize_i16(), Ok(-32768));
    assert_eq!(plain("2147483647").deserialize_i32(), Ok(i32::MAX));
    assert_eq!(plain("255").deserialize_u8(), Ok(255));
    assert_eq!(plain("0xFFFF").deserialize_u16(), Ok(65535));
    assert_eq!(plain("4294967295").deserialize_u32(), Ok(u32::MAX));
    for (got, want) in [
        (plain("128").deserialize_i8().map(|_| ()), "128 overflows i8"),
        (plain("-129").deserialize_i8().map(|_| ()), "-129 overflows i8"),
        (plain("40000").deserialize_i16().map(|_| ()), "40000 overflows i16"),
        (
            plain("-2147483649").deserialize_i32().map(|_| ()),
            "-2147483649 overflows i32",
        ),
        (plain("256").deserialize_u8().map(|_| ()), "256 overflows u8"),
        (plain("65536").deserialize_u16().map(|_| ()), "65536 overflows u16"),
        (
            plain("4294967296").deserialize_u32().map(|_| ()),
            "4294967296 overflows u32",
        ),
        (
            plain("x").deserialize_u32().map(|_| ()),
            "expected unsigned, found `x`",
        ),
    ] {
        assert_eq!(got.unwrap_err().message(), want);
    }
}

#[test]
fn a_character_is_a_text_of_one() {
    assert_eq!(plain("\u{1f980}").deserialize_char(), Ok('\u{1f980}'));
    assert_eq!(
        plain("").deserialize_char().unwrap_err().message(),
        "expected a character, found empty string"
    );
    assert_eq!(
        plain("ab").deserialize_char().unwrap_err().message(),
        "expected a single character, found `ab`"
    );
}

// ---- values off a parser -------------------------------------------------

#[test]
fn flow_sequence_becomes_a_vec() {
    assert_eq!(from_yaml("[1, 2, 3]").unwrap().integers(), vec![1, 2, 3]);
}

#[test]
fn block_sequence_becomes_a_vec() {
    assert_eq!(from_yaml("- 1\n- 2\n").unwrap().integers(), vec![1, 2]);
}

#[test]
fn empty_flow_collections_round_trip() {
    assert_eq!(from_yaml("[]").unwrap(), Shape::List(vec![]));
    assert_eq!(from_yaml("{}").unwrap(), Shape::Table(vec![]));
}

#[test]
fn block_mapping_becomes_a_map() {
    let got = from_yaml("a: 1\nb: 2\n").unwrap().integer_map();
    assert_eq!(got, BTreeMap::from([("a".into(), 1), ("b".into(), 2)]));
}

#[test]
fn mapping_becomes_a_struct() {
    let got = from_yaml("name: glaucus\nretries: 3\n").unwrap();
    assert_eq!(
        got,
        table(vec![("name", text("glaucus")), ("retries", Shape::Int(3))])
    );
}

#[test]
fn collections_nest() {
    let got = from_yaml("a: [[1, 2], [3]]\n").unwrap();
    assert_eq!(
        *got.get("a"),
        Shape::List(vec![integers(&[1, 2]), integers(&[3])])
    );
}

#[test]
fn scalars_inside_collections_keep_core_schema_resolution() {
    // `no` is a string under 1.2 and `0x1F` is 31, not the text "0x1F".
    let got = from_yaml("[no, 0x1F, ~, 1.5]").unwrap();
    assert_eq!(
        got,
        Shape::List(vec![
            text("no"),
            Shape::Int(31),
            Shape::Null,
            Shape::Float(F64(1.5)),
        ])
    );
}

#[test]
fn sequence_elements_borrow_from_the_input() {
    let input = String::from("[alpha, beta]");
    let mut tape = Tape::new(source(&input));
    let mut de = EventDeserializer::new(&mut tape, YamlVersion::V1_2, false);
    de.skip_framing().unwrap();
    assert_eq!(de.start_value(), Ok(Start::Sequence));
    let mut got: Vec<&str> = Vec::new();
    while de.next_element().unwrap() {
        match de.start_value().unwrap() {
            Start::Scalar(scalar) => match scalar.deserialize_any().unwrap() {
                Visit::BorrowedStr(s) => got.push(s),
                other => panic!("{other:?} does not borrow"),
            },
            other => panic!("{other:?} is no scalar"),
        }
    }
    assert_eq!(got, vec!["alpha", "beta"]);
    assert!(std::ptr::eq(got[0].as_ptr(), input[1..].as_ptr()));
}

#[test]
fn parser_level_truncation_surfaces_as_an_error() {
    // It must never yield a short list.
    let got = from_yaml("[1, 2");
    assert!(got.is_err(), "truncated flow sequence parsed as {got:?}");
    assert!(matches!(
        got,
        Err(DeError::Core(Error {
            kind: ErrorKind::Syntax(_),
            ..
        }))
    ));
}

// ---- injected streams ----------------------------------------------------

fn scalar(value: &str) -> Event<'_> {
    at(EventKind::Scalar {
        value: Cow::Borrowed(value),
        style: ScalarStyle::Plain,
        anchor: None,
        tag: None,
    })
}

fn seq_start<'de>() -> Event<'de> {
    at(EventKind::SequenceStart {
        anchor: None,
        tag: None,
        style: CollectionStyle::Flow,
    })
}

fn map_start<'de>() -> Event<'de> {
    at(EventKind::MappingStart {
        anchor: None,
        tag: None,
        style: CollectionStyle::Flow,
    })
}

#[test]
fn injected_stream_deserializes_like_the_parser() {
    let got = from_events(vec![seq_start(), scalar("1"), at(EventKind::SequenceEnd)]).unwrap();
    assert_eq!(got.integers(), vec![1]);
}

#[test]
fn sequence_that_ends_early_is_an_error_not_a_short_vec() {
    let msg = refusal(from_events(vec![seq_start(), scalar("1"), scalar("2")]));
    assert!(msg.contains("sequence not terminated"), "{msg}");
}

#[test]
fn mapping_that_ends_early_is_an_error() {
    let msg = refusal(from_events(vec![map_start(), scalar("a"), scalar("1")]));
    assert!(msg.contains("mapping not terminated"), "{msg}");
}

#[test]
fn mapping_key_without_a_value_is_an_error() {
    let msg = refusal(from_events(vec![map_start(), scalar("a")]));
    assert!(msg.contains("mapping key has no value"), "{msg}");
}

#[test]
fn empty_stream_where_a_value_is_expected_is_an_error() {
    let msg = refusal(from_events(vec![]));
    assert!(msg.contains("expected a value"), "{msg}");
}

#[test]
fn mismatched_end_events_are_rejected() {
    let msg = refusal(from_events(vec![seq_start(), at(EventKind::MappingEnd)]));
    assert!(msg.contains("mapping end inside a sequence"), "{msg}");

    let msg = refusal(from_events(vec![map_start(), at(EventKind::SequenceEnd)]));
    assert!(msg.contains("sequence end inside a mapping"), "{msg}");
}

#[test]
fn a_non_value_event_where_a_value_belongs_is_reported_by_name() {
    let msg = refusal(from_events(vec![at(EventKind::StreamEnd)]));
    assert!(msg.contains("expected a value, found stream-end"), "{msg}");
    for (kind, name) in [
        (EventKind::StreamStart, "stream-start"),
        (EventKind::DocumentEnd { explicit: true }, "document-end"),
        (
            EventKind::DocumentStart {
                explicit: false,
                version: YamlVersion::V1_2,
            },
            "document-start",
        ),
        (
            EventKind::Alias {
                name: Cow::Borrowed("x"),
            },
            "alias",
        ),
        (EventKind::SequenceEnd, "sequence-end"),
        (EventKind::MappingEnd, "mapping-end"),
    ] {
        let msg = refusal(from_events(vec![at(kind)]));
        assert_eq!(msg, format!("expected a value, found {name}"));
    }
}

#[test]
fn skip_framing_stops_at_the_first_real_value() {
    let mut tape = Tape::new(source("- 1\n"));
    let mut de = EventDeserializer::new(&mut tape, YamlVersion::V1_2, false);
    de.skip_framing().unwrap();
    assert_eq!(de.peek().unwrap(), Some(Peek::Value));
}

#[test]
fn skip_framing_on_an_empty_document_reaches_the_end() {
    let mut tape = Tape::new(source(""));
    let mut de = EventDeserializer::new(&mut tape, YamlVersion::V1_2, false);
    de.skip_framing().unwrap();
    assert_eq!(de.peek().unwrap(), None);
}

#[test]
fn skip_framing_steps_over_every_framing_event() {
    // Injected rather than parsed so all four framing kinds appear in one stream.
    let mut source = SliceSource::new(vec![
        at(EventKind::StreamStart),
        at(EventKind::DocumentStart {
            explicit: true,
            version: YamlVersion::V1_2,
        }),
        scalar("7"),
        at(EventKind::DocumentEnd { explicit: true }),
        at(EventKind::StreamEnd),
    ]);
    let mut de = EventDeserializer::new(&mut source, YamlVersion::V1_2, false);

    de.skip_framing().unwrap();
    assert_eq!(read(&mut de).unwrap(), Shape::Int(7));

    // The trailing framing is skipped just as the leading framing was.
    de.skip_framing().unwrap();
    assert_eq!(de.peek().unwrap(), None);
}

#[test]
fn a_failure_is_reported_once_and_then_skipped() {
    let mut source = ParsedSource::new(vec![
        Err(Error::spanless(ErrorKind::Syntax("broken".to_owned()))),
        Ok(scalar("7")),
    ]);
    let mut de = EventDeserializer::new(&mut source, YamlVersion::V1_2, false);
    assert_eq!(de.peek().unwrap_err().message(), "broken");
    assert_eq!(de.peek_scalar_text().unwrap().as_deref(), Some("7"));
    assert_eq!(de.take().unwrap(), Some(scalar("7")));
    assert_eq!(de.take().unwrap(), None);
}

// ---- anchors and aliases -------------------------------------------------

#[test]
fn an_alias_resolves_to_its_anchor() {
    let got = from_yaml("a: &x [1, 2]\nb: *x\n").unwrap();
    assert_eq!(got.get("a").integers(), vec![1, 2]);
    assert_eq!(got.get("b"), got.get("a"));
}

#[test]
fn an_alias_to_a_scalar_resolves() {
    let got = from_yaml("a: &x 7\nb: *x\n").unwrap();
    assert_eq!(*got.get("b"), Shape::Int(7));
}

#[test]
fn nested_anchors_resolve_independently_and_when_nested() {
    // `y` sits inside `x`. Replaying `x` must reproduce `y`'s events, and `y` must
    // still resolve on its own afterwards.
    let got = from_yaml("a: &x {p: &y [1, 2], q: *y}\nb: *x\n").unwrap();
    assert_eq!(got.get("a").get("p").integers(), vec![1, 2]);
    assert_eq!(got.get("a").get("q").integers(), vec![1, 2]);
    assert_eq!(got.get("b"), got.get("a"));
}

#[test]
fn an_alias_inside_an_anchored_value_survives_replay() {
    let got = from_yaml("a: &x [1]\nz: &z [*x, *x]\nc: *z\n").unwrap();
    assert_eq!(got.get("a").integers(), vec![1]);
    assert_eq!(
        *got.get("z"),
        Shape::List(vec![integers(&[1]), integers(&[1])])
    );
    assert_eq!(got.get("c"), got.get("z"));
}

#[test]
fn an_anchor_aliased_repeatedly_resolves_every_time() {
    let got = from_yaml("a: &x [1]\nb: *x\nc: *x\nd: *x\n").unwrap();
    for key in ["b", "c", "d"] {
        assert_eq!(got.get(key).integers(), vec![1], "{key}");
    }
}

#[test]
fn an_undefined_alias_is_an_error() {
    let msg = refusal(from_yaml("a: *nope\n"));
    assert!(msg.contains("undefined alias"), "{msg}");
}

#[test]
fn an_anchor_cannot_alias_itself() {
    // At `*x` the scope for `x` is still open, so `x` is not yet a defined anchor.
    let got = from_yaml("a: &x [*x]\n");
    assert!(got.is_err(), "self-referential alias resolved: {got:?}");
}

#[test]
fn a_self_referential_anchor_is_an_undefined_alias() {
    let msg = refusal(from_yaml("a: &x [*x]\n"));
    assert!(msg.contains("undefined alias"), "{msg}");
}

/// Every anchor shape must produce the same value on both paths.
#[test]
fn anchors_agree_with_the_tree_path() {
    const CASES: &[&str] = &[
        "a: &x 1\nb: *x\n",
        "a: &x {p: 1, q: 2}\nb: *x\n",
        "a: &x [1, 2, 3]\nb: *x\n",
        "a: &outer\n  inner: &in [1, 2]\n  other: *in\nb: *outer\n",
        "a: &x [1, 2]\nb: *x\nc: *x\nd: *x\ne: *x\n",
        "a: &x [1]\nz: &z [*x, *x]\nc: *z\n",
        "a: &x {p: &y [1, 2], q: *y}\nb: *x\n",
        // An anchor that is never aliased must not change the result.
        "a: &unused [1, 2]\nb: 3\n",
        // A redefined anchor: the later definition wins.
        "a: &x 1\nb: &x 2\nc: *x\n",
    ];

    for yaml in CASES {
        let tree = tree(yaml, false);
        let streaming = from_yaml(yaml).map_err(|e| e.message());
        assert!(tree.is_ok(), "{yaml:?}: {tree:?}");
        assert_eq!(streaming, tree, "{yaml:?}");
    }
}

/// An undefined alias refuses the value it stands in, at any depth and with merge keys
/// on or off, however much of the value came before it.
#[test]
fn an_undefined_alias_refuses_the_whole_value() {
    for yaml in [
        "*nope\n",
        "a: *nope\n",
        "- 1\n- [2, {k: *nope}]\n- 3\n",
        "a: &x [1, 2]\nb: [*x, *y]\nc: &y 3\n",
        "m:\n  <<: *nope\n",
    ] {
        let message = from_yaml(yaml).unwrap_err().message();
        assert!(message.contains("undefined alias"), "{yaml:?}: {message}");
        let message = from_yaml_merged(yaml).unwrap_err().message();
        assert!(message.contains("undefined alias"), "{yaml:?}: {message}");
    }
}

/// An alias inside an anchored value keeps the meaning it had when it was read, even if
/// its anchor is redefined before the value is replayed.
#[test]
fn a_recorded_alias_keeps_its_meaning() {
    let yaml = "a: &x 1\nz: &z [*x]\nb: &x 2\nc: *z\nd: *x\n";
    let streaming = from_yaml(yaml).unwrap();
    assert_eq!(streaming.get("z").integers(), [1]);
    assert_eq!(streaming.get("c").integers(), [1]);
    assert_eq!(streaming.get("d").integer(), 2);

    const CASES: &[&str] = &[
        "a: &x 1\nz: &z [*x]\nb: &x 2\nc: *z\n",
        "a: &x 1\nz: &z [*x]\nc: *z\nb: &x 2\nd: *x\n",
        "a: &x 1\nz: &z [*x, &x 2, *x]\nc: *z\nd: *x\n",
        "a: &x 1\nb: &x [*x]\nc: *x\n",
        "a: &x 1\ny: &y [*x]\nz: &z [*y]\nb: &x 2\nc: &y 3\nd: *z\n",
    ];
    for yaml in CASES {
        let tree = tree(yaml, false);
        assert!(tree.is_ok(), "{yaml:?}: {tree:?}");
        assert_eq!(from_yaml(yaml).map_err(|e| e.message()), tree, "{yaml:?}");
    }
}

// ---- merge keys ----------------------------------------------------------

fn merged(input: &str) -> BTreeMap<String, i64> {
    from_yaml_merged(input).unwrap().get("m").integer_map()
}

#[test]
fn a_simple_merge_supplies_defaults() {
    let got = merged("d: &d {a: 1, b: 2}\nm:\n  <<: *d\n");
    assert_eq!(got, BTreeMap::from([("a".into(), 1), ("b".into(), 2)]));
}

#[test]
fn an_explicit_key_beats_a_merged_one() {
    let got = merged("d: &d {a: 1, b: 2}\nm:\n  <<: *d\n  a: 9\n");
    assert_eq!(got["a"], 9, "the explicit key must win");
    assert_eq!(got["b"], 2);
}

#[test]
fn an_explicit_key_wins_even_when_written_before_the_merge() {
    let got = merged("d: &d {a: 1}\nm:\n  a: 9\n  <<: *d\n");
    assert_eq!(got["a"], 9);
}

#[test]
fn in_a_merge_sequence_the_earlier_source_wins() {
    let got = merged("x: &x {a: 1}\ny: &y {a: 8, b: 2}\nm:\n  <<: [*x, *y]\n");
    assert_eq!(got["a"], 1, "the earlier source must win");
    assert_eq!(got["b"], 2);
}

#[test]
fn repeated_merge_keys_are_all_applied_earlier_first() {
    let got = merged("x: &x {a: 1}\ny: &y {a: 8, b: 2}\nm:\n  <<: *x\n  <<: *y\n");
    assert_eq!(got["a"], 1);
    assert_eq!(got["b"], 2);
}

#[test]
fn a_quoted_merge_key_still_merges() {
    let got = merged("d: &d {a: 1}\nm:\n  \"<<\": *d\n");
    assert_eq!(got["a"], 1);
}

#[test]
fn an_inline_mapping_merges_without_an_anchor() {
    let got = merged("m:\n  z: 0\n  <<: {a: 1}\n");
    assert_eq!(got, BTreeMap::from([("z".into(), 0), ("a".into(), 1)]));
}

#[test]
fn a_scalar_merge_value_is_an_error() {
    let msg = refusal(from_yaml_merged("m:\n  <<: 5\n"));
    assert!(msg.contains("merge key"), "{msg}");
    assert_eq!(
        msg,
        "expected mapping or sequence of mappings for '<<' merge key, found scalar"
    );
}

#[test]
fn a_non_mapping_in_a_merge_sequence_is_an_error() {
    let msg = refusal(from_yaml_merged("x: &x {a: 1}\nm:\n  <<: [*x, 5]\n"));
    assert!(msg.contains("merge key"), "{msg}");
}

#[test]
fn merge_keys_stay_literal_when_the_feature_is_off() {
    let got = from_yaml("m:\n  <<: {a: 1}\n").unwrap();
    let expected = table(vec![(
        "m",
        table(vec![("<<", table(vec![("a", Shape::Int(1))]))]),
    )]);
    assert_eq!(got, expected, "`<<` must stay an ordinary key");
}

#[test]
fn a_source_key_beats_the_one_it_inherits() {
    // `o` states `a: 2` and inherits `a: 1` from `i`. What a mapping says itself
    // outranks what it merged in, at every level.
    let got = merged("i: &i {a: 1}\no: &o {<<: *i, a: 2}\nm:\n  <<: *o\n");
    assert_eq!(got["a"], 2);

    // ...and the target still overrides both.
    let got = merged("i: &i {a: 1}\no: &o {<<: *i, a: 2}\nm:\n  <<: *o\n  a: 3\n");
    assert_eq!(got["a"], 3);
}

/// Precedence must be the same on both paths.
#[test]
fn merges_agree_with_the_tree_path() {
    const CASES: &[&str] = &[
        "d: &d {a: 1, b: 2}\nm:\n  <<: *d\n",
        "d: &d {a: 1, b: 2}\nm:\n  <<: *d\n  a: 9\n",
        "x: &x {a: 1}\ny: &y {a: 8, b: 2}\nm:\n  <<: [*x, *y]\n",
        "m:\n  z: 0\n  <<: {a: 1}\n  y: 9\n",
        "d: &d {a: 1}\nm:\n  \"<<\": *d\n",
        "x: &x {a: 1}\ny: &y {b: 2}\nm:\n  <<: *x\n  <<: *y\n",
        "d: &d {a: 1}\nm: {<<: *d, b: 2}\n",
        // A merged value that is itself a mapping with a merge key.
        "i: &i {p: 1}\no: &o {<<: *i, q: 2}\nm:\n  <<: *o\n",
        // ...where the source's OWN key collides with what it inherits.
        "i: &i {a: 1}\no: &o {<<: *i, a: 2}\nm:\n  <<: *o\n",
        "i: &i {a: 1}\no: &o {<<: *i, a: 2}\nm:\n  <<: *o\n  a: 3\n",
        "i: &i {a: 1, b: 1}\no: &o {<<: *i, b: 2, c: 2}\nm:\n  <<: *o\n  c: 3\n",
    ];

    for yaml in CASES {
        let tree = tree(yaml, true);
        let streaming = from_yaml_merged(yaml).map_err(|e| e.message());
        assert!(tree.is_ok(), "{yaml:?}: {tree:?}");
        assert_eq!(streaming, tree, "{yaml:?}");
    }
}

// ---- merge sources, directly ---------------------------------------------

#[test]
fn value_extent_measures_a_scalar_and_a_collection() {
    assert_eq!(value_extent(&[scalar("a"), scalar("b")]), 1);
    assert_eq!(
        value_extent(&[seq_start(), scalar("1"), at(EventKind::SequenceEnd)]),
        3
    );
}

#[test]
fn value_extent_of_an_unbalanced_run_is_the_whole_run() {
    assert_eq!(value_extent(&[seq_start(), scalar("1")]), 2);
    assert_eq!(value_extent(&[]), 0);
    assert_eq!(value_extent(&[at(EventKind::MappingEnd), scalar("1")]), 1);
}

#[test]
fn scalar_text_accepts_only_a_lone_scalar() {
    assert_eq!(scalar_text(&[scalar("k")]), Some("k"));
    // A collection key: more than one event, so it has no text to collide on.
    assert_eq!(
        scalar_text(&[seq_start(), scalar("1"), at(EventKind::SequenceEnd)]),
        None
    );
    // A single event that is not a scalar.
    assert_eq!(scalar_text(&[seq_start()]), None);
}

#[test]
fn inner_events_of_a_run_too_short_to_have_any_is_empty() {
    assert!(inner_events(&[]).is_empty());
    assert!(inner_events(&[seq_start()]).is_empty());
    assert!(inner_events(&[map_start(), at(EventKind::MappingEnd)]).is_empty());
    let run = [map_start(), scalar("a"), at(EventKind::MappingEnd)];
    assert_eq!(inner_events(&run), [scalar("a")]);
}

#[test]
fn a_dangling_key_in_a_merge_source_is_dropped() {
    // A key with no value cannot contribute an entry.
    let mut out = VecDeque::new();
    let events = [map_start(), scalar("a"), at(EventKind::MappingEnd)];
    push_mapping_entries(&events, &mut out, false).unwrap();
    assert!(out.is_empty(), "got {out:?}");
}

#[test]
fn a_merge_source_is_split_into_runs() {
    let mut out = VecDeque::new();
    let events = [
        map_start(),
        scalar("a"),
        seq_start(),
        scalar("1"),
        at(EventKind::SequenceEnd),
        scalar("b"),
        scalar("2"),
        at(EventKind::MappingEnd),
    ];
    assert!(is_mapping(&events));
    split_merge_sources(&events, &mut out, true).unwrap();
    assert_eq!(
        out,
        VecDeque::from([
            (
                vec![scalar("a")],
                vec![seq_start(), scalar("1"), at(EventKind::SequenceEnd)],
            ),
            (vec![scalar("b")], vec![scalar("2")]),
        ])
    );
    assert!(!is_mapping(&[]));
    assert_eq!(
        merge_value_error(&[]).message(),
        "expected mapping or sequence of mappings for '<<' merge key, found nothing"
    );
}

#[test]
fn a_merge_value_that_ends_mid_stream_is_an_error() {
    let mut source = SliceSource::new(vec![map_start(), scalar("a")]);
    let mut de = EventDeserializer::new(&mut source, YamlVersion::V1_2, true);
    let msg = de
        .capture_value()
        .expect_err("an unterminated merge value was captured")
        .message();
    assert!(msg.contains("merge value is incomplete"), "{msg}");
}

#[test]
fn capturing_takes_exactly_one_value() {
    let mut source = SliceSource::new(vec![
        seq_start(),
        map_start(),
        at(EventKind::MappingEnd),
        at(EventKind::SequenceEnd),
        scalar("after"),
    ]);
    let mut de = EventDeserializer::new(&mut source, YamlVersion::V1_2, true);
    assert_eq!(de.capture_value().unwrap().len(), 4);
    assert_eq!(de.capture_value().unwrap(), vec![scalar("after")]);
}

/// Reads `yaml` on both paths with merge keys on.
fn both_paths(yaml: &str) -> (Result<Shape, String>, Result<Shape, String>) {
    (
        tree(yaml, true),
        from_yaml_merged(yaml).map_err(|e| e.message()),
    )
}

#[test]
fn a_non_scalar_merged_key_is_kept_without_deduplication() {
    let (tree, streaming) = both_paths("<<: {? [1, 2]\n     : v}\n");
    assert_eq!(streaming, tree);
    assert!(tree.is_ok(), "{tree:?}");

    let (tree, streaming) = both_paths("<<: [{[1]: v}, {[1]: w}]\n");
    assert_eq!(streaming, tree);
    assert_eq!(
        tree,
        Ok(Shape::Table(vec![
            (integers(&[1]), text("v")),
            (integers(&[1]), text("w")),
        ]))
    );
}

#[test]
fn a_collection_key_is_not_mistaken_for_a_merge_key() {
    let (tree, streaming) = both_paths("? [1, 2]\n: v\n");
    assert_eq!(streaming, tree);
    assert_eq!(
        tree,
        Ok(Shape::Table(vec![(integers(&[1, 2]), text("v"))]))
    );
}

#[test]
fn merged_entries_follow_the_explicit_ones_in_order() {
    let (tree, streaming) = both_paths("z: 0\n<<: {a: 1}\ny: 9\n");
    assert_eq!(streaming, tree);
    assert_eq!(
        streaming,
        Ok(table(vec![
            ("z", Shape::Int(0)),
            ("y", Shape::Int(9)),
            ("a", Shape::Int(1)),
        ])),
        "explicit keys keep document order and merged ones come after"
    );
}

// ---- resource limits -----------------------------------------------------

/// Both paths must reach the same verdict when a budget is tight.
#[test]
fn limits_reach_the_same_verdict_on_both_paths() {
    let reader = ReaderLimits::new();
    let config = ParserConfig::default();
    let cases: &[(&str, ReaderLimits, ParserConfig)] = &[
        ("a: &x 1\nb: &y 2\n", ReaderLimits { anchors: 1, ..reader }, config),
        ("a: &x 1\nb: &x 2\n", ReaderLimits { anchors: 1, ..reader }, config),
        ("a: &toolong 1\n", ReaderLimits { anchor_name: 2, ..reader }, config),
        ("a: &ok 1\n", ReaderLimits { anchor_name: 2, ..reader }, config),
        ("a: abcdefghij\n", ReaderLimits { scalar: 3, ..reader }, config),
        ("a: ab\n", ReaderLimits { scalar: 3, ..reader }, config),
        ("a: [[[[1]]]]\n", ReaderLimits { depth: 3, ..reader }, config),
        (
            "a: &x 1\nb: *x\nc: *x\n",
            reader,
            ParserConfig {
                limits: ResourceLimits {
                    max_alias_expansions: 1,
                    ..ResourceLimits::default()
                },
                ..config
            },
        ),
    ];

    let mut accepted = Vec::new();
    for (yaml, reader, config) in cases {
        let tree = tree_within(yaml, *reader, *config).is_ok();
        let streaming = stream_within(yaml, *reader, *config).is_ok();
        assert_eq!(tree, streaming, "{yaml:?}");
        accepted.push(streaming);
    }
    assert_eq!(
        accepted,
        vec![false, false, false, true, false, true, false, false]
    );
}

/// Streaming bounds work that the tree path never performs.
#[test]
fn streaming_is_stricter_than_the_tree_path_in_two_known_places() {
    // 1. Depth introduced by expansion: the parser bounded what it read, and the
    // expanded stream is what a consumer recurses through.
    let reader = ReaderLimits {
        depth: 3,
        ..ReaderLimits::new()
    };
    let deep = ParserConfig {
        limits: ResourceLimits {
            max_depth: 3,
            ..ResourceLimits::default()
        },
        ..ParserConfig::default()
    };
    let yaml = "a: &a [[1]]\nb: [[*a]]\n";
    assert!(
        tree_within(yaml, reader, deep).is_ok(),
        "the tree path is expected to accept this"
    );
    let msg = refusal(stream_within(yaml, reader, deep));
    assert_eq!(msg, "nesting depth limit of 3 exceeded");

    // 2. Where the billion-laughs line falls: streaming charges every re-expansion.
    let bomb = "a: &a [x,x,x,x,x,x,x,x,x]\n\
                b: &b [*a,*a,*a,*a,*a,*a,*a,*a,*a]\n\
                c: &c [*b,*b,*b,*b,*b,*b,*b,*b,*b]\n\
                d: &d [*c,*c,*c,*c,*c,*c,*c,*c,*c]\n\
                e: [*d,*d,*d,*d,*d,*d,*d,*d,*d]\n";
    assert!(
        tree(bomb, false).is_ok(),
        "the tree path is expected to accept this"
    );
    let msg = refusal(from_yaml(bomb));
    assert_eq!(msg, "alias expansion limit of 1024 exceeded");
}

// ---- the two paths on a corpus -------------------------------------------

/// One document. The name is carried so a failure says which case broke.
struct Case {
    name: &'static str,
    yaml: &'static str,
}

/// Asserts both paths agree on whether `yaml` is accepted, and on what it produces.
fn assert_paths_agree(case: &Case, merge_keys: bool) -> bool {
    let config = ParserConfig {
        merge_keys,
        ..ParserConfig::default()
    };
    let name = case.name;
    let tree = tree(case.yaml, merge_keys);
    let streaming = stream_within(case.yaml, ReaderLimits::new(), config);
    match (tree, streaming) {
        (Ok(tree), Ok(streaming)) => {
            assert_eq!(tree, streaming, "{name}");
            true
        }
        (Err(_), Err(_)) => false,
        (tree, streaming) => panic!("{name}: tree {tree:?}, streaming {streaming:?}"),
    }
}

const CORPUS: &[Case] = &[
    // scalars and resolution
    Case {
        name: "plain-scalars",
        yaml: "a: 1\nb: text\nc: true\nd: null\ne: 1.5\n",
    },
    Case {
        name: "radix-integers",
        yaml: "hex: 0x1F\nHEX: 0X1f\noct: 0o17\nneg: -0x10\nzero: 017\n",
    },
    Case {
        name: "bare-inf-nan-are-strings",
        yaml: "a: inf\nb: nan\nc: infinity\nd: -inf\n",
    },
    Case {
        name: "dotted-inf-nan-are-floats",
        yaml: "a: .inf\nb: -.inf\nc: .nan\nd: .INF\n",
    },
    Case {
        name: "quoted-values-stay-text",
        yaml: "a: \"1\"\nb: 'true'\nc: \"null\"\nd: \"\"\n",
    },
    // structure
    Case {
        name: "nested-collections",
        yaml: "a:\n  b:\n    - 1\n    - c: 2\n      d: [3, 4]\n",
    },
    Case {
        name: "empty-document",
        yaml: "",
    },
    Case {
        name: "comment-only-document",
        yaml: "# nothing but a comment\n",
    },
    Case {
        name: "non-string-mapping-keys",
        yaml: "1: one\ntrue: yes-key\n0x1F: hex-key\n",
    },
    Case {
        name: "empty-collections",
        yaml: "a: []\nb: {}\nc: [[], {}]\n",
    },
    Case {
        // The two styles denote the same value.
        name: "flow-and-block-agree",
        yaml: "flow: {a: [1, 2], b: {c: 3}}\nblock:\n  a:\n    - 1\n    - 2\n  b:\n    c: 3\n",
    },
    Case {
        name: "sequence-of-mappings",
        yaml: "- a: 1\n  b: 2\n- a: 3\n  b: 4\n",
    },
    Case {
        name: "single-element-collections",
        yaml: "a: [1]\nb: {c: 1}\nd:\n  - 1\n",
    },
    // anchors and aliases
    Case {
        name: "anchor-on-scalar",
        yaml: "a: &x 1\nb: *x\n",
    },
    Case {
        name: "anchor-on-mapping",
        yaml: "a: &x {p: 1, q: 2}\nb: *x\n",
    },
    Case {
        name: "anchor-on-sequence",
        yaml: "a: &x [1, 2, 3]\nb: *x\n",
    },
    Case {
        name: "nested-anchors",
        yaml: "a: &outer\n  inner: &in [1, 2]\n  other: *in\nb: *outer\n",
    },
    Case {
        name: "anchor-aliased-repeatedly",
        yaml: "a: &x [1, 2]\nb: *x\nc: *x\nd: *x\ne: *x\n",
    },
    // merge keys
    Case {
        name: "merge-simple",
        yaml: "d: &d {a: 1, b: 2}\nm:\n  <<: *d\n",
    },
    Case {
        name: "merge-overriding",
        yaml: "d: &d {a: 1, b: 2}\nm:\n  <<: *d\n  a: 9\n",
    },
    Case {
        name: "merge-sequence-of-sources",
        yaml: "x: &x {a: 1}\ny: &y {b: 2}\nm:\n  <<: [*x, *y]\n",
    },
    // tags and directives
    Case {
        name: "explicit-tags",
        yaml: "a: !!str 123\nb: !!int \"456\"\nc: !!bool \"true\"\nd: !!null \"null\"\n",
    },
    Case {
        name: "yaml-1-1-directive",
        yaml: "%YAML 1.1\n---\na: yes\nb: no\nc: on\nd: off\n",
    },
    Case {
        name: "binary-tag",
        yaml: "a: !!binary SGVsbG8gV29ybGQh\n",
    },
    Case {
        name: "verbatim-tags",
        yaml: "a: !<tag:yaml.org,2002:str> 123\nb: !<!local> x\n",
    },
];

/// Malformed input: agreeing about failure matters as much.
const MALFORMED: &[Case] = &[
    Case {
        name: "unclosed-flow-sequence",
        yaml: "a: [1, 2\n",
    },
    Case {
        name: "unclosed-flow-mapping",
        yaml: "a: {b: 1\n",
    },
    Case {
        name: "undefined-alias",
        yaml: "a: *nope\n",
    },
    Case {
        name: "duplicate-key",
        yaml: "a: 1\na: 2\n",
    },
    Case {
        name: "tab-indentation",
        yaml: "a:\n\tb: 1\n",
    },
    Case {
        name: "bad-anchor-name",
        yaml: "a: &\nb: 1\n",
    },
];

#[test]
fn tree_and_streaming_paths_agree_on_the_corpus() {
    for case in CORPUS {
        let accepted = assert_paths_agree(case, false);
        let empty = case.name == "empty-document" || case.name == "comment-only-document";
        assert_eq!(accepted, !empty, "{}", case.name);
        assert_paths_agree(case, true);
    }
}

#[test]
fn tree_and_streaming_paths_agree_on_malformed_input() {
    for case in MALFORMED {
        assert!(!assert_paths_agree(case, false), "{}", case.name);
    }
}

/// Guards the corpus itself: it may only grow.
#[test]
fn the_corpus_is_not_empty() {
    assert!(
        CORPUS.len() >= 25,
        "corpus shrank to {} cases; it should only grow",
        CORPUS.len()
    );
    assert!(!MALFORMED.is_empty(), "malformed cases must be covered too");

    let mut names: Vec<&str> = CORPUS.iter().chain(MALFORMED).map(|c| c.name).collect();
    names.sort_unstable();
    let before = names.len();
    names.dedup();
    assert_eq!(
        before,
        names.len(),
        "case names must be unique to identify failures"
    );
}

#[test]
fn corpus_values_are_what_they_say() {
    let got = from_yaml("%YAML 1.1\n---\na: yes\nb: no\n").unwrap();
    assert_eq!(
        got,
        table(vec![("a", Shape::Bool(true)), ("b", Shape::Bool(false))])
    );
    let got = from_yaml("a: !!str 123\nb: !!int \"456\"\nc: !!null \"null\"\n").unwrap();
    assert_eq!(
        got,
        table(vec![("a", text("123")), ("b", Shape::Int(456)), ("c", Shape::Null)])
    );
    let got = from_yaml("a: \"1\"\nb: 'true'\n").unwrap();
    assert_eq!(got, table(vec![("a", text("1")), ("b", text("true"))]));
    assert_eq!(
        glaucus::schema::classify_plain("inf", YamlVersion::V1_2),
        Resolved::Str
    );
}
