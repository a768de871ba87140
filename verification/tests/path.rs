//! Path syntax, on concrete paths.

use glaucus::path::{parse_path, Segment};

#[test]
fn the_empty_path_addresses_the_root() {
    assert!(parse_path("").is_empty());
}

#[test]
fn dotted_keys_split_into_keys() {
    assert_eq!(
        parse_path("a.b.c"),
        vec![Segment::Key("a"), Segment::Key("b"), Segment::Key("c")]
    );
}

#[test]
fn non_negative_integers_are_indices() {
    assert_eq!(
        parse_path("items.1.name"),
        vec![
            Segment::Key("items"),
            Segment::Index(1, "1"),
            Segment::Key("name"),
        ]
    );
    assert_eq!(parse_path("0"), vec![Segment::Index(0, "0")]);
}

/// Sequence indices are non-negative, so a negative number can only name a key.
#[test]
fn negative_numbers_are_keys_not_indices() {
    assert_eq!(parse_path("-1"), vec![Segment::Key("-1")]);
    assert_eq!(
        parse_path("a.-1.b"),
        vec![Segment::Key("a"), Segment::Key("-1"), Segment::Key("b")]
    );
}

#[test]
fn other_numeric_shapes_are_keys() {
    // `+1` is an index: one leading `+` is allowed.
    assert_eq!(parse_path("+1"), vec![Segment::Index(1, "+1")]);
    assert_eq!(
        parse_path("1.5"),
        vec![Segment::Index(1, "1"), Segment::Index(5, "5")]
    );
    assert_eq!(parse_path("0x1F"), vec![Segment::Key("0x1F")]);
}

#[test]
fn a_double_dot_is_recursive_descent() {
    assert_eq!(
        parse_path("a..b"),
        vec![Segment::Key("a"), Segment::Descend, Segment::Key("b")]
    );
}

#[test]
fn descent_at_the_start_is_a_leading_empty_segment() {
    assert_eq!(parse_path(".a"), vec![Segment::Descend, Segment::Key("a")]);
    // `..a` has two empty pieces in front, and the two descents collapse.
    assert_eq!(parse_path("..a"), vec![Segment::Descend, Segment::Key("a")]);
    assert_eq!(
        parse_path("...a"),
        vec![Segment::Descend, Segment::Key("a")]
    );
    assert_eq!(
        parse_path("a..b"),
        vec![Segment::Key("a"), Segment::Descend, Segment::Key("b")]
    );
}

#[test]
fn descent_at_the_end_is_a_trailing_empty_segment() {
    assert_eq!(parse_path("a."), vec![Segment::Key("a"), Segment::Descend]);
}

/// The node decides: `1` is index 1 of a sequence and key "1" of a mapping.
#[test]
fn an_index_is_still_addressable_as_a_key() {
    let seg = parse_path("1")[0];
    assert_eq!(seg.as_index(), Some(1));
    assert_eq!(seg.as_key(), Some("1"));
}

#[test]
fn a_key_has_no_index_and_descend_has_neither() {
    let key = parse_path("name")[0];
    assert_eq!(key.as_key(), Some("name"));
    assert_eq!(key.as_index(), None);

    let descend = parse_path("a..b")[1];
    assert_eq!(descend.as_key(), None);
    assert_eq!(descend.as_index(), None);
}

#[test]
fn pieces_may_hold_any_text_but_a_dot() {
    assert_eq!(
        parse_path("\u{e9}t\u{e9}.a b.\u{1f980}"),
        vec![
            Segment::Key("\u{e9}t\u{e9}"),
            Segment::Key("a b"),
            Segment::Key("\u{1f980}"),
        ]
    );
}

#[test]
fn dots_alone_are_one_descent() {
    for path in [".", "..", "....."] {
        assert_eq!(parse_path(path), vec![Segment::Descend], "{path}");
    }
}

#[test]
fn an_index_too_large_for_a_sequence_is_a_key() {
    let path = "99999999999999999999999";
    assert_eq!(parse_path(path), vec![Segment::Key(path)]);
}
