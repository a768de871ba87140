//! Scalar resolution, on concrete spellings.

use glaucus::schema::{
    classify_plain, float_form, is_null, resolve_bool, resolve_index, resolve_int, resolve_uint,
    FloatForm, Resolved,
};
use glaucus::types::YamlVersion;

/// The float a text spells: its kind decides, and a number is read by `str::parse`.
fn resolve_float(value: &str) -> Option<f64> {
    match float_form(value)? {
        FloatForm::Infinity => Some(f64::INFINITY),
        FloatForm::NegInfinity => Some(f64::NEG_INFINITY),
        FloatForm::Nan => Some(f64::NAN),
        FloatForm::Number => Some(value.parse().expect("a decimal number parses")),
    }
}

// ---- null ----

#[test]
fn null_accepts_the_enumerated_spellings_and_the_empty_scalar() {
    for v in ["null", "Null", "NULL", "~", ""] {
        assert!(is_null(v), "{v:?} is the null production");
    }
}

#[test]
fn null_is_case_sensitive_and_rejects_everything_else() {
    // `nULL` is not among the listed spellings.
    for v in ["nULL", "NuLl", "nil", "none", "None", "~~", " ", "n"] {
        assert!(!is_null(v), "{v:?} must not resolve as null");
    }
}

// ---- bool ----

#[test]
fn bool_resolves_the_core_schema_spellings_in_both_versions() {
    for version in [YamlVersion::V1_2, YamlVersion::V1_1] {
        for v in ["true", "True", "TRUE"] {
            assert_eq!(resolve_bool(v, version), Some(true), "{v:?} @ {version:?}");
        }
        for v in ["false", "False", "FALSE"] {
            assert_eq!(resolve_bool(v, version), Some(false), "{v:?} @ {version:?}");
        }
    }
}

#[test]
fn bool_matching_is_case_sensitive() {
    // Three spellings are enumerated; these are not among them.
    for v in ["tRuE", "TrUe", "fAlSe", "FALSe"] {
        assert_eq!(
            resolve_bool(v, YamlVersion::V1_2),
            None,
            "{v:?} is not an enumerated spelling"
        );
        assert_eq!(resolve_bool(v, YamlVersion::V1_1), None, "{v:?} under 1.1");
    }
}

#[test]
fn bool_extended_vocabulary_is_1_1_only() {
    // Unquoted `NO` is false under 1.1 and text under 1.2.
    let truthy = ["y", "Y", "yes", "Yes", "YES", "on", "On", "ON"];
    let falsy = ["n", "N", "no", "No", "NO", "off", "Off", "OFF"];

    for v in truthy {
        assert_eq!(
            resolve_bool(v, YamlVersion::V1_1),
            Some(true),
            "{v:?} @ 1.1"
        );
        assert_eq!(resolve_bool(v, YamlVersion::V1_2), None, "{v:?} @ 1.2");
    }
    for v in falsy {
        assert_eq!(
            resolve_bool(v, YamlVersion::V1_1),
            Some(false),
            "{v:?} @ 1.1"
        );
        assert_eq!(resolve_bool(v, YamlVersion::V1_2), None, "{v:?} @ 1.2");
    }
}

#[test]
fn bool_rejects_non_booleans_in_both_versions() {
    for v in ["", "t", "f", "1", "0", "yep", "ONN", "of"] {
        for version in [YamlVersion::V1_2, YamlVersion::V1_1] {
            assert_eq!(resolve_bool(v, version), None, "{v:?} @ {version:?}");
        }
    }
}

// ---- int ----

#[test]
fn int_resolves_decimal_with_optional_sign() {
    assert_eq!(resolve_int("0"), Some(0));
    assert_eq!(resolve_int("42"), Some(42));
    assert_eq!(resolve_int("+42"), Some(42));
    assert_eq!(resolve_int("-42"), Some(-42));
    assert_eq!(resolve_int("-0"), Some(0));
}

#[test]
fn int_resolves_both_radix_prefixes_in_both_cases() {
    assert_eq!(resolve_int("0x1F"), Some(31));
    assert_eq!(resolve_int("0X1f"), Some(31));
    assert_eq!(resolve_int("-0x1F"), Some(-31));
    assert_eq!(resolve_int("+0x10"), Some(16));

    assert_eq!(resolve_int("0o52"), Some(42));
    assert_eq!(resolve_int("0O52"), Some(42));
    assert_eq!(resolve_int("-0o52"), Some(-42));
}

#[test]
fn int_treats_a_bare_leading_zero_as_decimal_not_octal() {
    // Only the explicit `0o` prefix selects base 8.
    assert_eq!(resolve_int("017"), Some(17));
    assert_eq!(resolve_int("0755"), Some(755));
    assert_eq!(resolve_int("0o17"), Some(15));
}

#[test]
fn int_rejects_malformed_input() {
    for v in [
        "", "+", "-", "0x", "0X", "0o", "0xZZ", "0o99", "1_000", "abc", " 1", "1 ",
    ] {
        assert_eq!(resolve_int(v), None, "{v:?} must not resolve as an integer");
    }
}

#[test]
fn int_rejects_overflow() {
    assert_eq!(resolve_int("9223372036854775808"), None);
    assert_eq!(resolve_int("0xFFFFFFFFFFFFFFFF"), None);
}

// ---- uint ----

#[test]
fn uint_resolves_decimal_and_both_radix_prefixes() {
    assert_eq!(resolve_uint("0"), Some(0));
    assert_eq!(resolve_uint("42"), Some(42));
    assert_eq!(resolve_uint("+42"), Some(42));
    assert_eq!(resolve_uint("0x1F"), Some(31));
    assert_eq!(resolve_uint("0X1f"), Some(31));
    assert_eq!(resolve_uint("0o52"), Some(42));
    assert_eq!(resolve_uint("0O52"), Some(42));
    assert_eq!(resolve_uint("18446744073709551615"), Some(u64::MAX));
}

#[test]
fn uint_refuses_a_leading_minus_outright() {
    // Refused before parsing, so `-0` cannot slip through as zero.
    assert_eq!(resolve_uint("-0"), None);
    assert_eq!(resolve_uint("-1"), None);
    assert_eq!(resolve_uint("-0x1F"), None);
}

#[test]
fn uint_rejects_malformed_input() {
    for v in ["", "+", "-", "0x", "0o", "0xZZ", "1_000", "abc"] {
        assert_eq!(resolve_uint(v), None, "{v:?} must not resolve as unsigned");
    }
}

// ---- float ----

#[test]
fn float_resolves_the_ordinary_productions() {
    assert!((resolve_float("1.5").unwrap() - 1.5).abs() < f64::EPSILON);
    assert!((resolve_float("-1.5").unwrap() + 1.5).abs() < f64::EPSILON);
    assert!((resolve_float("+3.25").unwrap() - 3.25).abs() < f64::EPSILON);
    assert!((resolve_float(".5").unwrap() - 0.5).abs() < f64::EPSILON);
    assert!((resolve_float("1e10").unwrap() - 1e10).abs() < f64::EPSILON);
    assert!((resolve_float("-1.5e-3").unwrap() + 0.0015).abs() < 1e-12);
    assert!(resolve_float("0.0").unwrap().abs() < f64::EPSILON);
}

/// The leading dot is mandatory: bare words are text.
#[test]
fn float_rejects_bare_inf_and_nan_regression_issue_26() {
    for v in [
        "inf",
        "Inf",
        "INF",
        "infinity",
        "Infinity",
        "INFINITY",
        "nan",
        "NaN",
        "NAN",
        "-inf",
        "+inf",
        "-infinity",
    ] {
        assert_eq!(
            resolve_float(v),
            None,
            "{v:?} is a string under YAML 1.2, not a float"
        );
    }
}

/// The dotted forms resolve, in any case.
#[test]
fn float_accepts_the_dotted_inf_and_nan_forms_regression_issue_26() {
    for v in [".inf", "+.inf", ".Inf", ".INF"] {
        assert!(
            resolve_float(v).is_some_and(|f| f.is_infinite() && f.is_sign_positive()),
            "{v:?} must be positive infinity"
        );
    }
    for v in ["-.inf", "-.Inf", "-.INF"] {
        assert!(
            resolve_float(v).is_some_and(|f| f.is_infinite() && f.is_sign_negative()),
            "{v:?} must be negative infinity"
        );
    }
    for v in [".nan", ".NaN", ".NAN"] {
        assert!(
            resolve_float(v).is_some_and(f64::is_nan),
            "{v:?} must be NaN"
        );
    }
}

#[test]
fn float_rejects_malformed_input() {
    for v in ["", "+", "-", ".", "abc", "1_000.5", "1.2.3"] {
        assert_eq!(resolve_float(v), None, "{v:?} must not resolve as a float");
    }
}

// ---- further cases ----

#[test]
fn int_takes_one_sign_only() {
    for v in ["--5", "++5", "-+5", "+-5", "0x-5", "0x+5", "0o-7"] {
        assert_eq!(resolve_int(v), None, "{v:?} has more than one sign");
    }
}

#[test]
fn int_keeps_to_the_magnitudes_it_can_negate() {
    assert_eq!(resolve_int("9223372036854775807"), Some(i64::MAX));
    assert_eq!(resolve_int("-9223372036854775807"), Some(-i64::MAX));
    assert_eq!(resolve_int("-9223372036854775808"), None);
    assert_eq!(resolve_int("0x7FFFFFFFFFFFFFFF"), Some(i64::MAX));
}

#[test]
fn uint_takes_one_plus_only() {
    assert_eq!(resolve_uint("+5"), Some(5));
    assert_eq!(resolve_uint("+0x1F"), Some(31));
    for v in ["++5", "0x+1F", "+0x+1F", "0o+7", "+-5", "0x-5"] {
        assert_eq!(resolve_uint(v), None, "{v:?} has more than one sign");
        assert_eq!(classify_plain(v, YamlVersion::V1_2), Resolved::Str, "{v:?}");
    }
    assert_eq!(resolve_uint("18446744073709551616"), None);
    assert_eq!(resolve_uint("0xFFFFFFFFFFFFFFFF"), Some(u64::MAX));
}

#[test]
fn text_outside_ascii_is_no_number() {
    for v in ["\u{661}", "1\u{661}", "\u{ff11}", "0x\u{e9}", "1.\u{663}"] {
        assert_eq!(resolve_int(v), None, "{v:?}");
        assert_eq!(resolve_uint(v), None, "{v:?}");
        assert_eq!(float_form(v), None, "{v:?}");
    }
}

#[test]
fn float_forms_of_numbers() {
    for v in ["1", "-1", "+1", "1.", ".5", "0.5", "1e5", "1E+5", "1.5e-3", ".5e0", "-.5"] {
        assert_eq!(float_form(v), Some(FloatForm::Number), "{v:?}");
        assert!(v.parse::<f64>().is_ok(), "{v:?}");
    }
    for v in [".", "e5", "1e", "1e+", ".e5", "1.5.", "--1", "1 ", "0x1F", "+", "-."] {
        assert_eq!(float_form(v), None, "{v:?}");
        assert!(v.parse::<f64>().is_err(), "{v:?}");
    }
}

#[test]
fn float_forms_come_in_enumerated_spellings() {
    for v in [".inf", ".Inf", ".INF", "+.inf", "+.Inf", "+.INF"] {
        assert_eq!(float_form(v), Some(FloatForm::Infinity), "{v:?}");
    }
    for v in ["-.inf", "-.Inf", "-.INF"] {
        assert_eq!(float_form(v), Some(FloatForm::NegInfinity), "{v:?}");
    }
    for v in [".nan", ".NaN", ".NAN"] {
        assert_eq!(float_form(v), Some(FloatForm::Nan), "{v:?}");
    }
    for v in [
        ".iNf", ".INf", "-.iNF", "+.inF", ".nAn", ".Nan", ".NAn", "+.nan", "-.nan",
    ] {
        assert_eq!(float_form(v), None, "{v:?} is not an enumerated spelling");
        assert_eq!(classify_plain(v, YamlVersion::V1_2), Resolved::Str, "{v:?}");
    }
}

#[test]
fn classification_asks_in_order() {
    let v = YamlVersion::V1_2;
    assert_eq!(classify_plain("", v), Resolved::Null);
    assert_eq!(classify_plain("true", v), Resolved::Bool(true));
    assert_eq!(classify_plain("12", v), Resolved::I64(12));
    assert_eq!(
        classify_plain("18446744073709551615", v),
        Resolved::U64(u64::MAX)
    );
    assert_eq!(
        classify_plain("18446744073709551616", v),
        Resolved::F64(FloatForm::Number)
    );
    assert_eq!(classify_plain("-.INF", v), Resolved::F64(FloatForm::NegInfinity));
    assert_eq!(classify_plain("yes", v), Resolved::Str);
    assert_eq!(
        classify_plain("yes", YamlVersion::V1_1),
        Resolved::Bool(true)
    );
}

#[test]
fn indices_are_decimal() {
    assert_eq!(resolve_index("0"), Some(0));
    assert_eq!(resolve_index("+1"), Some(1));
    assert_eq!(resolve_index("007"), Some(7));
    for v in ["", "-1", "++1", "0x1", "1.0", "99999999999999999999999"] {
        assert_eq!(resolve_index(v), None, "{v:?}");
    }
}
