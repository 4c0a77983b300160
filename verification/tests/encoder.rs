use idhash::config::IdHashConfigBuilder;
use idhash::unf_vector::{canon_string, encode_cell, UNFVector};
use idhash::value::{Column, ColumnType, FloatRepr, Value};

fn float_value(x: f64) -> Value {
    let rendered = format!("{:e}", x);
    Value::Float(FloatRepr::parse_scientific(&rendered).expect("float rendering should parse"))
}

#[test]
fn null_encodes_to_fixed_sentinel() {
    // A null cell gives the same canonical string whatever the column
    // type is, never a type-specific default.
    let col = Column { cells: vec![Value::Null] };
    for ty in [
        ColumnType::Boolean,
        ColumnType::Int,
        ColumnType::UInt,
        ColumnType::Float,
        ColumnType::Text,
        ColumnType::Timestamp,
    ] {
        assert!(col.conforms(ty));
    }
    let strings = col.to_unf(7);
    assert_eq!(strings, vec!["null".to_string()]);
    let raw = col.raw(128, 7);
    assert_eq!(raw, vec![b"null\n\x00".to_vec()]);
}

#[test]
fn booleans_encode_to_literal_pair() {
    let col = Column { cells: vec![Value::Bool(true), Value::Bool(false), Value::Null] };
    let strings = col.to_unf(7);
    assert_eq!(strings, vec!["true".to_string(), "false".to_string(), "null".to_string()]);
}

#[test]
fn integers_encode_to_exact_decimal() {
    let col = Column {
        cells: vec![
            Value::Int(0),
            Value::Int(-42),
            Value::Int(i64::MIN),
            Value::Int(i64::MAX),
            Value::UInt(u64::MAX),
        ],
    };
    let strings = col.to_unf(7);
    assert_eq!(
        strings,
        vec![
            "0".to_string(),
            "-42".to_string(),
            "-9223372036854775808".to_string(),
            "9223372036854775807".to_string(),
            "18446744073709551615".to_string(),
        ]
    );
}

#[test]
fn text_passes_through_unescaped() {
    let col = Column {
        cells: vec![Value::Text("hello \"world\"".to_string()), Value::Text(String::new())],
    };
    let strings = col.to_unf(7);
    assert_eq!(strings, vec!["hello \"world\"".to_string(), "".to_string()]);
    let raw = col.raw(128, 7);
    assert_eq!(raw[1], b"\n\x00".to_vec());
}

#[test]
fn truncation_keeps_prefix_then_sentinel() {
    let col = Column { cells: vec![Value::Text("abcd".to_string())] };
    let raw = col.raw(2, 7);
    assert_eq!(raw, vec![b"ab\n\x00".to_vec()]);
}

#[test]
fn multibyte_character_encodes_as_low_byte() {
    // One byte per kept character: a character beyond ASCII keeps only
    // its low byte.
    let col = Column { cells: vec![Value::Text("\u{e9}".to_string())] };
    let raw = col.raw(128, 7);
    assert_eq!(raw, vec![vec![0xe9, b'\n', 0x00]]);
}

#[test]
fn float_two_significant_figures() {
    // 20.0 at two significant figures: one mantissa digit, the decimal
    // point, one more digit, and the signed exponent.
    let v = float_value(20.0);
    let config = IdHashConfigBuilder::new().digits(2).build();
    let first = canon_string(&v, config.digits);
    let second = canon_string(&v, config.digits);
    assert_eq!(first, "+2.0e+1");
    assert_eq!(first, second);
}

#[test]
fn float_rounds_half_away_from_zero() {
    assert_eq!(canon_string(&float_value(234.7), 3), "+2.35e+2");
    assert_eq!(canon_string(&float_value(-234.7), 3), "-2.35e+2");
    assert_eq!(canon_string(&float_value(0.015), 7), "+1.500000e-2");
}

#[test]
fn float_rounding_carry_bumps_exponent() {
    assert_eq!(canon_string(&float_value(99.6), 2), "+1.0e+2");
    assert_eq!(canon_string(&float_value(999.9), 1), "+1e+3");
}

#[test]
fn float_zero_encodes_canonically() {
    assert_eq!(canon_string(&float_value(0.0), 3), "+0.00e+0");
}

#[test]
fn float_reencoding_is_idempotent() {
    // Encoding an already-rounded value at the same digit count gives
    // the same canonical string back.
    let first = canon_string(&float_value(234.7), 3);
    let reparsed = Value::Float(
        FloatRepr::parse_scientific(&first).expect("canonical form should parse"),
    );
    let second = canon_string(&reparsed, 3);
    assert_eq!(first, second);

    let first = canon_string(&float_value(20.0), 2);
    let reparsed = Value::Float(
        FloatRepr::parse_scientific(&first).expect("canonical form should parse"),
    );
    assert_eq!(canon_string(&reparsed, 2), first);
}

#[test]
fn parse_scientific_accepts_float_renderings() {
    let f = FloatRepr::parse_scientific("2e1").unwrap();
    assert!(!f.neg);
    assert_eq!(f.mantissa, vec![2]);
    assert_eq!(f.exp, 1);

    let f = FloatRepr::parse_scientific("-2.5e-3").unwrap();
    assert!(f.neg);
    assert_eq!(f.mantissa, vec![2, 5]);
    assert_eq!(f.exp, -3);

    let f = FloatRepr::parse_scientific("0e0").unwrap();
    assert!(!f.neg);
    assert_eq!(f.mantissa, Vec::<u8>::new());
    assert_eq!(f.exp, 0);

    let f = FloatRepr::parse_scientific("-0.0e5").unwrap();
    assert!(!f.neg);
    assert_eq!(f.mantissa, Vec::<u8>::new());
    assert_eq!(f.exp, 0);
}

#[test]
fn parse_scientific_rejects_other_shapes() {
    assert!(FloatRepr::parse_scientific("").is_none());
    assert!(FloatRepr::parse_scientific("1.5").is_none());
    assert!(FloatRepr::parse_scientific("12e1").is_none());
    assert!(FloatRepr::parse_scientific("e1").is_none());
    assert!(FloatRepr::parse_scientific("1e").is_none());
    assert!(FloatRepr::parse_scientific("1e+").is_none());
    assert!(FloatRepr::parse_scientific("1e5x").is_none());
    assert!(FloatRepr::parse_scientific("0.5e0").is_none());
    assert!(FloatRepr::parse_scientific("1e99999").is_none());
}

#[test]
fn encode_cell_appends_sentinel_after_truncation() {
    let v = Value::UInt(1234567890123456);
    let b = encode_cell(&v, 12, 7);
    assert_eq!(b, b"123456789012\n\x00".to_vec());
    let b = encode_cell(&v, 128, 7);
    assert_eq!(b, b"1234567890123456\n\x00".to_vec());
}

#[test]
fn float_reencoding_is_idempotent_without_fraction() {
    // One significant figure: no decimal point in the canonical form.
    let first = canon_string(&float_value(999.9), 1);
    assert_eq!(first, "+1e+3");
    let reparsed = Value::Float(
        FloatRepr::parse_scientific(&first).expect("canonical form should parse"),
    );
    assert_eq!(canon_string(&reparsed, 1), first);
}

#[test]
fn tiny_character_limit_cuts_into_the_sentinel_string() {
    // A character limit below the null sentinel's length truncates it
    // like any other canonical string.
    let col = Column { cells: vec![Value::Null] };
    let raw = col.raw(2, 7);
    assert_eq!(raw, vec![b"nu\n\x00".to_vec()]);
}
