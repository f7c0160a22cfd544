//! Field-level behaviour: variant precedence, hexadecimal width and case,
//! float canonicalization, not-a-number signs, strings, and the typed
//! accessors.

use magicq::get_float;
use magicq::Eol;
use magicq::get_hex;
use magicq::get_string;
use magicq::showfile_parser;
use magicq::showfile_writer;
use magicq::SectionIdentifier;
use magicq::Showfile;
use magicq::Value;
use magicq::ValueError;

fn one_field(field_text: &[u8]) -> Value {
    let mut text = b"\\ h\n\nV,".to_vec();
    text.extend_from_slice(field_text);
    text.extend_from_slice(b";\n");
    let m = showfile_parser(&text).expect("field should parse");
    m.sections[0].rows[0].values[0].clone()
}

fn field_out(field_text: &[u8]) -> Vec<u8> {
    let mut text = b"\\ h\n\nV,".to_vec();
    text.extend_from_slice(field_text);
    text.extend_from_slice(b";\n");
    let m = showfile_parser(&text).expect("field should parse");
    let out = showfile_writer(&m);
    out[7..out.len() - 2].to_vec()
}

#[test]
fn hex_width_preserved_and_lowercased() {
    assert_eq!(one_field(b"00FF"), Value::Hex(0x00ff, 4));
    assert_eq!(field_out(b"00FF"), b"00ff".to_vec());
    assert_eq!(field_out(b"0005"), b"0005".to_vec());
    assert_eq!(field_out(b"abCD"), b"abcd".to_vec());
}

#[test]
fn sixteen_digit_hex_is_uppercased() {
    assert_eq!(one_field(b"FFFFFFFFFFFFFFFF"), Value::Hex(u64::MAX, 16));
    assert_eq!(field_out(b"FFFFFFFFFFFFFFFF"), b"FFFFFFFFFFFFFFFF".to_vec());
    assert_eq!(field_out(b"abcdef0123456789"), b"ABCDEF0123456789".to_vec());
}

#[test]
fn digit_runs_are_hex_not_float() {
    assert_eq!(one_field(b"123"), Value::Hex(0x123, 3));
    assert_eq!(one_field(b"0"), Value::Hex(0, 1));
}

#[test]
fn nan_signs_are_preserved() {
    assert_eq!(one_field(b"nan"), Value::Nan(false));
    assert_eq!(one_field(b"-nan"), Value::Nan(true));
    assert_eq!(field_out(b"nan"), b"nan".to_vec());
    assert_eq!(field_out(b"-nan"), b"-nan".to_vec());
}

#[test]
fn floats_render_with_six_decimals() {
    assert_eq!(field_out(b"1.5"), b"1.500000".to_vec());
    assert_eq!(field_out(b"-1.5"), b"-1.500000".to_vec());
    assert_eq!(field_out(b".5"), b"0.500000".to_vec());
    assert_eq!(field_out(b"2.500000"), b"2.500000".to_vec());
    assert_eq!(field_out(b"+0007.25"), b"7.250000".to_vec());
    assert_eq!(field_out(b"-0.0"), b"-0.000000".to_vec());
    // agreement with the platform's fixed-precision rendering
    assert_eq!(field_out(b"1.5"), format!("{:.6}", 1.5f64).into_bytes());
    assert_eq!(field_out(b"0.1"), format!("{:.6}", 0.1f64).into_bytes());
    assert_eq!(field_out(b"-12.0"), format!("{:.6}", -12.0f64).into_bytes());
}

#[test]
fn long_fractions_round_half_away_from_zero() {
    assert_eq!(field_out(b"0.1234564"), b"0.123456".to_vec());
    assert_eq!(field_out(b"0.1234566"), b"0.123457".to_vec());
    assert_eq!(field_out(b"1.9999999"), b"2.000000".to_vec());
    assert_eq!(field_out(b"-9.9999995"), b"-10.000000".to_vec());
}

#[test]
fn digit_runs_beyond_u64_become_floats() {
    // read as hexadecimal this run's value exceeds u64, so the float
    // alternative takes it
    assert_eq!(field_out(b"12345678901234567"), b"12345678901234567.000000".to_vec());
}

#[test]
fn wide_zero_padded_hex_keeps_its_width() {
    // a run longer than sixteen digits is still hexadecimal as long as its
    // value fits u64
    assert_eq!(one_field(b"00000000000000000001"), Value::Hex(1, 20));
    assert_eq!(field_out(b"00000000000000000001"), b"00000000000000000001".to_vec());
    assert_eq!(one_field(b"0000000000000000FFFF"), Value::Hex(0xffff, 20));
    assert_eq!(field_out(b"0000000000000000FFFF"), b"0000000000000000ffff".to_vec());
}

#[test]
fn strings_keep_escapes_verbatim() {
    assert_eq!(one_field(b"\"a\\\"b\""), Value::Str(b"a\\\"b".to_vec()));
    assert_eq!(field_out(b"\"a\\\"b\""), b"\"a\\\"b\"".to_vec());
    assert_eq!(one_field(b"\"\""), Value::Str(Vec::new()));
    assert_eq!(field_out(b"\"\""), b"\"\"".to_vec());
}

#[test]
fn typed_accessors_check_variant_and_width() {
    let v = Value::Hex(7, 4);
    assert_eq!(get_hex(&v, 4), Ok(7));
    assert_eq!(get_hex(&v, 8), Err(ValueError::WrongWidth { actual: 4, expected: 8 }));
    assert_eq!(get_hex(&Value::Nan(false), 4), Err(ValueError::NotHex));
    let s = Value::Str(b"abc".to_vec());
    assert_eq!(get_string(&s), Ok(&b"abc".to_vec()));
    assert_eq!(get_string(&v), Err(ValueError::NotString));
}

#[test]
fn float_accessor_checks_variant() {
    let f = match one_field(b"1.5") {
        Value::Float(f) => f,
        other => panic!("expected a float, got {:?}", other),
    };
    assert!(!f.neg);
    assert_eq!(f.int_digits, b"1".to_vec());
    assert_eq!(f.frac_digits, b"500000".to_vec());
    let v = Value::Float(f.clone());
    assert_eq!(get_float(&v), Ok(&f));
    assert_eq!(get_float(&Value::Nan(false)), Err(ValueError::NotFloat));
    assert_eq!(get_float(&Value::Hex(1, 1)), Err(ValueError::NotFloat));
}

#[test]
fn default_row_is_empty() {
    let r = magicq::Row::default();
    assert_eq!(r.get_values().len(), 0);
    assert!(!r.has_trailing_comma());
    assert_eq!(r.get_trailing_newlines(), 0);
}

#[test]
fn code_table_round_trips() {
    let codes: [&[u8]; 11] = [b"V", b"T", b"P", b"L", b"F", b"G", b"W", b"S", b"C", b"M", b"N"];
    for code in codes {
        let id = SectionIdentifier::from_code(code);
        assert!(!matches!(id, SectionIdentifier::Unknown(_)));
        assert_eq!(id.to_code(), code.to_vec());
    }
    assert_eq!(SectionIdentifier::from_code(b"V"), SectionIdentifier::Version);
    assert_eq!(SectionIdentifier::from_code(b"T"), SectionIdentifier::Settings);
    assert_eq!(SectionIdentifier::from_code(b"Q"), SectionIdentifier::Unknown(b"Q".to_vec()));
    assert_eq!(SectionIdentifier::from_code(b"E1"), SectionIdentifier::Unknown(b"E1".to_vec()));
    assert_eq!(SectionIdentifier::Unknown(b"E1".to_vec()).to_code(), b"E1".to_vec());
}

#[test]
fn getters_expose_the_model() {
    let text = b"\\ head\n\nC,1,2;\n";
    let m: Showfile = showfile_parser(text).unwrap();
    assert_eq!(m.get_headers().len(), 1);
    assert_eq!(m.get_headers()[0].0, b"head".to_vec());
    assert_eq!(m.get_sections().len(), 1);
    let sec = &m.get_sections()[0];
    assert_eq!(sec.get_rows().len(), 1);
    let row = &sec.get_rows()[0];
    assert_eq!(row.get_values().len(), 2);
    assert_eq!(row.get_values()[1], Value::Hex(2, 1));
}

#[test]
fn positional_parsers_report_consumed_extent() {
    let text = b"\\ h\nV,\"a\",00ff;\nW,1;\n";
    // one field, starting after the section code and comma
    let (v, comma, end) = magicq::parse_value(text, 6, Eol::Lf).unwrap();
    assert_eq!(v, Value::Str(b"a".to_vec()));
    assert!(comma);
    assert_eq!(end, 10);
    // one row: both fields and the lookahead of the terminator
    let (row, rend) = magicq::parse_row(text, 6, Eol::Lf).unwrap();
    assert_eq!(row.get_values().len(), 2);
    assert_eq!(rend, 14);
    // one section, with its trailing line break
    let (sec, send) = magicq::parse_section(text, 4, Eol::Lf).unwrap();
    assert_eq!(*sec.get_identifier(), SectionIdentifier::Version);
    assert_eq!(send, 16);
    // a section code is not itself a field, and a field does not open a
    // section
    assert!(magicq::parse_value(text, 4, Eol::Lf).is_err());
    assert!(magicq::parse_section(text, 6, Eol::Lf).is_err());
}
