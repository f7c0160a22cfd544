//! Inputs the grammar rejects, with their rule traces and offsets.

use magicq::showfile_parser;
use magicq::ParseRule;

#[test]
fn empty_input_is_rejected() {
    assert!(showfile_parser(b"").is_err());
}

#[test]
fn missing_header_is_rejected() {
    assert!(showfile_parser(b"V,1;\n").is_err());
}

#[test]
fn header_without_line_break_is_rejected() {
    assert!(showfile_parser(b"\\ only a header").is_err());
}

#[test]
fn missing_header_body_separator_is_rejected() {
    // the headers must be followed by at least one blank line
    let e = showfile_parser(b"\\ h\nV,1;\n").unwrap_err();
    assert_eq!(e.offset, 4);
    assert_eq!(e.trace, vec![ParseRule::Showfile]);
}

#[test]
fn section_without_comma_is_rejected() {
    let e = showfile_parser(b"\\ h\n\nV;\n").unwrap_err();
    assert!(e.trace.contains(&ParseRule::Section));
    assert!(e.trace.contains(&ParseRule::Showfile));
}

#[test]
fn section_without_rows_is_rejected() {
    let e = showfile_parser(b"\\ h\n\nV,;\n").unwrap_err();
    assert!(e.trace.contains(&ParseRule::Field));
    assert!(e.trace.contains(&ParseRule::Row));
    assert_eq!(e.offset, 7);
}

#[test]
fn missing_terminator_is_rejected() {
    assert!(showfile_parser(b"\\ h\n\nV,1\n").is_err());
}

#[test]
fn unparseable_field_is_rejected() {
    let e = showfile_parser(b"\\ h\n\nV,@;\n").unwrap_err();
    assert_eq!(e.offset, 7);
    assert!(e.trace.contains(&ParseRule::Field));
}

#[test]
fn unterminated_string_is_rejected() {
    assert!(showfile_parser(b"\\ h\n\nV,\"abc;\n").is_err());
}

#[test]
fn mixed_line_endings_are_rejected() {
    // the first break fixes the style for the whole document
    assert!(showfile_parser(b"\\ h\r\nV,1;\n").is_err());
    assert!(showfile_parser(b"\\ h\n\nV,1;\r\n").is_err());
}

#[test]
fn lone_carriage_return_is_rejected() {
    assert!(showfile_parser(b"\\ h\rV,1;\r").is_err());
}

#[test]
fn digits_with_trailing_junk_are_rejected() {
    assert!(showfile_parser(b"\\ h\n\nV,129xyz;\n").is_err());
}

#[test]
fn float_without_digits_is_rejected() {
    assert!(showfile_parser(b"\\ h\n\nV,-.;\n").is_err());
    assert!(showfile_parser(b"\\ h\n\nV,-;\n").is_err());
}

#[test]
fn traces_run_from_the_innermost_rule_outward() {
    let e = showfile_parser(b"\\ h\n\nV,@;\n").unwrap_err();
    // the field rule fails first, inside the row, the section, the document
    assert_eq!(
        e.trace,
        vec![ParseRule::Field, ParseRule::Row, ParseRule::Section, ParseRule::Showfile],
    );
}

#[test]
fn exponent_notation_is_not_a_field() {
    // a float field is sign, digits, dot, digits; exponent forms are not
    // part of the format
    assert!(showfile_parser(b"\\ h\n\nV,1.5e3;\n").is_err());
    assert!(showfile_parser(b"\\ h\n\nV,-2.0E1;\n").is_err());
}

#[test]
fn infinity_tokens_are_not_fields() {
    assert!(showfile_parser(b"\\ h\n\nV,inf;\n").is_err());
    assert!(showfile_parser(b"\\ h\n\nV,-inf;\n").is_err());
}

#[test]
fn errors_locate_the_failing_construct() {
    // the row's fields end after "1," (the lone "2" has no delimiter, so it
    // is no field): offset 9, inside row, section and document
    let e = showfile_parser(b"\\ h\n\nV,1,2").unwrap_err();
    assert_eq!(e.offset, 9);
    assert_eq!(e.trace, vec![ParseRule::Row, ParseRule::Section, ParseRule::Showfile]);
    // the second section's code carries no comma: the failure points at its
    // start
    let e2 = showfile_parser(b"\\ h\n\nV,1;\nW\n").unwrap_err();
    assert_eq!(e2.offset, 10);
    assert_eq!(
        e2.trace,
        vec![ParseRule::Identifier, ParseRule::Section, ParseRule::Showfile],
    );
    // a section whose rows never reach a terminator
    let e3 = showfile_parser(b"\\ h\n\nV,1\n").unwrap_err();
    assert_eq!(e3.offset, 9);
    assert_eq!(e3.trace, vec![ParseRule::Section, ParseRule::Showfile]);
}
