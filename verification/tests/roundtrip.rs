//! Round-trip scenarios: byte-for-byte fidelity of parse-then-serialize.

use magicq::showfile_parser;
use magicq::showfile_writer;
use magicq::Eol;
use magicq::SectionIdentifier;
use magicq::Showfile;
use magicq::Value;

fn parse_ok(text: &[u8]) -> Showfile {
    match showfile_parser(text) {
        Ok(m) => m,
        Err(e) => panic!("parse failed at offset {} with trace {:?}", e.offset, e.trace),
    }
}

fn round_trips(text: &[u8]) {
    let m = parse_ok(text);
    let out = showfile_writer(&m);
    assert_eq!(out, text.to_vec());
}

#[test]
fn end_to_end_scenario() {
    let text = b"\\ MyShow\n\nV,\"MagicQ 1\",01090307,0002,0003;\n";
    let m = parse_ok(text);
    assert_eq!(m.headers.len(), 1);
    assert_eq!(m.headers[0].0, b"MyShow".to_vec());
    assert_eq!(m.header_gap, 1);
    assert_eq!(m.eol, Eol::Lf);
    assert_eq!(m.sections.len(), 1);
    let sec = &m.sections[0];
    assert_eq!(*sec.get_identifier(), SectionIdentifier::Version);
    assert_eq!(sec.rows.len(), 1);
    let row = &sec.rows[0];
    assert_eq!(row.values.len(), 4);
    assert_eq!(row.values[0], Value::Str(b"MagicQ 1".to_vec()));
    assert_eq!(row.values[1], Value::Hex(0x01090307, 8));
    assert_eq!(row.values[2], Value::Hex(2, 4));
    assert_eq!(row.values[3], Value::Hex(3, 4));
    assert!(!row.trailing_comma);
    assert_eq!(showfile_writer(&m), text.to_vec());
}

#[test]
fn round_trip_larger_file() {
    let text = b"\\ MyShow\n\\ second header\n\nV,\"MagicQ 1\",01090307,0002,0003;\nL,1,2.500000,;\n\nZ,\"x\",nan,-nan;\nC,00ff,FFFFFFFFFFFFFFFF;\n";
    round_trips(text);
}

#[test]
fn round_trip_crlf() {
    let text = b"\\ MyShow\r\n\r\nV,\"a\",0001;\r\nT,2;\r\n";
    let m = parse_ok(text);
    assert_eq!(m.eol, Eol::CrLf);
    assert_eq!(showfile_writer(&m), text.to_vec());
}

#[test]
fn idempotent_reparse() {
    let text = b"\\ h\n\nV,\"a\",1.5,00FF,;\nW,nan;\n";
    let m1 = parse_ok(text);
    let out = showfile_writer(&m1);
    let m2 = parse_ok(&out);
    assert_eq!(m1, m2);
    // and the second serialization is a fixed point
    assert_eq!(showfile_writer(&m2), out);
}

#[test]
fn trailing_comma_fidelity() {
    let with_comma = b"\\ h\n\nV,\"A\",1,;\n";
    let without_comma = b"\\ h\n\nV,\"A\",1;\n";
    let m1 = parse_ok(with_comma);
    let m2 = parse_ok(without_comma);
    let r1 = &m1.sections[0].rows[0];
    let r2 = &m2.sections[0].rows[0];
    assert!(r1.has_trailing_comma());
    assert!(!r2.has_trailing_comma());
    assert_eq!(r1.values, r2.values);
    assert_eq!(r1.get_trailing_newlines(), r2.get_trailing_newlines());
    round_trips(with_comma);
    round_trips(without_comma);
}

#[test]
fn blank_lines_between_sections_are_kept() {
    let text = b"\\ h\n\nA1,1;\n\nB2,2;\n";
    let m = parse_ok(text);
    assert_eq!(m.sections[0].get_trailing_newlines(), 2);
    assert_eq!(m.sections[1].get_trailing_newlines(), 1);
    round_trips(text);
}

#[test]
fn blank_lines_between_rows_are_kept() {
    let text = b"\\ h\n\nV,1\n\n\n2;\n";
    let m = parse_ok(text);
    let sec = &m.sections[0];
    assert_eq!(sec.rows.len(), 2);
    assert_eq!(sec.rows[0].get_trailing_newlines(), 3);
    assert_eq!(sec.rows[1].get_trailing_newlines(), 0);
    round_trips(text);
}

#[test]
fn header_body_gap_is_kept() {
    // one blank line and two: each must reproduce exactly
    round_trips(b"\\ h\n\nV,1;\n");
    round_trips(b"\\ h\n\n\nV,1;\n");
    let m = parse_ok(b"\\ h\n\n\nV,1;\n");
    assert_eq!(m.get_header_gap(), 2);
}

#[test]
fn unknown_section_codes_round_trip() {
    let text = b"\\ h\n\nZ,1;\nE1,\"x\";\n";
    let m = parse_ok(text);
    assert_eq!(*m.sections[0].get_identifier(), SectionIdentifier::Unknown(b"Z".to_vec()));
    assert_eq!(*m.sections[1].get_identifier(), SectionIdentifier::Unknown(b"E1".to_vec()));
    round_trips(text);
}

#[test]
fn file_without_final_newline_round_trips() {
    let text = b"\\ h\n\nV,1;";
    let m = parse_ok(text);
    assert_eq!(m.sections[0].get_trailing_newlines(), 0);
    round_trips(text);
}

#[test]
fn crlf_blank_lines_and_commas_round_trip() {
    let text = b"\\ h\r\n\r\n\r\nV,1,\r\n2;\r\n\r\nZ9,\"x\",;\r\n";
    let m = parse_ok(text);
    assert_eq!(m.get_header_gap(), 2);
    assert_eq!(showfile_writer(&m), text.to_vec());
}

#[test]
fn string_content_may_span_lines() {
    // a quoted field consumes everything up to its closing quote, line
    // breaks included
    let text = b"\\ h\n\nV,\"a\nb\";\n";
    let m = parse_ok(text);
    assert_eq!(m.sections[0].rows[0].values[0], Value::Str(b"a\nb".to_vec()));
    round_trips(text);
}

#[test]
fn escaped_bytes_pass_through() {
    let text = b"\\ h\n\nV,\"a\\;b\\\\,c\";\n";
    round_trips(text);
}

#[test]
fn hand_built_model_round_trips() {
    let row = magicq::Row::new(vec![Value::Hex(5, 4), Value::Str(b"cue".to_vec())], true, 0);
    let sec = magicq::Section::new(SectionIdentifier::CueStack, vec![row], 1);
    let header = magicq::Header::new(b"built by hand");
    let m = Showfile::new(vec![header], 1, Eol::Lf, vec![sec]);
    let out = m.serialize();
    assert_eq!(out, b"\\ built by hand\n\nC,0005,\"cue\",;\n".to_vec());
    let back = parse_ok(&out);
    assert_eq!(back, m);
}
