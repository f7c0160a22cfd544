//! The grammar of the format, as a specification-level recursive-descent
//! parser over the raw bytes. The executable parser is proved to return
//! exactly what these functions describe, and the round-trip laws relate
//! them to the serializer.

use vstd::prelude::*;

use crate::digits::{
    hex_digit_val, is_alnum, is_digit, is_hex_digit, norm_int_digits, pad_to_6, inc_digits,
    B_BACKSLASH, B_COMMA, B_CR, B_DOT, B_FIVE, B_LF, B_LOWER_A, B_LOWER_N, B_MINUS, B_PLUS,
    B_QUOTE, B_SEMI, B_SPACE,
};
use crate::model::{
    eol_bytes, spec_id_of_code, Eol, FloatLitView, ParseRule, RowView, SectionView, ShowfileView,
    ValueView,
};

verus! {

// ---------------------------------------------------------------------------
// Scanners: maximal runs of a byte class.
// ---------------------------------------------------------------------------

/// End of the maximal run of hexadecimal digits starting at `i`.
pub open spec fn hex_run_end(s: Seq<u8>, i: int) -> int
    decreases s.len() - i,
{
    if 0 <= i < s.len() && is_hex_digit(s[i]) {
        hex_run_end(s, i + 1)
    } else {
        i
    }
}

/// End of the maximal run of decimal digits starting at `i`.
pub open spec fn digit_run_end(s: Seq<u8>, i: int) -> int
    decreases s.len() - i,
{
    if 0 <= i < s.len() && is_digit(s[i]) {
        digit_run_end(s, i + 1)
    } else {
        i
    }
}

/// End of the maximal run of alphanumeric bytes starting at `i`.
pub open spec fn alnum_run_end(s: Seq<u8>, i: int) -> int
    decreases s.len() - i,
{
    if 0 <= i < s.len() && is_alnum(s[i]) {
        alnum_run_end(s, i + 1)
    } else {
        i
    }
}

/// End of the maximal run of bytes that are no line break, as in header
/// text.
pub open spec fn text_run_end(s: Seq<u8>, i: int) -> int
    decreases s.len() - i,
{
    if 0 <= i < s.len() && s[i] != B_CR && s[i] != B_LF {
        text_run_end(s, i + 1)
    } else {
        i
    }
}

/// The numeric value of the hexadecimal digits `s[i..j]`.
pub open spec fn hex_run_val(s: Seq<u8>, i: int, j: int) -> nat
    decreases j - i,
{
    if i >= j {
        0
    } else {
        (hex_run_val(s, i, j - 1) * 16 + hex_digit_val(s[j - 1])) as nat
    }
}

/// Whether the document's line-break sequence stands at `i`.
pub open spec fn at_eol(s: Seq<u8>, i: int, eol: Eol) -> bool {
    match eol {
        Eol::Lf => 0 <= i < s.len() && s[i] == B_LF,
        Eol::CrLf => 0 <= i && i + 2 <= s.len() && s[i] == B_CR && s[i + 1] == B_LF,
    }
}

/// Count and end of the run of line breaks starting at `i`.
pub open spec fn eol_run(s: Seq<u8>, i: int, eol: Eol) -> (nat, int)
    decreases s.len() - i,
{
    if at_eol(s, i, eol) {
        let (n, j) = eol_run(s, i + eol_bytes(eol).len(), eol);
        ((n + 1) as nat, j)
    } else {
        (0 as nat, i)
    }
}

// ---------------------------------------------------------------------------
// Fields.
// ---------------------------------------------------------------------------

/// What ends a field: a comma (consumed), or a lookahead of the section
/// terminator or of a line break (not consumed). The flag says whether the
/// comma was there.
pub open spec fn spec_delim(s: Seq<u8>, i: int, eol: Eol) -> Option<(bool, int)> {
    if 0 <= i < s.len() && s[i] == B_COMMA {
        Some((true, i + 1))
    } else if 0 <= i < s.len() && s[i] == B_SEMI {
        Some((false, i))
    } else if at_eol(s, i, eol) {
        Some((false, i))
    } else {
        None
    }
}

/// Position of the closing quote of string content starting at `i`, with a
/// backslash escaping the byte after it.
pub open spec fn str_content_end(s: Seq<u8>, i: int) -> Option<int>
    decreases s.len() - i,
{
    if !(0 <= i < s.len()) {
        None
    } else if s[i] == B_QUOTE {
        Some(i)
    } else if s[i] == B_BACKSLASH {
        if i + 2 <= s.len() {
            str_content_end(s, i + 2)
        } else {
            None
        }
    } else {
        str_content_end(s, i + 1)
    }
}

pub open spec fn spec_parse_string(s: Seq<u8>, i: int, eol: Eol) -> Option<(ValueView, bool, int)> {
    if 0 <= i < s.len() && s[i] == B_QUOTE {
        match str_content_end(s, i + 1) {
            Some(j) => match spec_delim(s, j + 1, eol) {
                Some((c, k)) => Some((ValueView::Str(s.subrange(i + 1, j)), c, k)),
                None => None,
            },
            None => None,
        }
    } else {
        None
    }
}

/// A run of one or more hexadecimal digits whose value fits a `u64`; the
/// width of the run is part of the value. A longer run of zeros is as good
/// as a short one: only the value bounds the width.
pub open spec fn spec_parse_hex(s: Seq<u8>, i: int, eol: Eol) -> Option<(ValueView, bool, int)> {
    let j = hex_run_end(s, i);
    if j - i >= 1 && hex_run_val(s, i, j) < 0x1_0000_0000_0000_0000 {
        match spec_delim(s, j, eol) {
            Some((c, k)) => Some(
                (ValueView::Hex(hex_run_val(s, i, j) as u64, (j - i) as nat), c, k),
            ),
            None => None,
        }
    } else {
        None
    }
}

/// The canonical float a parsed literal stands for: integer digits
/// normalized, fraction digits padded with zeros to six, or rounded to six
/// (half away from zero) when the literal carried more.
pub open spec fn canon_float(neg: bool, ints: Seq<u8>, fracs: Seq<u8>) -> FloatLitView {
    let ip = norm_int_digits(ints);
    if fracs.len() <= 6 {
        FloatLitView { neg, int_digits: ip, frac_digits: pad_to_6(fracs) }
    } else {
        let keep = fracs.subrange(0, 6);
        if fracs[6] >= B_FIVE {
            let all = inc_digits(ip + keep);
            FloatLitView {
                neg,
                int_digits: all.subrange(0, all.len() - 6),
                frac_digits: all.subrange(all.len() - 6, all.len() as int),
            }
        } else {
            FloatLitView { neg, int_digits: ip, frac_digits: keep }
        }
    }
}

/// The literal token for not-a-number stands at `i`.
pub open spec fn starts_nan(s: Seq<u8>, i: int) -> bool {
    0 <= i && i + 3 <= s.len() && s[i] == B_LOWER_N && s[i + 1] == B_LOWER_A && s[i + 2]
        == B_LOWER_N
}

/// A float field: the not-a-number tokens, or an optionally signed decimal
/// literal with optional fraction part, canonicalized to six fraction
/// digits. Exponent and infinity forms are no part of the format: neither
/// could be written back faithfully at a fixed six decimals.
pub open spec fn spec_parse_float(s: Seq<u8>, i: int, eol: Eol) -> Option<(ValueView, bool, int)> {
    if starts_nan(s, i) {
        match spec_delim(s, i + 3, eol) {
            Some((c, k)) => Some((ValueView::Nan(false), c, k)),
            None => None,
        }
    } else if 0 <= i < s.len() && s[i] == B_MINUS && starts_nan(s, i + 1) {
        match spec_delim(s, i + 4, eol) {
            Some((c, k)) => Some((ValueView::Nan(true), c, k)),
            None => None,
        }
    } else if 0 <= i < s.len() {
        let neg = s[i] == B_MINUS;
        let i1 = if s[i] == B_MINUS || s[i] == B_PLUS {
            i + 1
        } else {
            i
        };
        let j1 = digit_run_end(s, i1);
        if j1 > i1 {
            if j1 < s.len() && s[j1] == B_DOT {
                let j2 = digit_run_end(s, j1 + 1);
                match spec_delim(s, j2, eol) {
                    Some((c, k)) => Some(
                        (
                            ValueView::Float(
                                canon_float(neg, s.subrange(i1, j1), s.subrange(j1 + 1, j2)),
                            ),
                            c,
                            k,
                        ),
                    ),
                    None => None,
                }
            } else {
                match spec_delim(s, j1, eol) {
                    Some((c, k)) => Some(
                        (
                            ValueView::Float(
                                canon_float(neg, s.subrange(i1, j1), Seq::<u8>::empty()),
                            ),
                            c,
                            k,
                        ),
                    ),
                    None => None,
                }
            }
        } else if i1 < s.len() && s[i1] == B_DOT {
            let j2 = digit_run_end(s, i1 + 1);
            if j2 > i1 + 1 {
                match spec_delim(s, j2, eol) {
                    Some((c, k)) => Some(
                        (
                            ValueView::Float(
                                canon_float(neg, Seq::<u8>::empty(), s.subrange(i1 + 1, j2)),
                            ),
                            c,
                            k,
                        ),
                    ),
                    None => None,
                }
            } else {
                None
            }
        } else {
            None
        }
    } else {
        None
    }
}

/// One field, by the fixed alternative order: string, then hexadecimal,
/// then float.
pub open spec fn spec_parse_field(s: Seq<u8>, i: int, eol: Eol) -> Option<(ValueView, bool, int)> {
    match spec_parse_string(s, i, eol) {
        Some(r) => Some(r),
        None => match spec_parse_hex(s, i, eol) {
            Some(r) => Some(r),
            None => spec_parse_float(s, i, eol),
        },
    }
}

// ---------------------------------------------------------------------------
// Rows.
// ---------------------------------------------------------------------------

/// One or more fields; a consumed comma continues the run, and the run also
/// ends where no further field parses (the trailing-comma case). The flag
/// is the last field's comma flag.
pub open spec fn spec_parse_fields(s: Seq<u8>, i: int, eol: Eol) -> Option<
    (Seq<ValueView>, bool, int),
>
    decreases s.len() - i,
{
    match spec_parse_field(s, i, eol) {
        None => None,
        Some((v, c, j)) => {
            if !c {
                Some((seq![v], false, j))
            } else if i < j <= s.len() {
                match spec_parse_fields(s, j, eol) {
                    None => Some((seq![v], true, j)),
                    Some((vs, c2, k)) => Some((seq![v] + vs, c2, k)),
                }
            } else {
                None
            }
        },
    }
}

/// A row: its fields, then either a run of line breaks (counted) or a
/// lookahead of the section terminator.
pub open spec fn spec_parse_row(s: Seq<u8>, i: int, eol: Eol) -> Option<(RowView, int)> {
    match spec_parse_fields(s, i, eol) {
        None => None,
        Some((vs, c, j)) => {
            let (n, k) = eol_run(s, j, eol);
            if n >= 1 {
                Some((RowView { values: vs, trailing_comma: c, trailing_newlines: n }, k))
            } else if 0 <= j < s.len() && s[j] == B_SEMI {
                Some((RowView { values: vs, trailing_comma: c, trailing_newlines: 0 }, j))
            } else {
                None
            }
        },
    }
}

/// One or more rows, as many as parse.
pub open spec fn spec_parse_rows(s: Seq<u8>, i: int, eol: Eol) -> Option<(Seq<RowView>, int)>
    decreases s.len() - i,
{
    match spec_parse_row(s, i, eol) {
        None => None,
        Some((r, j)) => {
            if i < j <= s.len() {
                match spec_parse_rows(s, j, eol) {
                    None => Some((seq![r], j)),
                    Some((rs, k)) => Some((seq![r] + rs, k)),
                }
            } else {
                None
            }
        },
    }
}

// ---------------------------------------------------------------------------
// Sections.
// ---------------------------------------------------------------------------

/// A section: an alphanumeric code, a comma, one or more rows, the
/// terminator, then a counted run of line breaks.
pub open spec fn spec_parse_section(s: Seq<u8>, i: int, eol: Eol) -> Option<(SectionView, int)> {
    let j = alnum_run_end(s, i);
    if j > i && j < s.len() && s[j] == B_COMMA {
        match spec_parse_rows(s, j + 1, eol) {
            None => None,
            Some((rs, k)) => {
                if 0 <= k < s.len() && s[k] == B_SEMI {
                    let (n, m) = eol_run(s, k + 1, eol);
                    Some(
                        (
                            SectionView {
                                identifier: spec_id_of_code(s.subrange(i, j)),
                                rows: rs,
                                trailing_newlines: n,
                            },
                            m,
                        ),
                    )
                } else {
                    None
                }
            },
        }
    } else {
        None
    }
}

/// Sections repeatedly, until the end of the input.
pub open spec fn spec_parse_sections(s: Seq<u8>, i: int, eol: Eol) -> Option<
    (Seq<SectionView>, int),
>
    decreases s.len() - i,
{
    if i >= s.len() {
        Some((Seq::<SectionView>::empty(), i))
    } else {
        match spec_parse_section(s, i, eol) {
            None => None,
            Some((sec, j)) => {
                if i < j <= s.len() {
                    match spec_parse_sections(s, j, eol) {
                        None => None,
                        Some((ss, k)) => Some((seq![sec] + ss, k)),
                    }
                } else {
                    None
                }
            },
        }
    }
}

// ---------------------------------------------------------------------------
// Headers and the document.
// ---------------------------------------------------------------------------

/// A header line: the two-byte marker, free text, one line break.
pub open spec fn spec_parse_header(s: Seq<u8>, i: int, eol: Eol) -> Option<(Seq<u8>, int)> {
    if 0 <= i && i + 2 <= s.len() && s[i] == B_BACKSLASH && s[i + 1] == B_SPACE {
        let j = text_run_end(s, i + 2);
        if at_eol(s, j, eol) {
            Some((s.subrange(i + 2, j), j + eol_bytes(eol).len()))
        } else {
            None
        }
    } else {
        None
    }
}

/// One or more header lines, as many as parse.
pub open spec fn spec_parse_headers(s: Seq<u8>, i: int, eol: Eol) -> Option<(Seq<Seq<u8>>, int)>
    decreases s.len() - i,
{
    match spec_parse_header(s, i, eol) {
        None => None,
        Some((h, j)) => {
            if i < j <= s.len() {
                match spec_parse_headers(s, j, eol) {
                    None => Some((seq![h], j)),
                    Some((hs, k)) => Some((seq![h] + hs, k)),
                }
            } else {
                None
            }
        },
    }
}

/// The line-ending style, read off the first line break in the document.
pub open spec fn detect_eol(s: Seq<u8>) -> Option<Eol> {
    let i = text_run_end(s, 0);
    if i < s.len() {
        if s[i] == B_LF {
            Some(Eol::Lf)
        } else if i + 1 < s.len() && s[i + 1] == B_LF {
            Some(Eol::CrLf)
        } else {
            None
        }
    } else {
        None
    }
}

/// The whole document: detect the line ending, parse the headers, count the
/// line breaks separating them from the body (at least one is required),
/// then parse sections to the end of input.
pub open spec fn spec_parse_showfile(s: Seq<u8>) -> Option<ShowfileView> {
    match detect_eol(s) {
        None => None,
        Some(eol) => match spec_parse_headers(s, 0, eol) {
            None => None,
            Some((hs, i)) => {
                let (gap, j) = eol_run(s, i, eol);
                if gap == 0 {
                    None
                } else {
                    match spec_parse_sections(s, j, eol) {
                        None => None,
                        Some((ss, k)) => {
                            if k == s.len() {
                                Some(
                                    ShowfileView {
                                        headers: hs,
                                        header_gap: gap,
                                        eol: eol,
                                        sections: ss,
                                    },
                                )
                            } else {
                                None
                            }
                        },
                    }
                }
            },
        },
    }
}

// ---------------------------------------------------------------------------
// Error descriptions: where each rule fails and which rules enclose the
// failure, innermost first. The executable parser's errors carry exactly
// these offsets and traces.
// ---------------------------------------------------------------------------

/// Where and why a row fails: at its start when no field parses at all,
/// else right after its fields, where neither a line break nor the
/// terminator follows.
pub open spec fn row_error(s: Seq<u8>, i: int, eol: Eol) -> (int, Seq<ParseRule>) {
    match spec_parse_fields(s, i, eol) {
        None => (i, seq![ParseRule::Field, ParseRule::Row]),
        Some((vs, c, j)) => (j, seq![ParseRule::Row]),
    }
}

/// Where and why a header line fails: at the end of its text when the line
/// break is wrong or missing, else at its start, where the marker is not.
pub open spec fn header_error(s: Seq<u8>, i: int, eol: Eol) -> (int, Seq<ParseRule>) {
    if 0 <= i && i + 2 <= s.len() && s[i] == B_BACKSLASH && s[i + 1] == B_SPACE {
        (text_run_end(s, i + 2), seq![ParseRule::Header])
    } else {
        (i, seq![ParseRule::Header])
    }
}

/// Where and why a section fails: at its start when the code or its comma
/// is missing, inside its first failing row, or after its rows where the
/// terminator is missing.
pub open spec fn section_error(s: Seq<u8>, i: int, eol: Eol) -> (int, Seq<ParseRule>) {
    let j = alnum_run_end(s, i);
    if j > i && j < s.len() && s[j] == B_COMMA {
        match spec_parse_rows(s, j + 1, eol) {
            None => {
                let (o, t) = row_error(s, j + 1, eol);
                (o, t.push(ParseRule::Section))
            },
            Some((rs, k)) => (k, seq![ParseRule::Section]),
        }
    } else {
        (i, seq![ParseRule::Identifier, ParseRule::Section])
    }
}

/// The start of the first section that does not parse.
pub open spec fn sections_stuck_at(s: Seq<u8>, i: int, eol: Eol) -> int
    decreases s.len() - i,
{
    if i >= s.len() {
        i
    } else {
        match spec_parse_section(s, i, eol) {
            None => i,
            Some((sec, j)) => {
                if i < j <= s.len() {
                    sections_stuck_at(s, j, eol)
                } else {
                    i
                }
            },
        }
    }
}

/// Where and why a whole document fails: no line break at all, a failing
/// header line, a missing separator after the headers, or the first failing
/// section.
pub open spec fn showfile_error(s: Seq<u8>) -> (int, Seq<ParseRule>) {
    match detect_eol(s) {
        None => (0, seq![ParseRule::Showfile]),
        Some(eol) => match spec_parse_headers(s, 0, eol) {
            None => {
                let (o, t) = header_error(s, 0, eol);
                (o, t.push(ParseRule::Showfile))
            },
            Some((hs, i)) => {
                let (gap, j) = eol_run(s, i, eol);
                if gap == 0 {
                    (i, seq![ParseRule::Showfile])
                } else {
                    let (o, t) = section_error(s, sections_stuck_at(s, j, eol), eol);
                    (o, t.push(ParseRule::Showfile))
                }
            },
        },
    }
}

// ---------------------------------------------------------------------------
// Bounds: every parser consumes at least one byte and stays inside the
// input. These discharge the termination guards above.
// ---------------------------------------------------------------------------

pub proof fn lemma_hex_run_end_bounds(s: Seq<u8>, i: int)
    requires
        0 <= i <= s.len(),
    ensures
        i <= hex_run_end(s, i) <= s.len(),
        forall|t: int| i <= t < hex_run_end(s, i) ==> is_hex_digit(#[trigger] s[t]),
        hex_run_end(s, i) < s.len() ==> !is_hex_digit(s[hex_run_end(s, i)]),
    decreases s.len() - i,
{
    if i < s.len() && is_hex_digit(s[i]) {
        lemma_hex_run_end_bounds(s, i + 1);
    }
}

/// Extending a hexadecimal run never shrinks its value.
pub proof fn lemma_hex_run_val_mono(s: Seq<u8>, i: int, a: int, b: int)
    requires
        a <= b,
    ensures
        hex_run_val(s, i, b) >= hex_run_val(s, i, a),
    decreases b - a,
{
    if a < b {
        lemma_hex_run_val_mono(s, i, a, b - 1);
        assert(hex_run_val(s, i, b - 1) * 16 >= hex_run_val(s, i, b - 1));
    }
}

pub proof fn lemma_digit_run_end_bounds(s: Seq<u8>, i: int)
    requires
        0 <= i <= s.len(),
    ensures
        i <= digit_run_end(s, i) <= s.len(),
        forall|t: int| i <= t < digit_run_end(s, i) ==> is_digit(#[trigger] s[t]),
        digit_run_end(s, i) < s.len() ==> !is_digit(s[digit_run_end(s, i)]),
    decreases s.len() - i,
{
    if i < s.len() && is_digit(s[i]) {
        lemma_digit_run_end_bounds(s, i + 1);
    }
}

pub proof fn lemma_alnum_run_end_bounds(s: Seq<u8>, i: int)
    requires
        0 <= i <= s.len(),
    ensures
        i <= alnum_run_end(s, i) <= s.len(),
        forall|t: int| i <= t < alnum_run_end(s, i) ==> is_alnum(#[trigger] s[t]),
        alnum_run_end(s, i) < s.len() ==> !is_alnum(s[alnum_run_end(s, i)]),
    decreases s.len() - i,
{
    if i < s.len() && is_alnum(s[i]) {
        lemma_alnum_run_end_bounds(s, i + 1);
    }
}

pub proof fn lemma_text_run_end_bounds(s: Seq<u8>, i: int)
    requires
        0 <= i <= s.len(),
    ensures
        i <= text_run_end(s, i) <= s.len(),
        forall|t: int|
            i <= t < text_run_end(s, i) ==> #[trigger] s[t] != B_CR && s[t] != B_LF,
        text_run_end(s, i) < s.len() ==> (s[text_run_end(s, i)] == B_CR || s[text_run_end(s, i)]
            == B_LF),
    decreases s.len() - i,
{
    if i < s.len() && s[i] != B_CR && s[i] != B_LF {
        lemma_text_run_end_bounds(s, i + 1);
    }
}

pub proof fn lemma_eol_run_bounds(s: Seq<u8>, i: int, eol: Eol)
    requires
        0 <= i <= s.len(),
    ensures
        ({
            let (n, j) = eol_run(s, i, eol);
            &&& i <= j <= s.len()
            &&& j == i + n * eol_bytes(eol).len()
            &&& !at_eol(s, j, eol)
        }),
    decreases s.len() - i,
{
    if at_eol(s, i, eol) {
        lemma_eol_run_bounds(s, i + eol_bytes(eol).len() as int, eol);
    }
}

pub proof fn lemma_str_content_end_bounds(s: Seq<u8>, i: int)
    requires
        0 <= i <= s.len(),
    ensures
        str_content_end(s, i) matches Some(j) ==> i <= j < s.len() && s[j] == B_QUOTE,
    decreases s.len() - i,
{
    if 0 <= i < s.len() {
        if s[i] == B_QUOTE {
        } else if s[i] == B_BACKSLASH {
            if i + 2 <= s.len() {
                lemma_str_content_end_bounds(s, i + 2);
            }
        } else {
            lemma_str_content_end_bounds(s, i + 1);
        }
    }
}

pub proof fn lemma_delim_bounds(s: Seq<u8>, i: int, eol: Eol)
    ensures
        spec_delim(s, i, eol) matches Some((c, k)) ==> 0 <= i <= k <= s.len() && k - i <= 1,
{
}

pub proof fn lemma_field_bounds(s: Seq<u8>, i: int, eol: Eol)
    requires
        0 <= i <= s.len(),
    ensures
        spec_parse_field(s, i, eol) matches Some((v, c, j)) ==> i < j <= s.len(),
{
    lemma_delim_bounds(s, i, eol);
    if spec_parse_string(s, i, eol) is Some {
        lemma_str_content_end_bounds(s, i + 1);
        let j = str_content_end(s, i + 1).unwrap();
        lemma_delim_bounds(s, j + 1, eol);
    } else if spec_parse_hex(s, i, eol) is Some {
        lemma_hex_run_end_bounds(s, i);
        lemma_delim_bounds(s, hex_run_end(s, i), eol);
    } else if spec_parse_float(s, i, eol) is Some {
        if starts_nan(s, i) {
            lemma_delim_bounds(s, i + 3, eol);
        } else if 0 <= i < s.len() && s[i] == B_MINUS && starts_nan(s, i + 1) {
            lemma_delim_bounds(s, i + 4, eol);
        } else {
            let i1 = if s[i] == B_MINUS || s[i] == B_PLUS {
                i + 1
            } else {
                i
            };
            assert(i1 <= s.len());
            lemma_digit_run_end_bounds(s, i1);
            let j1 = digit_run_end(s, i1);
            if j1 > i1 {
                if j1 < s.len() && s[j1] == B_DOT {
                    lemma_digit_run_end_bounds(s, j1 + 1);
                    lemma_delim_bounds(s, digit_run_end(s, j1 + 1), eol);
                } else {
                    lemma_delim_bounds(s, j1, eol);
                }
            } else {
                if i1 < s.len() && s[i1] == B_DOT {
                    lemma_digit_run_end_bounds(s, i1 + 1);
                    lemma_delim_bounds(s, digit_run_end(s, i1 + 1), eol);
                }
            }
        }
    }
}

pub proof fn lemma_fields_bounds(s: Seq<u8>, i: int, eol: Eol)
    requires
        0 <= i <= s.len(),
    ensures
        spec_parse_fields(s, i, eol) matches Some((vs, c, j)) ==> i < j <= s.len() && vs.len()
            >= 1,
    decreases s.len() - i,
{
    lemma_field_bounds(s, i, eol);
    match spec_parse_field(s, i, eol) {
        None => {},
        Some((v, c, j)) => {
            if c && i < j <= s.len() {
                lemma_fields_bounds(s, j, eol);
            }
        },
    }
}

pub proof fn lemma_row_bounds(s: Seq<u8>, i: int, eol: Eol)
    requires
        0 <= i <= s.len(),
    ensures
        spec_parse_row(s, i, eol) matches Some((r, j)) ==> i < j <= s.len(),
{
    lemma_fields_bounds(s, i, eol);
    match spec_parse_fields(s, i, eol) {
        None => {},
        Some((vs, c, j)) => {
            lemma_eol_run_bounds(s, j, eol);
        },
    }
}

pub proof fn lemma_rows_bounds(s: Seq<u8>, i: int, eol: Eol)
    requires
        0 <= i <= s.len(),
    ensures
        spec_parse_rows(s, i, eol) matches Some((rs, j)) ==> i < j <= s.len() && rs.len() >= 1,
    decreases s.len() - i,
{
    lemma_row_bounds(s, i, eol);
    match spec_parse_row(s, i, eol) {
        None => {},
        Some((r, j)) => {
            if i < j <= s.len() {
                lemma_rows_bounds(s, j, eol);
            }
        },
    }
}

pub proof fn lemma_section_bounds(s: Seq<u8>, i: int, eol: Eol)
    requires
        0 <= i <= s.len(),
    ensures
        spec_parse_section(s, i, eol) matches Some((sec, j)) ==> i < j <= s.len(),
{
    lemma_alnum_run_end_bounds(s, i);
    let j = alnum_run_end(s, i);
    if j > i && j < s.len() && s[j] == B_COMMA {
        lemma_rows_bounds(s, j + 1, eol);
        match spec_parse_rows(s, j + 1, eol) {
            None => {},
            Some((rs, k)) => {
                if 0 <= k < s.len() && s[k] == B_SEMI {
                    lemma_eol_run_bounds(s, k + 1, eol);
                }
            },
        }
    }
}

pub proof fn lemma_sections_bounds(s: Seq<u8>, i: int, eol: Eol)
    requires
        0 <= i <= s.len(),
    ensures
        spec_parse_sections(s, i, eol) matches Some((ss, j)) ==> i <= j <= s.len(),
    decreases s.len() - i,
{
    if i < s.len() {
        lemma_section_bounds(s, i, eol);
        match spec_parse_section(s, i, eol) {
            None => {},
            Some((sec, j)) => {
                if i < j <= s.len() {
                    lemma_sections_bounds(s, j, eol);
                }
            },
        }
    }
}

pub proof fn lemma_header_bounds(s: Seq<u8>, i: int, eol: Eol)
    requires
        0 <= i <= s.len(),
    ensures
        spec_parse_header(s, i, eol) matches Some((h, j)) ==> i < j <= s.len(),
{
    if 0 <= i && i + 2 <= s.len() && s[i] == B_BACKSLASH && s[i + 1] == B_SPACE {
        lemma_text_run_end_bounds(s, i + 2);
    }
}

pub proof fn lemma_headers_bounds(s: Seq<u8>, i: int, eol: Eol)
    requires
        0 <= i <= s.len(),
    ensures
        spec_parse_headers(s, i, eol) matches Some((hs, j)) ==> i < j <= s.len() && hs.len()
            >= 1,
    decreases s.len() - i,
{
    lemma_header_bounds(s, i, eol);
    match spec_parse_header(s, i, eol) {
        None => {},
        Some((h, j)) => {
            if i < j <= s.len() {
                lemma_headers_bounds(s, j, eol);
            }
        },
    }
}

} // verus!
