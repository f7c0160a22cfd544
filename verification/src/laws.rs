//! The round-trip laws: parsing what the writer produced yields the model
//! back, every parse result is well-formed, and hence serializing a parse
//! is the identity on the format's image.

use vstd::prelude::*;

use crate::digits::{
    all_digits, digits_val, hex_char, hex_digit_val, inc_digits, is_alnum, is_digit,
    is_hex_digit, norm_int_digits, pad_to_6, pow10, pow16, repeat_bytes, strip_leading_zeros,
    zeros, B_BACKSLASH, B_COMMA, B_CR, B_DOT, B_FIVE, B_LF, B_MINUS, B_QUOTE, B_SEMI, B_SPACE,
    B_LOWER_A, B_LOWER_N, B_ZERO, lemma_digits_val_bound, lemma_digits_val_concat,
    lemma_digits_val_single,
    lemma_digits_val_zeros, lemma_inc_digits_shape, lemma_inc_digits_val,
    lemma_norm_int_digits_val, lemma_pow10_add, lemma_pow10_pos,
};
use crate::grammar::{
    alnum_run_end, at_eol, canon_float, digit_run_end, eol_run, hex_run_end, hex_run_val,
    spec_delim, spec_parse_field, spec_parse_fields, spec_parse_float, spec_parse_header,
    spec_parse_headers, spec_parse_hex, spec_parse_row, spec_parse_rows, spec_parse_section,
    spec_parse_sections, spec_parse_showfile, spec_parse_string, starts_nan, str_content_end,
    text_run_end,
};
use crate::model::{
    eol_bytes, is_str_content, known_code, spec_code_of_id, spec_id_of_code, wf_float,
    wf_header, wf_identifier, wf_row, wf_section, wf_showfile, wf_value, Eol, FloatLitView,
    RowView, SectionIdentifierView, SectionView, ShowfileView, ValueView,
    lemma_code_table_bijective,
};
use crate::render::{
    ser_fields, ser_header, ser_headers, ser_hex_digits, ser_row, ser_rows, ser_section,
    ser_sections, ser_showfile, ser_value,
};

verus! {

// ---------------------------------------------------------------------------
// Small facts about rendered bytes.
// ---------------------------------------------------------------------------

/// Every byte of a hexadecimal rendering is a hexadecimal digit.
proof fn lemma_ser_hex_digits_are_digits(v: u64, w: nat, upper: bool)
    ensures
        ser_hex_digits(v, w, upper).len() == w,
        forall|t: int|
            0 <= t < w ==> is_hex_digit(#[trigger] ser_hex_digits(v, w, upper)[t]),
    decreases w,
{
    if w > 0 {
        lemma_ser_hex_digits_are_digits(v / 16, (w - 1) as nat, upper);
        assert(v % 16 < 16);
        crate::digits::lemma_hex_char_is_hex_digit(v % 16, upper);
        assert forall|t: int| 0 <= t < w implies is_hex_digit(
            #[trigger] ser_hex_digits(v, w, upper)[t],
        ) by {
            if t < w - 1 {
                assert(ser_hex_digits(v, w, upper)[t] == ser_hex_digits(
                    v / 16,
                    (w - 1) as nat,
                    upper,
                )[t]);
            }
        }
    }
}

/// Parsing a hexadecimal rendering recovers the value.
proof fn lemma_hex_render_parse(s: Seq<u8>, a: int, v: u64, w: nat, upper: bool)
    requires
        0 <= a,
        a + w <= s.len(),
        s.subrange(a, a + w) == ser_hex_digits(v, w, upper),
        (v as nat) < pow16(w),
    ensures
        hex_run_val(s, a, a + w) == v,
    decreases w,
{
    if w == 0 {
        assert(pow16(0) == 1);
    } else {
        lemma_ser_hex_digits_are_digits(v, w, upper);
        assert(s.subrange(a, a + w - 1) =~= ser_hex_digits(v / 16, (w - 1) as nat, upper)) by {
            assert forall|t: int| 0 <= t < w - 1 implies #[trigger] s.subrange(a, a + w - 1)[t]
                == ser_hex_digits(v / 16, (w - 1) as nat, upper)[t] by {
                assert(s.subrange(a, a + w - 1)[t] == s[a + t]);
                assert(s[a + t] == s.subrange(a, a + w)[t]);
                assert(ser_hex_digits(v, w, upper)[t] == ser_hex_digits(
                    v / 16,
                    (w - 1) as nat,
                    upper,
                )[t]);
            }
        }
        assert(pow16(w) == 16 * pow16((w - 1) as nat));
        assert(((v / 16) as nat) < pow16((w - 1) as nat));
        lemma_hex_render_parse(s, a, v / 16, (w - 1) as nat, upper);
        assert(s[a + w - 1] == s.subrange(a, a + w)[w - 1]);
        assert(s[a + w - 1] == hex_char(v % 16, upper));
        crate::digits::lemma_hex_char_is_hex_digit(v % 16, upper);
        assert(hex_run_val(s, a, a + w) == hex_run_val(s, a, a + w - 1) * 16 + hex_digit_val(
            s[a + w - 1],
        ));
        assert(hex_run_val(s, a, a + w) == (v / 16) * 16 + v % 16);
    }
}

/// The first byte of a rendered field is never a line break, a comma, a
/// semicolon, a backslash, or beyond: it opens a quote, a digit run, a sign
/// or a token.
proof fn lemma_ser_value_first_byte(v: ValueView)
    requires
        wf_value(v),
    ensures
        ser_value(v).len() >= 1,
        ser_value(v)[0] != B_CR,
        ser_value(v)[0] != B_LF,
        ser_value(v)[0] != B_SEMI,
        ser_value(v)[0] != B_COMMA,
        ser_value(v)[0] != B_BACKSLASH,
{
    match v {
        ValueView::Str(s) => {
            assert(ser_value(v)[0] == B_QUOTE);
        },
        ValueView::Hex(x, w) => {
            lemma_ser_hex_digits_are_digits(x, w, w == 16);
            assert(is_hex_digit(ser_value(v)[0]));
        },
        ValueView::Float(f) => {
            if f.neg {
                assert(ser_value(v)[0] == B_MINUS);
            } else {
                assert(ser_value(v)[0] == f.int_digits[0]);
                assert(is_digit(f.int_digits[0]));
            }
        },
        ValueView::Nan(n) => {
            if n {
                assert(ser_value(v)[0] == B_MINUS);
            } else {
                assert(ser_value(v)[0] == B_LOWER_N);
            }
        },
    }
}

/// At a terminator byte or a line break, no field alternative matches.
proof fn lemma_field_none_at_terminator(s: Seq<u8>, p: int, eol: Eol)
    requires
        (0 <= p < s.len() && s[p] == B_SEMI) || at_eol(s, p, eol) || p == s.len(),
        0 <= p <= s.len(),
    ensures
        spec_parse_field(s, p, eol) is None,
{
    if p < s.len() {
        assert(s[p] == B_SEMI || s[p] == B_CR || s[p] == B_LF);
        assert(!is_hex_digit(s[p]));
        assert(hex_run_end(s, p) == p);
        assert(digit_run_end(s, p) == p);
        assert(spec_parse_string(s, p, eol) is None);
        assert(spec_parse_hex(s, p, eol) is None);
        assert(!starts_nan(s, p));
        assert(spec_parse_float(s, p, eol) is None);
    } else {
        assert(hex_run_end(s, p) == p);
    }
}

/// A well-formed float is already canonical: canonicalizing it is the
/// identity.
proof fn lemma_canon_identity(f: FloatLitView)
    requires
        wf_float(f),
    ensures
        canon_float(f.neg, f.int_digits, f.frac_digits) == f,
{
    assert(strip_leading_zeros(f.int_digits) == f.int_digits);
    assert(norm_int_digits(f.int_digits) == f.int_digits);
    assert(pad_to_6(f.frac_digits) =~= f.frac_digits);
}

/// A byte that is neither a carriage return nor a line feed does not start
/// a line break; neither does the end of the input.
proof fn lemma_not_at_eol(s: Seq<u8>, p: int, eol: Eol)
    requires
        p == s.len() || (0 <= p < s.len() && s[p] != B_CR && s[p] != B_LF),
    ensures
        !at_eol(s, p, eol),
{
}

// ---------------------------------------------------------------------------
// Embedded runs: a rendered run inside a larger sequence scans back to
// exactly its own end.
// ---------------------------------------------------------------------------

proof fn lemma_hex_run_embedded(s: Seq<u8>, a: int, b: int)
    requires
        0 <= a <= b <= s.len(),
        forall|t: int| a <= t < b ==> is_hex_digit(#[trigger] s[t]),
        b == s.len() || !is_hex_digit(s[b]),
    ensures
        hex_run_end(s, a) == b,
    decreases b - a,
{
    if a < b {
        lemma_hex_run_embedded(s, a + 1, b);
    }
}

proof fn lemma_digit_run_embedded(s: Seq<u8>, a: int, b: int)
    requires
        0 <= a <= b <= s.len(),
        forall|t: int| a <= t < b ==> is_digit(#[trigger] s[t]),
        b == s.len() || !is_digit(s[b]),
    ensures
        digit_run_end(s, a) == b,
    decreases b - a,
{
    if a < b {
        lemma_digit_run_embedded(s, a + 1, b);
    }
}

proof fn lemma_alnum_run_embedded(s: Seq<u8>, a: int, b: int)
    requires
        0 <= a <= b <= s.len(),
        forall|t: int| a <= t < b ==> is_alnum(#[trigger] s[t]),
        b == s.len() || !is_alnum(s[b]),
    ensures
        alnum_run_end(s, a) == b,
    decreases b - a,
{
    if a < b {
        lemma_alnum_run_embedded(s, a + 1, b);
    }
}

proof fn lemma_text_run_embedded(s: Seq<u8>, a: int, b: int)
    requires
        0 <= a <= b <= s.len(),
        forall|t: int| a <= t < b ==> #[trigger] s[t] != B_CR && s[t] != B_LF,
        b == s.len() || s[b] == B_CR || s[b] == B_LF,
    ensures
        text_run_end(s, a) == b,
    decreases b - a,
{
    if a < b {
        lemma_text_run_embedded(s, a + 1, b);
    }
}

/// A rendered run of line breaks scans back to its own count.
proof fn lemma_eol_run_embedded(s: Seq<u8>, a: int, n: nat, eol: Eol)
    requires
        0 <= a,
        a + n * eol_bytes(eol).len() <= s.len(),
        s.subrange(a, a + n * eol_bytes(eol).len()) == repeat_bytes(eol_bytes(eol), n),
        !at_eol(s, a + n * eol_bytes(eol).len(), eol),
    ensures
        eol_run(s, a, eol) == (n, a + n * eol_bytes(eol).len()),
    decreases n,
{
    let el = eol_bytes(eol).len() as int;
    if n == 0 {
        assert(eol_run(s, a, eol) == (0nat, a));
    } else {
        let rep = repeat_bytes(eol_bytes(eol), n);
        assert(rep == eol_bytes(eol) + repeat_bytes(eol_bytes(eol), (n - 1) as nat));
        assert(n * el == el + (n - 1) * el) by (nonlinear_arith);
        assert((n - 1) * el >= 0) by (nonlinear_arith)
            requires
                n >= 1,
                el >= 1,
        ;
        assert(s[a] == s.subrange(a, a + n * el)[0]);
        assert(s[a] == eol_bytes(eol)[0]);
        if eol_bytes(eol).len() == 2 {
            assert(s[a + 1] == s.subrange(a, a + n * el)[1]);
            assert(s[a + 1] == eol_bytes(eol)[1]);
        }
        assert(at_eol(s, a, eol));
        assert(s.subrange(a + el, a + el + (n - 1) * el) =~= repeat_bytes(
            eol_bytes(eol),
            (n - 1) as nat,
        )) by {
            assert forall|t: int| 0 <= t < (n - 1) * el implies #[trigger] s.subrange(
                a + el,
                a + el + (n - 1) * el,
            )[t] == repeat_bytes(eol_bytes(eol), (n - 1) as nat)[t] by {
                assert(s.subrange(a + el, a + el + (n - 1) * el)[t] == s[a + el + t]);
                assert(s[a + el + t] == s.subrange(a, a + n * el)[el + t]);
                assert(rep[el + t] == repeat_bytes(eol_bytes(eol), (n - 1) as nat)[t]);
            }
        }
        lemma_eol_run_embedded(s, a + el, (n - 1) as nat, eol);
        assert(eol_run(s, a, eol).0 == eol_run(s, a + el, eol).0 + 1);
        assert(eol_run(s, a, eol).1 == eol_run(s, a + el, eol).1);
    }
}

/// Well-formed string content embedded before its closing quote scans back
/// to exactly that quote.
proof fn lemma_str_content_embedded(s: Seq<u8>, a: int, content: Seq<u8>)
    requires
        0 <= a,
        a + content.len() < s.len(),
        is_str_content(content),
        s.subrange(a, a + content.len()) == content,
        s[a + content.len()] == B_QUOTE,
    ensures
        str_content_end(s, a) == Some(a + content.len()),
    decreases content.len(),
{
    if content.len() == 0 {
    } else {
        assert(s[a] == s.subrange(a, a + content.len())[0]);
        assert(s[a] == content[0]);
        if content[0] == B_BACKSLASH {
            assert(content.len() >= 2);
            let rest = content.skip(2);
            assert(is_str_content(rest));
            assert(s.subrange(a + 2, a + 2 + rest.len()) =~= rest) by {
                assert forall|t: int| 0 <= t < rest.len() implies #[trigger] s.subrange(
                    a + 2,
                    a + 2 + rest.len(),
                )[t] == rest[t] by {
                    assert(s.subrange(a + 2, a + 2 + rest.len())[t] == s[a + 2 + t]);
                    assert(s[a + 2 + t] == s.subrange(a, a + content.len())[2 + t]);
                    assert(rest[t] == content[2 + t]);
                }
            }
            lemma_str_content_embedded(s, a + 2, rest);
        } else {
            assert(content[0] != B_QUOTE);
            let rest = content.skip(1);
            assert(is_str_content(rest));
            assert(s.subrange(a + 1, a + 1 + rest.len()) =~= rest) by {
                assert forall|t: int| 0 <= t < rest.len() implies #[trigger] s.subrange(
                    a + 1,
                    a + 1 + rest.len(),
                )[t] == rest[t] by {
                    assert(s.subrange(a + 1, a + 1 + rest.len())[t] == s[a + 1 + t]);
                    assert(s[a + 1 + t] == s.subrange(a, a + content.len())[1 + t]);
                    assert(rest[t] == content[1 + t]);
                }
            }
            lemma_str_content_embedded(s, a + 1, rest);
        }
    }
}

/// Where a delimiter matches, the byte there is a comma, a semicolon, or
/// the first byte of a line break.
proof fn lemma_delim_byte(s: Seq<u8>, p: int, eol: Eol)
    requires
        spec_delim(s, p, eol) is Some,
    ensures
        0 <= p < s.len(),
        s[p] == B_COMMA || s[p] == B_SEMI || s[p] == B_LF || s[p] == B_CR,
{
}

/// A rendered field embedded right before a delimiter parses back to
/// itself, with that delimiter's flag and end position.
#[verifier::rlimit(100)]
proof fn lemma_parse_value_at(s: Seq<u8>, a: int, v: ValueView, eol: Eol)
    requires
        wf_value(v),
        0 <= a,
        a + ser_value(v).len() <= s.len(),
        s.subrange(a, a + ser_value(v).len()) == ser_value(v),
        spec_delim(s, a + ser_value(v).len(), eol) is Some,
    ensures
        ({
            let (c, k) = spec_delim(s, a + ser_value(v).len(), eol).unwrap();
            spec_parse_field(s, a, eol) == Some((v, c, k))
        }),
{
    let sv = ser_value(v);
    let ln = sv.len() as int;
    let end = a + ln;
    lemma_delim_byte(s, end, eol);
    assert forall|t: int| 0 <= t < ln implies #[trigger] s[a + t] == sv[t] by {
        assert(s.subrange(a, end)[t] == s[a + t]);
    }
    match v {
        ValueView::Str(content) => {
            assert(sv =~= seq![B_QUOTE] + (content + seq![B_QUOTE]));
            assert(s[a + 0] == sv[0]);
            assert(s[a] == B_QUOTE);
            assert forall|t: int| 0 <= t < content.len() implies #[trigger] s.subrange(
                a + 1,
                a + 1 + content.len(),
            )[t] == content[t] by {
                assert(s.subrange(a + 1, a + 1 + content.len())[t] == s[a + 1 + t]);
                assert(s[a + 1 + t] == sv[1 + t]);
                assert(sv[1 + t] == content[t]);
            }
            assert(s.subrange(a + 1, a + 1 + content.len()) =~= content);
            assert(s[a + 1 + content.len()] == sv[1 + content.len() as int]);
            assert(s[a + 1 + content.len()] == B_QUOTE);
            lemma_str_content_embedded(s, a + 1, content);
            assert(str_content_end(s, a + 1) == Some(a + 1 + content.len()));
            assert(s.subrange(a + 1, a + 1 + content.len()) == content);
            assert(spec_parse_string(s, a, eol) == Some(
                (ValueView::Str(content), spec_delim(s, end, eol).unwrap().0, spec_delim(
                    s,
                    end,
                    eol,
                ).unwrap().1),
            ));
        },
        ValueView::Hex(x, w) => {
            lemma_ser_hex_digits_are_digits(x, w, w == 16);
            assert(s[a + 0] == sv[0]);
            assert(is_hex_digit(s[a]));
            assert(s[a] != B_QUOTE);
            assert(spec_parse_string(s, a, eol) is None);
            assert forall|t: int| a <= t < a + w implies is_hex_digit(#[trigger] s[t]) by {
                assert(s[a + (t - a)] == sv[t - a]);
            }
            assert(!is_hex_digit(s[end]));
            lemma_hex_run_embedded(s, a, end);
            assert(hex_run_end(s, a) == a + w);
            assert(s.subrange(a, a + w) == ser_hex_digits(x, w, w == 16));
            lemma_hex_render_parse(s, a, x, w, w == 16);
            assert(hex_run_val(s, a, a + w) == x);
            assert(hex_run_val(s, a, a + w) as u64 == x);
            assert(spec_parse_hex(s, a, eol) == Some(
                (v, spec_delim(s, end, eol).unwrap().0, spec_delim(s, end, eol).unwrap().1),
            ));
        },
        ValueView::Float(f) => {
            let il = f.int_digits.len() as int;
            let sign: Seq<u8> = if f.neg {
                seq![B_MINUS]
            } else {
                Seq::<u8>::empty()
            };
            let sl = sign.len() as int;
            let b0 = a + sl;
            assert(sv =~= sign + (f.int_digits + (seq![B_DOT] + f.frac_digits)));
            lemma_concat_embedded(s, a, sign, f.int_digits + (seq![B_DOT] + f.frac_digits));
            lemma_concat_embedded(s, b0, f.int_digits, seq![B_DOT] + f.frac_digits);
            lemma_concat_embedded(s, b0 + il, seq![B_DOT], f.frac_digits);
            assert(s.subrange(b0, b0 + il) == f.int_digits);
            assert(s.subrange(b0 + il, b0 + il + 1) == seq![B_DOT]);
            assert(s[b0 + il] == s.subrange(b0 + il, b0 + il + 1)[0]);
            assert(s[b0 + il] == B_DOT);
            assert(s.subrange(b0 + il + 1, end) == f.frac_digits);
            if f.neg {
                assert(s[a + 0] == sv[0]);
                assert(s[a] == B_MINUS);
            } else {
                assert(s[a + 0] == sv[0]);
                assert(s[a] == f.int_digits[0]);
                assert(is_digit(s[a]));
            }
            // the string alternative fails
            assert(s[a] != B_QUOTE);
            assert(spec_parse_string(s, a, eol) is None);
            // the hexadecimal alternative fails at the dot or on width
            assert forall|t: int| b0 <= t < b0 + il implies is_hex_digit(#[trigger] s[t]) by {
                assert(s.subrange(b0, b0 + il)[t - b0] == s[t]);
                assert(is_digit(f.int_digits[t - b0]));
            }
            assert(!is_hex_digit(s[b0 + il]));
            if f.neg {
                assert(!is_hex_digit(s[a]));
                assert(hex_run_end(s, a) == a);
                assert(spec_parse_hex(s, a, eol) is None);
            } else {
                // the run of integer digits stops at the dot, which is no
                // delimiter
                lemma_hex_run_embedded(s, a, b0 + il);
                assert(hex_run_end(s, a) == b0 + il);
                assert(spec_delim(s, b0 + il, eol) is None);
                assert(spec_parse_hex(s, a, eol) is None);
            }
            // the float alternative matches
            assert(!starts_nan(s, a)) by {
                if starts_nan(s, a) {
                    assert(s[a] == B_LOWER_N);
                }
            }
            if f.neg {
                assert(s[a + 1] == sv[1]);
                assert(s[a + 1] == f.int_digits[0]);
                assert(!starts_nan(s, a + 1)) by {
                    if starts_nan(s, a + 1) {
                        assert(s[a + 1] == B_LOWER_N);
                    }
                }
            }
            assert forall|t: int| b0 <= t < b0 + il implies is_digit(#[trigger] s[t]) by {
                assert(s.subrange(b0, b0 + il)[t - b0] == s[t]);
            }
            assert(!is_digit(s[b0 + il]));
            lemma_digit_run_embedded(s, b0, b0 + il);
            assert(digit_run_end(s, b0) == b0 + il);
            let j1 = b0 + il;
            assert forall|t: int| j1 + 1 <= t < end implies is_digit(#[trigger] s[t]) by {
                assert(s.subrange(j1 + 1, end)[t - (j1 + 1)] == s[t]);
                assert(is_digit(f.frac_digits[t - (j1 + 1)]));
            }
            assert(!is_digit(s[end]));
            lemma_digit_run_embedded(s, j1 + 1, end);
            assert(digit_run_end(s, j1 + 1) == end);
            lemma_canon_identity(f);
            assert(canon_float(f.neg, s.subrange(b0, j1), s.subrange(j1 + 1, end)) == f);
            assert(spec_parse_float(s, a, eol) == Some(
                (v, spec_delim(s, end, eol).unwrap().0, spec_delim(s, end, eol).unwrap().1),
            ));
        },
        ValueView::Nan(n) => {
            if n {
                assert(s[a + 0] == sv[0]);
                assert(s[a + 1] == sv[1]);
                assert(s[a + 2] == sv[2]);
                assert(s[a + 3] == sv[3]);
                assert(s[a] == B_MINUS && s[a + 1] == B_LOWER_N && s[a + 2] == B_LOWER_A && s[a + 3]
                    == B_LOWER_N);
                assert(s[a] != B_QUOTE);
                assert(spec_parse_string(s, a, eol) is None);
                assert(!is_hex_digit(s[a]));
                assert(hex_run_end(s, a) == a);
                assert(spec_parse_hex(s, a, eol) is None);
                assert(!starts_nan(s, a));
                assert(starts_nan(s, a + 1));
                assert(spec_parse_float(s, a, eol) == Some(
                    (v, spec_delim(s, end, eol).unwrap().0, spec_delim(s, end, eol).unwrap().1),
                ));
            } else {
                assert(s[a + 0] == sv[0]);
                assert(s[a + 1] == sv[1]);
                assert(s[a + 2] == sv[2]);
                assert(s[a] == B_LOWER_N && s[a + 1] == B_LOWER_A && s[a + 2] == B_LOWER_N);
                assert(s[a] != B_QUOTE);
                assert(spec_parse_string(s, a, eol) is None);
                assert(!is_hex_digit(s[a]));
                assert(hex_run_end(s, a) == a);
                assert(spec_parse_hex(s, a, eol) is None);
                assert(starts_nan(s, a));
                assert(spec_parse_float(s, a, eol) == Some(
                    (v, spec_delim(s, end, eol).unwrap().0, spec_delim(s, end, eol).unwrap().1),
                ));
            }
        },
    }
}

/// Split an embedded concatenation into its two embedded halves.
proof fn lemma_concat_embedded(s: Seq<u8>, a: int, x: Seq<u8>, y: Seq<u8>)
    requires
        0 <= a,
        a + x.len() + y.len() <= s.len(),
        s.subrange(a, a + x.len() + y.len()) == x + y,
    ensures
        s.subrange(a, a + x.len()) == x,
        s.subrange(a + x.len(), a + x.len() + y.len()) == y,
{
    assert(s.subrange(a, a + x.len()) =~= x) by {
        assert forall|t: int| 0 <= t < x.len() implies #[trigger] s.subrange(a, a + x.len())[t]
            == x[t] by {
            assert(s.subrange(a, a + x.len())[t] == s[a + t]);
            assert(s[a + t] == s.subrange(a, a + x.len() + y.len())[t]);
            assert((x + y)[t] == x[t]);
        }
    }
    assert(s.subrange(a + x.len(), a + x.len() + y.len()) =~= y) by {
        assert forall|t: int| 0 <= t < y.len() implies #[trigger] s.subrange(
            a + x.len(),
            a + x.len() + y.len(),
        )[t] == y[t] by {
            assert(s.subrange(a + x.len(), a + x.len() + y.len())[t] == s[a + x.len() + t]);
            assert(s[a + x.len() + t] == s.subrange(a, a + x.len() + y.len())[x.len() + t]);
            assert((x + y)[x.len() + t] == y[t]);
        }
    }
}

// ---------------------------------------------------------------------------
// Structural inversion, bottom-up.
// ---------------------------------------------------------------------------

/// A rendered run of fields is never empty.
proof fn lemma_ser_fields_len(vs: Seq<ValueView>, tc: bool)
    requires
        vs.len() >= 1,
        wf_value(vs[0]),
    ensures
        ser_fields(vs, tc).len() >= 1,
        ser_fields(vs, tc)[0] == ser_value(vs[0])[0],
{
    lemma_ser_value_first_byte(vs[0]);
}

/// A rendered row starts with its first field's first byte.
proof fn lemma_ser_row_first(r: RowView, eol: Eol)
    requires
        wf_row(r),
    ensures
        ser_row(r, eol).len() >= 1,
        ser_row(r, eol)[0] == ser_value(r.values[0])[0],
        ser_row(r, eol)[0] != B_CR,
        ser_row(r, eol)[0] != B_LF,
{
    lemma_ser_fields_len(r.values, r.trailing_comma);
    lemma_ser_value_first_byte(r.values[0]);
}

/// The written code of a well-formed identifier is a nonempty alphanumeric
/// run.
proof fn lemma_code_of_alnum(id: SectionIdentifierView)
    requires
        wf_identifier(id),
    ensures
        spec_code_of_id(id).len() >= 1,
        forall|t: int|
            0 <= t < spec_code_of_id(id).len() ==> is_alnum(#[trigger] spec_code_of_id(id)[t]),
{
    match id {
        SectionIdentifierView::Unknown(c) => {},
        _ => {
            assert(spec_code_of_id(id).len() == 1);
            assert(is_alnum(spec_code_of_id(id)[0]));
        },
    }
}

/// A rendered section starts with an alphanumeric code byte.
proof fn lemma_ser_section_first(sec: SectionView, eol: Eol)
    requires
        wf_section(sec),
    ensures
        ser_section(sec, eol).len() >= 1,
        is_alnum(ser_section(sec, eol)[0]),
        ser_section(sec, eol)[0] != B_CR,
        ser_section(sec, eol)[0] != B_LF,
        ser_section(sec, eol)[0] != B_BACKSLASH,
{
    lemma_code_of_alnum(sec.identifier);
    assert(ser_section(sec, eol)[0] == spec_code_of_id(sec.identifier)[0]);
}

/// A rendered run of fields, embedded right before a terminator or a line
/// break, parses back to exactly those fields with that trailing-comma
/// flag.
#[verifier::rlimit(60)]
proof fn lemma_parse_fields_at(s: Seq<u8>, a: int, vs: Seq<ValueView>, tc: bool, eol: Eol)
    requires
        vs.len() >= 1,
        forall|i: int| 0 <= i < vs.len() ==> wf_value(#[trigger] vs[i]),
        0 <= a,
        a + ser_fields(vs, tc).len() <= s.len(),
        s.subrange(a, a + ser_fields(vs, tc).len()) == ser_fields(vs, tc),
        ({
            let end = a + ser_fields(vs, tc).len();
            (end < s.len() && s[end] == B_SEMI) || at_eol(s, end, eol)
        }),
    ensures
        spec_parse_fields(s, a, eol) == Some((vs, tc, a + ser_fields(vs, tc).len())),
    decreases vs.len(),
{
    let fl = ser_fields(vs, tc).len() as int;
    let end = a + fl;
    let sv0 = ser_value(vs[0]);
    let l0 = sv0.len() as int;
    lemma_ser_value_first_byte(vs[0]);
    if vs.len() == 1 {
        if tc {
            assert(ser_fields(vs, tc) =~= sv0 + seq![B_COMMA]);
            lemma_concat_embedded(s, a, sv0, seq![B_COMMA]);
            assert(s[a + l0] == s.subrange(a + l0, a + l0 + 1)[0]);
            assert(s[a + l0] == B_COMMA);
            assert(spec_delim(s, a + l0, eol) == Some((true, a + l0 + 1)));
            lemma_parse_value_at(s, a, vs[0], eol);
            assert(spec_parse_field(s, a, eol) == Some((vs[0], true, end)));
            lemma_field_none_at_terminator(s, end, eol);
            assert(spec_parse_fields(s, end, eol) is None);
            assert(spec_parse_fields(s, a, eol) == Some((seq![vs[0]], true, end)));
            assert(seq![vs[0]] =~= vs);
        } else {
            assert(ser_fields(vs, tc) =~= sv0);
            assert(s.subrange(a, a + l0) == sv0);
            if end < s.len() && s[end] == B_SEMI {
                assert(spec_delim(s, end, eol) == Some((false, end)));
            } else {
                assert(at_eol(s, end, eol));
                assert(s[end] == B_CR || s[end] == B_LF);
                assert(spec_delim(s, end, eol) == Some((false, end)));
            }
            lemma_parse_value_at(s, a, vs[0], eol);
            assert(spec_parse_field(s, a, eol) == Some((vs[0], false, end)));
            assert(spec_parse_fields(s, a, eol) == Some((seq![vs[0]], false, end)));
            assert(seq![vs[0]] =~= vs);
        }
    } else {
        let rest = ser_fields(vs.skip(1), tc);
        assert(ser_fields(vs, tc) == sv0 + seq![B_COMMA] + rest);
        assert(ser_fields(vs, tc) =~= sv0 + (seq![B_COMMA] + rest));
        lemma_concat_embedded(s, a, sv0, seq![B_COMMA] + rest);
        lemma_concat_embedded(s, a + l0, seq![B_COMMA], rest);
        assert(s[a + l0] == s.subrange(a + l0, a + l0 + 1)[0]);
        assert(s[a + l0] == B_COMMA);
        assert(spec_delim(s, a + l0, eol) == Some((true, a + l0 + 1)));
        lemma_parse_value_at(s, a, vs[0], eol);
        let a1 = a + l0 + 1;
        assert(spec_parse_field(s, a, eol) == Some((vs[0], true, a1)));
        assert forall|i: int| 0 <= i < vs.skip(1).len() implies wf_value(
            #[trigger] vs.skip(1)[i],
        ) by {
            assert(vs.skip(1)[i] == vs[i + 1]);
        }
        assert(a1 + rest.len() == end);
        lemma_parse_fields_at(s, a1, vs.skip(1), tc, eol);
        assert(spec_parse_fields(s, a1, eol) == Some((vs.skip(1), tc, end)));
        assert(spec_parse_fields(s, a, eol) == Some((seq![vs[0]] + vs.skip(1), tc, end)));
        assert(seq![vs[0]] + vs.skip(1) =~= vs);
    }
}

/// A rendered row, embedded with its terminator context, parses back to
/// itself.
proof fn lemma_parse_row_at(s: Seq<u8>, a: int, r: RowView, eol: Eol)
    requires
        wf_row(r),
        0 <= a,
        a + ser_row(r, eol).len() <= s.len(),
        s.subrange(a, a + ser_row(r, eol).len()) == ser_row(r, eol),
        r.trailing_newlines == 0 ==> ({
            let end = a + ser_row(r, eol).len();
            end < s.len() && s[end] == B_SEMI
        }),
        r.trailing_newlines >= 1 ==> !at_eol(s, a + ser_row(r, eol).len(), eol),
    ensures
        spec_parse_row(s, a, eol) == Some((r, a + ser_row(r, eol).len())),
{
    let flds = ser_fields(r.values, r.trailing_comma);
    let rep = repeat_bytes(eol_bytes(eol), r.trailing_newlines);
    crate::digits::lemma_repeat_len(eol_bytes(eol), r.trailing_newlines);
    let fe = a + flds.len() as int;
    let end = a + ser_row(r, eol).len() as int;
    lemma_concat_embedded(s, a, flds, rep);
    if r.trailing_newlines >= 1 {
        assert(s[fe] == s.subrange(fe, end)[0]);
        assert(s[fe] == rep[0]);
        assert(rep[0] == eol_bytes(eol)[0]);
        if eol_bytes(eol).len() == 2 {
            assert(s[fe + 1] == s.subrange(fe, end)[1]);
            assert(rep[1] == eol_bytes(eol)[1]);
        }
        assert(at_eol(s, fe, eol));
    } else {
        assert(end == fe);
    }
    lemma_parse_fields_at(s, a, r.values, r.trailing_comma, eol);
    assert(spec_parse_fields(s, a, eol) == Some((r.values, r.trailing_comma, fe)));
    if r.trailing_newlines == 0 {
        crate::laws::lemma_not_at_eol(s, fe, eol);
    }
    lemma_eol_run_embedded(s, fe, r.trailing_newlines, eol);
    assert(eol_run(s, fe, eol) == (r.trailing_newlines, end));
    if r.trailing_newlines >= 1 {
        assert(spec_parse_row(s, a, eol) == Some(
            (
                RowView {
                    values: r.values,
                    trailing_comma: r.trailing_comma,
                    trailing_newlines: r.trailing_newlines,
                },
                end,
            ),
        ));
    } else {
        assert(s[end] == B_SEMI);
        assert(spec_parse_row(s, a, eol) == Some(
            (
                RowView {
                    values: r.values,
                    trailing_comma: r.trailing_comma,
                    trailing_newlines: 0,
                },
                end,
            ),
        ));
    }
    assert(RowView {
        values: r.values,
        trailing_comma: r.trailing_comma,
        trailing_newlines: r.trailing_newlines,
    } == r);
}

/// A rendered run of rows, embedded right before the section terminator,
/// parses back to exactly those rows.
#[verifier::rlimit(100)]
proof fn lemma_parse_rows_at(s: Seq<u8>, a: int, rows: Seq<RowView>, eol: Eol)
    requires
        rows.len() >= 1,
        forall|i: int| 0 <= i < rows.len() ==> wf_row(#[trigger] rows[i]),
        forall|i: int| 0 <= i < rows.len() - 1 ==> (#[trigger] rows[i]).trailing_newlines >= 1,
        0 <= a,
        a + ser_rows(rows, eol).len() <= s.len(),
        s.subrange(a, a + ser_rows(rows, eol).len()) == ser_rows(rows, eol),
        ({
            let end = a + ser_rows(rows, eol).len();
            end < s.len() && s[end] == B_SEMI
        }),
    ensures
        spec_parse_rows(s, a, eol) == Some((rows, a + ser_rows(rows, eol).len())),
    decreases rows.len(),
{
    let end = a + ser_rows(rows, eol).len() as int;
    let r0 = ser_row(rows[0], eol);
    let rest = ser_rows(rows.skip(1), eol);
    assert(ser_rows(rows, eol) == r0 + rest);
    lemma_concat_embedded(s, a, r0, rest);
    lemma_ser_row_first(rows[0], eol);
    let a1 = a + r0.len() as int;
    if rows.len() == 1 {
        assert(rest =~= Seq::<u8>::empty());
        assert(a1 == end);
        if rows[0].trailing_newlines >= 1 {
            lemma_not_at_eol(s, end, eol);
        }
        lemma_parse_row_at(s, a, rows[0], eol);
        assert(spec_parse_row(s, a, eol) == Some((rows[0], end)));
        lemma_field_none_at_terminator(s, end, eol);
        assert(spec_parse_fields(s, end, eol) is None);
        assert(spec_parse_row(s, end, eol) is None);
        assert(spec_parse_rows(s, end, eol) is None);
        assert(spec_parse_rows(s, a, eol) == Some((seq![rows[0]], end)));
        assert(seq![rows[0]] =~= rows);
    } else {
        lemma_ser_row_first(rows[1], eol);
        assert(ser_rows(rows.skip(1), eol) == ser_row(rows.skip(1)[0], eol) + ser_rows(
            rows.skip(1).skip(1),
            eol,
        ));
        assert(rows.skip(1)[0] == rows[1]);
        assert(rest[0] == ser_row(rows[1], eol)[0]);
        assert(s[a1] == s.subrange(a1, end)[0]);
        assert(s[a1] == rest[0]);
        assert(s[a1] != B_CR && s[a1] != B_LF);
        lemma_not_at_eol(s, a1, eol);
        assert(rows[0].trailing_newlines >= 1);
        lemma_parse_row_at(s, a, rows[0], eol);
        assert(spec_parse_row(s, a, eol) == Some((rows[0], a1)));
        assert forall|i: int| 0 <= i < rows.skip(1).len() implies wf_row(
            #[trigger] rows.skip(1)[i],
        ) by {
            assert(rows.skip(1)[i] == rows[i + 1]);
        }
        assert forall|i: int| 0 <= i < rows.skip(1).len() - 1 implies (#[trigger] rows.skip(
            1,
        )[i]).trailing_newlines >= 1 by {
            assert(rows.skip(1)[i] == rows[i + 1]);
        }
        lemma_parse_rows_at(s, a1, rows.skip(1), eol);
        assert(spec_parse_rows(s, a1, eol) == Some((rows.skip(1), end)));
        assert(spec_parse_rows(s, a, eol) == Some((seq![rows[0]] + rows.skip(1), end)));
        assert(seq![rows[0]] + rows.skip(1) =~= rows);
    }
}

/// A rendered section, embedded before the next section's code or the end
/// of the input, parses back to itself.
proof fn lemma_parse_section_at(s: Seq<u8>, a: int, sec: SectionView, eol: Eol)
    requires
        wf_section(sec),
        0 <= a,
        a + ser_section(sec, eol).len() <= s.len(),
        s.subrange(a, a + ser_section(sec, eol).len()) == ser_section(sec, eol),
        ({
            let end = a + ser_section(sec, eol).len();
            end == s.len() || (s[end] != B_CR && s[end] != B_LF)
        }),
    ensures
        spec_parse_section(s, a, eol) == Some((sec, a + ser_section(sec, eol).len())),
{
    let code = spec_code_of_id(sec.identifier);
    let cl = code.len() as int;
    let rws = ser_rows(sec.rows, eol);
    let rep = repeat_bytes(eol_bytes(eol), sec.trailing_newlines);
    crate::digits::lemma_repeat_len(eol_bytes(eol), sec.trailing_newlines);
    let end = a + ser_section(sec, eol).len() as int;
    lemma_code_of_alnum(sec.identifier);
    assert(ser_section(sec, eol) =~= code + (seq![B_COMMA] + (rws + (seq![B_SEMI] + rep))));
    lemma_concat_embedded(s, a, code, seq![B_COMMA] + (rws + (seq![B_SEMI] + rep)));
    lemma_concat_embedded(s, a + cl, seq![B_COMMA], rws + (seq![B_SEMI] + rep));
    lemma_concat_embedded(s, a + cl + 1, rws, seq![B_SEMI] + rep);
    let k = a + cl + 1 + rws.len() as int;
    lemma_concat_embedded(s, k, seq![B_SEMI], rep);
    assert(s[a + cl] == s.subrange(a + cl, a + cl + 1)[0]);
    assert(s[a + cl] == B_COMMA);
    assert(s[k] == s.subrange(k, k + 1)[0]);
    assert(s[k] == B_SEMI);
    // the code scans to its own end
    assert forall|t: int| a <= t < a + cl implies is_alnum(#[trigger] s[t]) by {
        assert(s.subrange(a, a + cl)[t - a] == s[t]);
    }
    assert(!is_alnum(s[a + cl]));
    lemma_alnum_run_embedded(s, a, a + cl);
    assert(alnum_run_end(s, a) == a + cl);
    // its rows parse back
    assert(s.subrange(a + cl + 1, a + cl + 1 + rws.len()) == rws);
    lemma_parse_rows_at(s, a + cl + 1, sec.rows, eol);
    assert(spec_parse_rows(s, a + cl + 1, eol) == Some((sec.rows, k)));
    // the trailing line breaks are counted back
    lemma_not_at_eol(s, end, eol);
    lemma_eol_run_embedded(s, k + 1, sec.trailing_newlines, eol);
    assert(eol_run(s, k + 1, eol) == (sec.trailing_newlines, end));
    // the identifier round-trips through the table
    lemma_code_table_bijective(sec.identifier);
    assert(spec_id_of_code(s.subrange(a, a + cl)) == sec.identifier);
    assert(spec_parse_section(s, a, eol) == Some(
        (
            SectionView {
                identifier: sec.identifier,
                rows: sec.rows,
                trailing_newlines: sec.trailing_newlines,
            },
            end,
        ),
    ));
    assert(SectionView {
        identifier: sec.identifier,
        rows: sec.rows,
        trailing_newlines: sec.trailing_newlines,
    } == sec);
}

/// Rendered sections, filling the input to its end, parse back to exactly
/// that sequence of sections.
#[verifier::rlimit(100)]
proof fn lemma_parse_sections_at(s: Seq<u8>, a: int, ss: Seq<SectionView>, eol: Eol)
    requires
        forall|i: int| 0 <= i < ss.len() ==> wf_section(#[trigger] ss[i]),
        0 <= a,
        a + ser_sections(ss, eol).len() == s.len(),
        s.subrange(a, s.len() as int) == ser_sections(ss, eol),
    ensures
        spec_parse_sections(s, a, eol) == Some((ss, s.len() as int)),
    decreases ss.len(),
{
    if ss.len() == 0 {
        assert(a == s.len());
    } else {
        let s0 = ser_section(ss[0], eol);
        let rest = ser_sections(ss.skip(1), eol);
        assert(ser_sections(ss, eol) == s0 + rest);
        lemma_concat_embedded(s, a, s0, rest);
        lemma_ser_section_first(ss[0], eol);
        let a1 = a + s0.len() as int;
        if ss.len() == 1 {
            assert(rest =~= Seq::<u8>::empty());
            assert(a1 == s.len());
            lemma_parse_section_at(s, a, ss[0], eol);
        } else {
            lemma_ser_section_first(ss[1], eol);
            assert(ser_sections(ss.skip(1), eol) == ser_section(ss.skip(1)[0], eol)
                + ser_sections(ss.skip(1).skip(1), eol));
            assert(ss.skip(1)[0] == ss[1]);
            assert(rest[0] == ser_section(ss[1], eol)[0]);
            assert(s[a1] == s.subrange(a1, s.len() as int)[0]);
            assert(s[a1] == rest[0]);
            assert(s[a1] != B_CR && s[a1] != B_LF);
            lemma_parse_section_at(s, a, ss[0], eol);
        }
        assert(spec_parse_section(s, a, eol) == Some((ss[0], a1)));
        assert forall|i: int| 0 <= i < ss.skip(1).len() implies wf_section(
            #[trigger] ss.skip(1)[i],
        ) by {
            assert(ss.skip(1)[i] == ss[i + 1]);
        }
        lemma_parse_sections_at(s, a1, ss.skip(1), eol);
        assert(spec_parse_sections(s, a1, eol) == Some((ss.skip(1), s.len() as int)));
        assert(a < a1 <= s.len());
        assert(spec_parse_sections(s, a, eol) == Some(
            (seq![ss[0]] + ss.skip(1), s.len() as int),
        ));
        assert(seq![ss[0]] + ss.skip(1) =~= ss);
    }
}

/// A rendered header line parses back to its text.
proof fn lemma_parse_header_at(s: Seq<u8>, a: int, h: Seq<u8>, eol: Eol)
    requires
        wf_header(h),
        0 <= a,
        a + ser_header(h, eol).len() <= s.len(),
        s.subrange(a, a + ser_header(h, eol).len()) == ser_header(h, eol),
    ensures
        spec_parse_header(s, a, eol) == Some((h, a + ser_header(h, eol).len())),
{
    let end = a + ser_header(h, eol).len() as int;
    let hl = h.len() as int;
    assert(ser_header(h, eol) =~= seq![B_BACKSLASH, B_SPACE] + (h + eol_bytes(eol)));
    lemma_concat_embedded(s, a, seq![B_BACKSLASH, B_SPACE], h + eol_bytes(eol));
    lemma_concat_embedded(s, a + 2, h, eol_bytes(eol));
    assert(s[a] == s.subrange(a, a + 2)[0]);
    assert(s[a + 1] == s.subrange(a, a + 2)[1]);
    assert(s[a] == B_BACKSLASH && s[a + 1] == B_SPACE);
    assert forall|t: int| a + 2 <= t < a + 2 + hl implies #[trigger] s[t] != B_CR && s[t]
        != B_LF by {
        assert(s.subrange(a + 2, a + 2 + hl)[t - (a + 2)] == s[t]);
        assert(h[t - (a + 2)] != B_CR && h[t - (a + 2)] != B_LF);
    }
    let j = a + 2 + hl;
    assert(s[j] == s.subrange(j, end)[0]);
    assert(s[j] == eol_bytes(eol)[0]);
    assert(s[j] == B_CR || s[j] == B_LF);
    lemma_text_run_embedded(s, a + 2, j);
    assert(text_run_end(s, a + 2) == j);
    if eol_bytes(eol).len() == 2 {
        assert(s[j + 1] == s.subrange(j, end)[1]);
        assert(s[j + 1] == eol_bytes(eol)[1]);
    }
    assert(at_eol(s, j, eol));
    assert(s.subrange(a + 2, j) == h);
}

/// Rendered header lines, embedded before anything that is not a header
/// marker, parse back to exactly those lines.
proof fn lemma_parse_headers_at(s: Seq<u8>, a: int, hs: Seq<Seq<u8>>, eol: Eol)
    requires
        hs.len() >= 1,
        forall|i: int| 0 <= i < hs.len() ==> wf_header(#[trigger] hs[i]),
        0 <= a,
        a + ser_headers(hs, eol).len() <= s.len(),
        s.subrange(a, a + ser_headers(hs, eol).len()) == ser_headers(hs, eol),
        ({
            let end = a + ser_headers(hs, eol).len();
            end == s.len() || s[end] != B_BACKSLASH
        }),
    ensures
        spec_parse_headers(s, a, eol) == Some((hs, a + ser_headers(hs, eol).len())),
    decreases hs.len(),
{
    let end = a + ser_headers(hs, eol).len() as int;
    let h0 = ser_header(hs[0], eol);
    let rest = ser_headers(hs.skip(1), eol);
    assert(ser_headers(hs, eol) == h0 + rest);
    lemma_concat_embedded(s, a, h0, rest);
    lemma_parse_header_at(s, a, hs[0], eol);
    let a1 = a + h0.len() as int;
    assert(spec_parse_header(s, a, eol) == Some((hs[0], a1)));
    if hs.len() == 1 {
        assert(rest =~= Seq::<u8>::empty());
        assert(a1 == end);
        assert(spec_parse_header(s, end, eol) is None);
        assert(spec_parse_headers(s, end, eol) is None);
        assert(spec_parse_headers(s, a, eol) == Some((seq![hs[0]], end)));
        assert(seq![hs[0]] =~= hs);
    } else {
        assert forall|i: int| 0 <= i < hs.skip(1).len() implies wf_header(
            #[trigger] hs.skip(1)[i],
        ) by {
            assert(hs.skip(1)[i] == hs[i + 1]);
        }
        lemma_parse_headers_at(s, a1, hs.skip(1), eol);
        assert(spec_parse_headers(s, a1, eol) == Some((hs.skip(1), end)));
        assert(spec_parse_headers(s, a, eol) == Some((seq![hs[0]] + hs.skip(1), end)));
        assert(seq![hs[0]] + hs.skip(1) =~= hs);
    }
}

// ---------------------------------------------------------------------------
// The round-trip theorem.
// ---------------------------------------------------------------------------

/// The line-ending detection reads off the model's own choice.
#[verifier::rlimit(60)]
proof fn lemma_doc_detect(m: ShowfileView)
    requires
        wf_showfile(m),
    ensures
        crate::grammar::detect_eol(ser_showfile(m)) == Some(m.eol),
{
    let eol = m.eol;
    let el = eol_bytes(eol).len() as int;
    let s = ser_showfile(m);
    let h0 = m.headers[0];
    let sh0 = ser_header(h0, eol);
    let hs = ser_headers(m.headers, eol);
    assert(hs == sh0 + ser_headers(m.headers.skip(1), eol));
    let tail = ser_headers(m.headers.skip(1), eol) + (repeat_bytes(eol_bytes(eol), m.header_gap)
        + ser_sections(m.sections, eol));
    assert(s =~= sh0 + tail);
    assert(s.subrange(0, s.len() as int) =~= s);
    lemma_concat_embedded(s, 0, sh0, tail);
    let hl = h0.len() as int;
    assert(sh0 =~= seq![B_BACKSLASH, B_SPACE] + (h0 + eol_bytes(eol)));
    lemma_concat_embedded(s, 0, seq![B_BACKSLASH, B_SPACE], h0 + eol_bytes(eol));
    lemma_concat_embedded(s, 2, h0, eol_bytes(eol));
    assert(s[0] == s.subrange(0, 2)[0]);
    assert(s[1] == s.subrange(0, 2)[1]);
    assert(s[0] == B_BACKSLASH && s[1] == B_SPACE);
    assert forall|t: int| 0 <= t < 2 + hl implies #[trigger] s[t] != B_CR && s[t] != B_LF by {
        if t >= 2 {
            assert(s.subrange(2, 2 + hl)[t - 2] == s[t]);
            assert(h0[t - 2] != B_CR && h0[t - 2] != B_LF);
        }
    }
    let brk = 2 + hl;
    assert(s[brk] == s.subrange(brk, brk + el)[0]);
    assert(s[brk] == eol_bytes(eol)[0]);
    lemma_text_run_embedded(s, 0, brk);
    assert(text_run_end(s, 0) == brk);
    if el == 2 {
        assert(s[brk + 1] == s.subrange(brk, brk + el)[1]);
        assert(s[brk + 1] == eol_bytes(eol)[1]);
    }
    match eol {
        Eol::Lf => {
            assert(s[brk] == B_LF);
        },
        Eol::CrLf => {
            assert(s[brk] == B_CR && s[brk + 1] == B_LF);
            assert(s[brk] != B_LF);
        },
    }
}

/// The byte after the headers in a rendered document, if any, is not a
/// header marker, and the byte after the header gap, if any, is not a line
/// break.
#[verifier::rlimit(60)]
proof fn lemma_doc_tail_bytes(m: ShowfileView)
    requires
        wf_showfile(m),
    ensures
        ({
            let s = ser_showfile(m);
            let hend = ser_headers(m.headers, m.eol).len() as int;
            let rep = repeat_bytes(eol_bytes(m.eol), m.header_gap);
            let j = hend + rep.len() as int;
            &&& s.len() == hend + rep.len() + ser_sections(m.sections, m.eol).len()
            &&& s.subrange(0, hend) == ser_headers(m.headers, m.eol)
            &&& s.subrange(hend, j) == rep
            &&& s.subrange(j, s.len() as int) == ser_sections(m.sections, m.eol)
            &&& (hend == s.len() || s[hend] != B_BACKSLASH)
            &&& (j == s.len() || (s[j] != B_CR && s[j] != B_LF))
        }),
{
    let eol = m.eol;
    let s = ser_showfile(m);
    let hs = ser_headers(m.headers, eol);
    let rep = repeat_bytes(eol_bytes(eol), m.header_gap);
    let ss = ser_sections(m.sections, eol);
    crate::digits::lemma_repeat_len(eol_bytes(eol), m.header_gap);
    assert(s =~= hs + (rep + ss));
    assert(s.subrange(0, s.len() as int) =~= s);
    lemma_concat_embedded(s, 0, hs, rep + ss);
    let hend = hs.len() as int;
    lemma_concat_embedded(s, hend, rep, ss);
    let j = hend + rep.len() as int;
    if m.header_gap >= 1 {
        assert(s[hend] == s.subrange(hend, j)[0]);
        assert(s[hend] == rep[0]);
        assert(rep[0] == eol_bytes(eol)[0]);
        assert(s[hend] != B_BACKSLASH);
    } else if m.sections.len() >= 1 {
        assert(rep.len() == 0);
        assert(ss == ser_section(m.sections[0], eol) + ser_sections(m.sections.skip(1), eol));
        lemma_ser_section_first(m.sections[0], eol);
        assert(s[hend] == s.subrange(hend, s.len() as int)[0]);
        assert(s.subrange(hend, s.len() as int) =~= ss);
        assert(s[hend] == ss[0]);
        assert(ss[0] == ser_section(m.sections[0], eol)[0]);
        assert(s[hend] != B_BACKSLASH);
    } else {
        assert(hend == s.len());
    }
    if m.sections.len() >= 1 {
        assert(ss == ser_section(m.sections[0], eol) + ser_sections(m.sections.skip(1), eol));
        lemma_ser_section_first(m.sections[0], eol);
        assert(s[j] == s.subrange(j, s.len() as int)[0]);
        assert(s[j] == ss[0]);
        assert(s[j] != B_CR && s[j] != B_LF);
    } else {
        assert(j == s.len());
    }
}

/// Parsing what the writer wrote yields the model back, exactly.
#[verifier::rlimit(60)]
pub proof fn lemma_write_then_parse(m: ShowfileView)
    requires
        wf_showfile(m),
    ensures
        spec_parse_showfile(ser_showfile(m)) == Some(m),
{
    let eol = m.eol;
    let s = ser_showfile(m);
    let hs = ser_headers(m.headers, eol);
    let rep = repeat_bytes(eol_bytes(eol), m.header_gap);
    let ss = ser_sections(m.sections, eol);
    let hend = hs.len() as int;
    let j = hend + rep.len() as int;
    lemma_doc_detect(m);
    lemma_doc_tail_bytes(m);
    assert forall|i: int| 0 <= i < m.headers.len() implies wf_header(
        #[trigger] m.headers[i],
    ) by {}
    lemma_parse_headers_at(s, 0, m.headers, eol);
    assert(spec_parse_headers(s, 0, eol) == Some((m.headers, hend)));
    lemma_not_at_eol(s, j, eol);
    crate::digits::lemma_repeat_len(eol_bytes(eol), m.header_gap);
    lemma_eol_run_embedded(s, hend, m.header_gap, eol);
    assert(eol_run(s, hend, eol) == (m.header_gap, j));
    assert forall|i: int| 0 <= i < m.sections.len() implies wf_section(
        #[trigger] m.sections[i],
    ) by {}
    lemma_parse_sections_at(s, j, m.sections, eol);
    assert(spec_parse_sections(s, j, eol) == Some((m.sections, s.len() as int)));
    assert(spec_parse_showfile(s) == Some(
        ShowfileView {
            headers: m.headers,
            header_gap: m.header_gap,
            eol: m.eol,
            sections: m.sections,
        },
    ));
    assert(ShowfileView {
        headers: m.headers,
        header_gap: m.header_gap,
        eol: m.eol,
        sections: m.sections,
    } == m);
}

// ---------------------------------------------------------------------------
// Every parse result is well-formed.
// ---------------------------------------------------------------------------

/// The content the string scanner accepted is well-formed string content.
proof fn lemma_content_wf(s: Seq<u8>, i: int)
    requires
        0 <= i <= s.len(),
        str_content_end(s, i) is Some,
    ensures
        is_str_content(s.subrange(i, str_content_end(s, i).unwrap())),
    decreases s.len() - i,
{
    crate::grammar::lemma_str_content_end_bounds(s, i);
    let j = str_content_end(s, i).unwrap();
    if s[i] == B_QUOTE {
        assert(s.subrange(i, j) =~= Seq::<u8>::empty());
    } else if s[i] == B_BACKSLASH {
        crate::grammar::lemma_str_content_end_bounds(s, i + 2);
        lemma_content_wf(s, i + 2);
        let c = s.subrange(i, j);
        assert(c[0] == B_BACKSLASH);
        assert(c.len() >= 2);
        assert(c.skip(2) =~= s.subrange(i + 2, j));
    } else {
        lemma_content_wf(s, i + 1);
        let c = s.subrange(i, j);
        assert(c[0] == s[i]);
        assert(c.skip(1) =~= s.subrange(i + 1, j));
    }
}

/// The value of a run of hexadecimal digits is below sixteen to its width.
proof fn lemma_hex_val_bound(s: Seq<u8>, i: int, j: int)
    requires
        0 <= i <= j <= s.len(),
        forall|t: int| i <= t < j ==> is_hex_digit(#[trigger] s[t]),
    ensures
        hex_run_val(s, i, j) < pow16((j - i) as nat),
    decreases j - i,
{
    if i < j {
        lemma_hex_val_bound(s, i, j - 1);
        assert(hex_digit_val(s[j - 1]) < 16);
        assert(pow16((j - i) as nat) == 16 * pow16((j - 1 - i) as nat));
    }
}

/// Canonicalizing any parsed digit runs yields a well-formed float.
proof fn lemma_canon_wf(neg: bool, ints: Seq<u8>, fracs: Seq<u8>)
    requires
        all_digits(ints),
        all_digits(fracs),
    ensures
        wf_float(canon_float(neg, ints, fracs)),
{
    crate::parser::lemma_norm_int_digits_shape(ints);
    let ip = norm_int_digits(ints);
    if fracs.len() <= 6 {
        let fp = pad_to_6(fracs);
        assert(fp.len() == 6);
        assert forall|x: int| 0 <= x < fp.len() implies is_digit(#[trigger] fp[x]) by {
            if x < fracs.len() {
                assert(fp[x] == fracs[x]);
            } else {
                assert(fp[x] == zeros((6 - fracs.len()) as nat)[x - fracs.len()]);
            }
        }
    } else {
        let keep = fracs.subrange(0, 6);
        assert forall|x: int| 0 <= x < keep.len() implies is_digit(#[trigger] keep[x]) by {
            assert(keep[x] == fracs[x]);
        }
        if fracs[6] >= B_FIVE {
            let all = ip + keep;
            assert forall|x: int| 0 <= x < all.len() implies is_digit(#[trigger] all[x]) by {
                if x < ip.len() {
                    assert(all[x] == ip[x]);
                } else {
                    assert(all[x] == keep[x - ip.len()]);
                }
            }
            crate::digits::lemma_inc_digits_shape(all);
            let inc = inc_digits(all);
            assert(inc.len() >= 7);
            let ih = inc.subrange(0, inc.len() - 6);
            let fh = inc.subrange(inc.len() - 6, inc.len() as int);
            assert forall|x: int| 0 <= x < ih.len() implies is_digit(#[trigger] ih[x]) by {
                assert(ih[x] == inc[x]);
            }
            assert forall|x: int| 0 <= x < fh.len() implies is_digit(#[trigger] fh[x]) by {
                assert(fh[x] == inc[inc.len() - 6 + x]);
            }
            if ih.len() >= 2 {
                assert(ih[0] == inc[0]);
                if inc.len() == all.len() + 1 {
                    assert(inc[0] == 49);
                } else {
                    assert(all[0] == ip[0]);
                    assert(ip.len() == ih.len());
                    assert(ip[0] != B_ZERO);
                    assert(is_digit(ip[0]));
                    assert(inc[0] == all[0] || inc[0] == all[0] + 1);
                }
                assert(ih[0] != B_ZERO);
            }
        }
    }
}

/// Whatever code the identifier rule consumed, the identifier it yields is
/// well-formed.
proof fn lemma_id_wf(c: Seq<u8>)
    requires
        c.len() >= 1,
        forall|t: int| 0 <= t < c.len() ==> is_alnum(#[trigger] c[t]),
    ensures
        wf_identifier(spec_id_of_code(c)),
{
    match spec_id_of_code(c) {
        SectionIdentifierView::Unknown(u) => {
            assert(u == c);
            assert(!known_code(c));
        },
        _ => {},
    }
}

/// Every field the field rule yields is well-formed.
proof fn lemma_field_wf(s: Seq<u8>, i: int, eol: Eol)
    requires
        0 <= i <= s.len(),
        spec_parse_field(s, i, eol) is Some,
    ensures
        wf_value(spec_parse_field(s, i, eol).unwrap().0),
{
    if spec_parse_string(s, i, eol) is Some {
        lemma_content_wf(s, i + 1);
    } else if spec_parse_hex(s, i, eol) is Some {
        crate::grammar::lemma_hex_run_end_bounds(s, i);
        let j = hex_run_end(s, i);
        lemma_hex_val_bound(s, i, j);
        // the grammar admits the run only when its value fits a u64
        assert(hex_run_val(s, i, j) < 0x1_0000_0000_0000_0000);
        assert((hex_run_val(s, i, j) as u64) as nat == hex_run_val(s, i, j));
    } else {
        if starts_nan(s, i) {
        } else if 0 <= i < s.len() && s[i] == B_MINUS && starts_nan(s, i + 1) {
        } else {
            let i1 = if s[i] == B_MINUS || s[i] == 43 {
                i + 1
            } else {
                i
            };
            crate::grammar::lemma_digit_run_end_bounds(s, i1);
            let j1 = digit_run_end(s, i1);
            if j1 > i1 {
                if j1 < s.len() && s[j1] == B_DOT {
                    crate::grammar::lemma_digit_run_end_bounds(s, j1 + 1);
                    let j2 = digit_run_end(s, j1 + 1);
                    crate::parser::lemma_subrange_digits(s, i1, j1);
                    crate::parser::lemma_subrange_digits(s, j1 + 1, j2);
                    lemma_canon_wf(s[i] == B_MINUS, s.subrange(i1, j1), s.subrange(j1 + 1, j2));
                } else {
                    crate::parser::lemma_subrange_digits(s, i1, j1);
                    lemma_canon_wf(s[i] == B_MINUS, s.subrange(i1, j1), Seq::<u8>::empty());
                }
            } else {
                crate::grammar::lemma_digit_run_end_bounds(s, i1 + 1);
                let j2 = digit_run_end(s, i1 + 1);
                crate::parser::lemma_subrange_digits(s, i1 + 1, j2);
                lemma_canon_wf(s[i] == B_MINUS, Seq::<u8>::empty(), s.subrange(i1 + 1, j2));
            }
        }
    }
}

/// Every field of a parsed run of fields is well-formed.
proof fn lemma_fields_wf(s: Seq<u8>, i: int, eol: Eol)
    requires
        0 <= i <= s.len(),
        spec_parse_fields(s, i, eol) is Some,
    ensures
        ({
            let (vs, c, j) = spec_parse_fields(s, i, eol).unwrap();
            forall|k: int| 0 <= k < vs.len() ==> wf_value(#[trigger] vs[k])
        }),
    decreases s.len() - i,
{
    lemma_field_wf(s, i, eol);
    crate::grammar::lemma_field_bounds(s, i, eol);
    let (v, c, j) = spec_parse_field(s, i, eol).unwrap();
    if c {
        match spec_parse_fields(s, j, eol) {
            None => {},
            Some((vs2, c2, k)) => {
                lemma_fields_wf(s, j, eol);
                let vs = spec_parse_fields(s, i, eol).unwrap().0;
                assert(vs == seq![v] + vs2);
                assert forall|k2: int| 0 <= k2 < vs.len() implies wf_value(
                    #[trigger] vs[k2],
                ) by {
                    if k2 == 0 {
                        assert(vs[0] == v);
                    } else {
                        assert(vs[k2] == vs2[k2 - 1]);
                    }
                }
            },
        }
    }
}

/// Every parsed row is well-formed.
proof fn lemma_row_wf(s: Seq<u8>, i: int, eol: Eol)
    requires
        0 <= i <= s.len(),
        spec_parse_row(s, i, eol) is Some,
    ensures
        wf_row(spec_parse_row(s, i, eol).unwrap().0),
{
    lemma_fields_wf(s, i, eol);
    crate::grammar::lemma_fields_bounds(s, i, eol);
}

/// Every parsed run of rows is section-shaped: all rows well-formed, and a
/// row followed directly by the terminator can only be the last.
proof fn lemma_rows_wf(s: Seq<u8>, i: int, eol: Eol)
    requires
        0 <= i <= s.len(),
        spec_parse_rows(s, i, eol) is Some,
    ensures
        ({
            let (rows, j) = spec_parse_rows(s, i, eol).unwrap();
            &&& forall|k: int| 0 <= k < rows.len() ==> wf_row(#[trigger] rows[k])
            &&& forall|k: int|
                0 <= k < rows.len() - 1 ==> (#[trigger] rows[k]).trailing_newlines >= 1
        }),
    decreases s.len() - i,
{
    lemma_row_wf(s, i, eol);
    crate::grammar::lemma_row_bounds(s, i, eol);
    let (r, j) = spec_parse_row(s, i, eol).unwrap();
    match spec_parse_rows(s, j, eol) {
        None => {},
        Some((rs2, k)) => {
            lemma_rows_wf(s, j, eol);
            let rows = spec_parse_rows(s, i, eol).unwrap().0;
            assert(rows == seq![r] + rs2);
            crate::grammar::lemma_rows_bounds(s, j, eol);
            assert(rs2.len() >= 1);
            // the first row is followed by another, so it ended in line breaks
            assert(r.trailing_newlines >= 1) by {
                if r.trailing_newlines == 0 {
                    assert(s[j] == B_SEMI);
                    lemma_field_none_at_terminator(s, j, eol);
                    assert(spec_parse_fields(s, j, eol) is None);
                    assert(spec_parse_row(s, j, eol) is None);
                    assert(spec_parse_rows(s, j, eol) is None);
                }
            }
            assert forall|k2: int| 0 <= k2 < rows.len() implies wf_row(#[trigger] rows[k2]) by {
                if k2 == 0 {
                    assert(rows[0] == r);
                } else {
                    assert(rows[k2] == rs2[k2 - 1]);
                }
            }
            assert forall|k2: int| 0 <= k2 < rows.len() - 1 implies (#[trigger] rows[k2]).trailing_newlines
                >= 1 by {
                if k2 == 0 {
                    assert(rows[0] == r);
                } else {
                    assert(rows[k2] == rs2[k2 - 1]);
                }
            }
        },
    }
}

/// Every parsed section is well-formed.
proof fn lemma_section_wf(s: Seq<u8>, i: int, eol: Eol)
    requires
        0 <= i <= s.len(),
        spec_parse_section(s, i, eol) is Some,
    ensures
        wf_section(spec_parse_section(s, i, eol).unwrap().0),
{
    crate::grammar::lemma_alnum_run_end_bounds(s, i);
    let j = alnum_run_end(s, i);
    let code = s.subrange(i, j);
    assert forall|t: int| 0 <= t < code.len() implies is_alnum(#[trigger] code[t]) by {
        assert(code[t] == s[i + t]);
    }
    lemma_id_wf(code);
    lemma_rows_wf(s, j + 1, eol);
    crate::grammar::lemma_rows_bounds(s, j + 1, eol);
}

/// Every parsed sequence of sections is well-formed throughout.
proof fn lemma_sections_wf(s: Seq<u8>, i: int, eol: Eol)
    requires
        0 <= i <= s.len(),
        spec_parse_sections(s, i, eol) is Some,
    ensures
        ({
            let (ss, j) = spec_parse_sections(s, i, eol).unwrap();
            forall|k: int| 0 <= k < ss.len() ==> wf_section(#[trigger] ss[k])
        }),
    decreases s.len() - i,
{
    if i < s.len() {
        lemma_section_wf(s, i, eol);
        crate::grammar::lemma_section_bounds(s, i, eol);
        match spec_parse_section(s, i, eol) {
            None => {},
            Some((sec, j)) => {
                match spec_parse_sections(s, j, eol) {
                    None => {},
                    Some((ss2, k)) => {
                        lemma_sections_wf(s, j, eol);
                        let ss = spec_parse_sections(s, i, eol).unwrap().0;
                        assert(ss == seq![sec] + ss2);
                        assert forall|k2: int| 0 <= k2 < ss.len() implies wf_section(
                            #[trigger] ss[k2],
                        ) by {
                            if k2 == 0 {
                                assert(ss[0] == sec);
                            } else {
                                assert(ss[k2] == ss2[k2 - 1]);
                            }
                        }
                    },
                }
            },
        }
    }
}

/// Every parsed header line is free of line breaks.
proof fn lemma_headers_wf(s: Seq<u8>, i: int, eol: Eol)
    requires
        0 <= i <= s.len(),
        spec_parse_headers(s, i, eol) is Some,
    ensures
        ({
            let (hs, j) = spec_parse_headers(s, i, eol).unwrap();
            forall|k: int| 0 <= k < hs.len() ==> wf_header(#[trigger] hs[k])
        }),
    decreases s.len() - i,
{
    let (h, j) = spec_parse_header(s, i, eol).unwrap();
    assert(wf_header(h)) by {
        crate::grammar::lemma_text_run_end_bounds(s, i + 2);
        let e = text_run_end(s, i + 2);
        assert forall|t: int| 0 <= t < h.len() implies #[trigger] h[t] != B_CR && h[t]
            != B_LF by {
            assert(h[t] == s[i + 2 + t]);
        }
    }
    crate::grammar::lemma_header_bounds(s, i, eol);
    match spec_parse_headers(s, j, eol) {
        None => {},
        Some((hs2, k)) => {
            lemma_headers_wf(s, j, eol);
            let hs = spec_parse_headers(s, i, eol).unwrap().0;
            assert(hs == seq![h] + hs2);
            assert forall|k2: int| 0 <= k2 < hs.len() implies wf_header(#[trigger] hs[k2]) by {
                if k2 == 0 {
                    assert(hs[0] == h);
                } else {
                    assert(hs[k2] == hs2[k2 - 1]);
                }
            }
        },
    }
}

/// Whatever the parser accepts is a well-formed model.
pub proof fn lemma_parse_wf(text: Seq<u8>)
    requires
        spec_parse_showfile(text) is Some,
    ensures
        wf_showfile(spec_parse_showfile(text).unwrap()),
{
    let eol = crate::grammar::detect_eol(text).unwrap();
    lemma_headers_wf(text, 0, eol);
    crate::grammar::lemma_headers_bounds(text, 0, eol);
    let (hs, i) = spec_parse_headers(text, 0, eol).unwrap();
    let (gap, j) = eol_run(text, i, eol);
    crate::grammar::lemma_eol_run_bounds(text, i, eol);
    lemma_sections_wf(text, j, eol);
}

// ---------------------------------------------------------------------------
// The public round-trip corollaries.
// ---------------------------------------------------------------------------

/// Any text the writer can produce parses back, and writing the parse
/// reproduces the text byte for byte.
pub proof fn lemma_round_trip(text: Seq<u8>, m: ShowfileView)
    requires
        wf_showfile(m),
        text == ser_showfile(m),
    ensures
        spec_parse_showfile(text) == Some(m),
        ser_showfile(spec_parse_showfile(text).unwrap()) == text,
{
    lemma_write_then_parse(m);
}

/// Parsing, writing, and parsing again changes nothing: the model of a
/// document equals the model of its own re-serialization.
pub proof fn lemma_reparse_identity(text: Seq<u8>)
    requires
        spec_parse_showfile(text) is Some,
    ensures
        spec_parse_showfile(ser_showfile(spec_parse_showfile(text).unwrap()))
            == spec_parse_showfile(text),
{
    lemma_parse_wf(text);
    lemma_write_then_parse(spec_parse_showfile(text).unwrap());
}

// ---------------------------------------------------------------------------
// The arithmetic meaning of float canonicalization.
// ---------------------------------------------------------------------------

/// The whole number of millionths a float field denotes, ignoring its sign.
pub open spec fn float_millionths(f: FloatLitView) -> nat {
    digits_val(f.int_digits) * 1000000 + digits_val(f.frac_digits)
}

/// Canonicalizing a parsed float literal keeps its sign and its magnitude:
/// a literal with at most six fraction digits is scaled up exactly, and a
/// longer one is rounded half away from zero at the sixth fraction digit.
/// The rounding is stated as: the canonical value `n`, in millionths,
/// satisfies `n <= (v + d/2)/d < n + 1` for the literal's value `v` scaled
/// by `d`, written multiplicatively.
#[verifier::rlimit(100)]
pub proof fn lemma_canon_float_value(neg: bool, ints: Seq<u8>, fracs: Seq<u8>)
    requires
        all_digits(ints),
        all_digits(fracs),
    ensures
        canon_float(neg, ints, fracs).neg == neg,
        fracs.len() <= 6 ==> float_millionths(canon_float(neg, ints, fracs))
            == digits_val(ints + fracs) * pow10(
            (6 - fracs.len()) as nat,
        ),
        fracs.len() > 6 ==> ({
            let d = pow10((fracs.len() - 6) as nat);
            let n = float_millionths(canon_float(neg, ints, fracs));
            let v = digits_val(ints + fracs);
            2 * d * n <= 2 * v + d < 2 * d * (n + 1)
        }),
{
    let c = canon_float(neg, ints, fracs);
    lemma_norm_int_digits_val(ints);
    crate::parser::lemma_norm_int_digits_shape(ints);
    let ip = norm_int_digits(ints);
    assert(pow10(6) == 1000000) by {
        reveal_with_fuel(pow10, 7);
    }
    if fracs.len() <= 6 {
        let k = (6 - fracs.len()) as nat;
        lemma_digits_val_zeros(k);
        lemma_digits_val_concat(fracs, zeros(k));
        assert(digits_val(pad_to_6(fracs)) == digits_val(fracs) * pow10(k));
        lemma_digits_val_concat(ints, fracs);
        lemma_pow10_add(fracs.len(), k);
        assert((digits_val(ints) * pow10(fracs.len()) + digits_val(fracs)) * pow10(k)
            == digits_val(ints) * (pow10(fracs.len()) * pow10(k)) + digits_val(fracs) * pow10(
            k,
        )) by (nonlinear_arith);
    } else {
        let k = (fracs.len() - 6) as nat;
        let d = pow10(k);
        lemma_pow10_pos((k - 1) as nat);
        let keep = fracs.subrange(0, 6);
        let dropped = fracs.skip(6);
        assert(all_digits(keep)) by {
            assert(forall|i: int| 0 <= i < keep.len() ==> #[trigger] keep[i] == fracs[i]);
        }
        assert(all_digits(dropped)) by {
            assert(forall|i: int|
                0 <= i < dropped.len() ==> #[trigger] dropped[i] == fracs[i + 6]);
        }
        assert(fracs =~= keep + dropped);
        lemma_digits_val_concat(keep, dropped);
        lemma_digits_val_concat(ints, fracs);
        lemma_digits_val_bound(dropped);
        let b = digits_val(dropped);
        let a = (digits_val(ip) * 1000000 + digits_val(keep)) as nat;
        let v = digits_val(ints + fracs);
        // the literal's value splits as a * d + b
        lemma_pow10_add(6, k);
        assert(v == digits_val(ints) * pow10(fracs.len()) + (digits_val(keep) * d + b));
        assert(pow10(fracs.len()) == pow10(6) * d) by {
            lemma_pow10_add(6, k);
        }
        assert(digits_val(ints) * (pow10(6) * d) + digits_val(keep) * d == (digits_val(ints)
            * pow10(6) + digits_val(keep)) * d) by (nonlinear_arith);
        assert(v == a * d + b);
        // the first dropped digit decides the half comparison
        let first = fracs[6];
        assert(dropped[0] == first);
        assert(dropped =~= seq![first] + dropped.skip(1));
        assert(all_digits(dropped.skip(1))) by {
            assert(forall|i: int|
                0 <= i < dropped.skip(1).len() ==> #[trigger] dropped.skip(1)[i] == dropped[i
                    + 1]);
        }
        assert(all_digits(seq![first])) by {
            assert(seq![first][0] == first);
        }
        lemma_digits_val_concat(seq![first], dropped.skip(1));
        lemma_digits_val_single(first);
        lemma_digits_val_bound(dropped.skip(1));
        let pk1 = pow10((k - 1) as nat);
        assert(d == 10 * pk1);
        assert(b == (first - B_ZERO) * pk1 + digits_val(dropped.skip(1)));
        if first >= B_FIVE {
            assert(2 * b >= d) by (nonlinear_arith)
                requires
                    b == (first - B_ZERO) * pk1 + digits_val(dropped.skip(1)),
                    first >= 53,
                    first <= 57,
                    d == 10 * pk1,
                    pk1 >= 1,
                    digits_val(dropped.skip(1)) >= 0,
            ;
            // the kept digits are incremented: the value gains exactly one
            let all = ip + keep;
            assert(all_digits(all)) by {
                assert(forall|i: int|
                    0 <= i < ip.len() ==> #[trigger] all[i] == ip[i]);
                assert(forall|i: int|
                    ip.len() <= i < all.len() ==> #[trigger] all[i] == keep[i - ip.len()]);
            }
            lemma_digits_val_concat(ip, keep);
            assert(digits_val(all) == a);
            lemma_inc_digits_val(all);
            lemma_inc_digits_shape(all);
            let inc = inc_digits(all);
            assert(inc =~= c.int_digits + c.frac_digits);
            assert(all_digits(c.int_digits)) by {
                assert(forall|i: int|
                    0 <= i < c.int_digits.len() ==> #[trigger] c.int_digits[i] == inc[i]);
            }
            assert(all_digits(c.frac_digits)) by {
                assert(forall|i: int|
                    0 <= i < c.frac_digits.len() ==> #[trigger] c.frac_digits[i] == inc[i
                        + inc.len() - 6]);
            }
            lemma_digits_val_concat(c.int_digits, c.frac_digits);
            assert(c.frac_digits.len() == 6);
            assert(float_millionths(c) == digits_val(inc));
            assert(float_millionths(c) == a + 1);
            assert(2 * d * (a + 1) <= 2 * (a * d + b) + d) by (nonlinear_arith)
                requires
                    2 * b >= d,
                    d >= 1,
                    a >= 0,
            ;
            assert(2 * (a * d + b) + d < 2 * d * (a + 1 + 1)) by (nonlinear_arith)
                requires
                    b < d,
                    d >= 1,
                    a >= 0,
            ;
        } else {
            assert(2 * b < d) by (nonlinear_arith)
                requires
                    b == (first - B_ZERO) * pk1 + digits_val(dropped.skip(1)),
                    48 <= first,
                    first <= 52,
                    d == 10 * pk1,
                    pk1 >= 1,
                    digits_val(dropped.skip(1)) < pk1,
            ;
            assert(float_millionths(c) == a);
            assert(2 * d * a <= 2 * (a * d + b) + d) by (nonlinear_arith)
                requires
                    b >= 0,
                    d >= 1,
                    a >= 0,
            ;
            assert(2 * (a * d + b) + d < 2 * d * (a + 1)) by (nonlinear_arith)
                requires
                    2 * b < d,
                    d >= 1,
                    a >= 0,
            ;
        }
    }
}

} // verus!
