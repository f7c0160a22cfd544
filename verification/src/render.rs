//! The serializer: the byte sequence a model stands for, first as a spec
//! definition and then as a verified writer that produces exactly it.

use vstd::prelude::*;

use crate::digits::{
    hex_char, lemma_repeat_snoc, repeat_bytes, B_BACKSLASH, B_COMMA, B_DOT, B_LOWER_A,
    B_LOWER_N, B_MINUS, B_QUOTE, B_SEMI, B_SPACE,
};
use crate::model::{
    eol_bytes, spec_code_of_id, Eol, FloatLitView, Row, RowView, Section, SectionView, Showfile,
    ShowfileView, Value, ValueView,
};

verus! {

/// The low `w` hexadecimal digits of `v`, most significant first.
pub open spec fn ser_hex_digits(v: u64, w: nat, upper: bool) -> Seq<u8>
    decreases w,
{
    if w == 0 {
        Seq::<u8>::empty()
    } else {
        ser_hex_digits(v / 16, (w - 1) as nat, upper).push(hex_char(v % 16, upper))
    }
}

/// A hexadecimal field rendering: padded to its recorded width, and in
/// upper case exactly when that width is 16.
pub open spec fn ser_hex(v: u64, w: nat) -> Seq<u8> {
    ser_hex_digits(v, w, w == 16)
}

pub open spec fn ser_float(f: FloatLitView) -> Seq<u8> {
    (if f.neg {
        seq![B_MINUS]
    } else {
        Seq::<u8>::empty()
    }) + f.int_digits + seq![B_DOT] + f.frac_digits
}

/// The literal token for a not-a-number field, with its sign.
pub open spec fn nan_bytes(neg: bool) -> Seq<u8> {
    if neg {
        seq![B_MINUS, B_LOWER_N, B_LOWER_A, B_LOWER_N]
    } else {
        seq![B_LOWER_N, B_LOWER_A, B_LOWER_N]
    }
}

pub open spec fn ser_value(v: ValueView) -> Seq<u8> {
    match v {
        ValueView::Str(s) => seq![B_QUOTE] + s + seq![B_QUOTE],
        ValueView::Hex(x, w) => ser_hex(x, w),
        ValueView::Float(f) => ser_float(f),
        ValueView::Nan(n) => nan_bytes(n),
    }
}

/// The fields of a row joined by commas, with a comma after the last field
/// exactly when the row recorded one.
pub open spec fn ser_fields(vs: Seq<ValueView>, trailing_comma: bool) -> Seq<u8>
    decreases vs.len(),
{
    if vs.len() == 0 {
        Seq::<u8>::empty()
    } else if vs.len() == 1 {
        ser_value(vs[0]) + (if trailing_comma {
            seq![B_COMMA]
        } else {
            Seq::<u8>::empty()
        })
    } else {
        ser_value(vs[0]) + seq![B_COMMA] + ser_fields(vs.skip(1), trailing_comma)
    }
}

pub open spec fn ser_row(r: RowView, eol: Eol) -> Seq<u8> {
    ser_fields(r.values, r.trailing_comma) + repeat_bytes(eol_bytes(eol), r.trailing_newlines)
}

pub open spec fn ser_rows(rows: Seq<RowView>, eol: Eol) -> Seq<u8>
    decreases rows.len(),
{
    if rows.len() == 0 {
        Seq::<u8>::empty()
    } else {
        ser_row(rows[0], eol) + ser_rows(rows.skip(1), eol)
    }
}

pub open spec fn ser_section(s: SectionView, eol: Eol) -> Seq<u8> {
    spec_code_of_id(s.identifier) + seq![B_COMMA] + ser_rows(s.rows, eol) + seq![B_SEMI]
        + repeat_bytes(eol_bytes(eol), s.trailing_newlines)
}

pub open spec fn ser_sections(ss: Seq<SectionView>, eol: Eol) -> Seq<u8>
    decreases ss.len(),
{
    if ss.len() == 0 {
        Seq::<u8>::empty()
    } else {
        ser_section(ss[0], eol) + ser_sections(ss.skip(1), eol)
    }
}

/// A header line: its two-byte marker, the text, one line break.
pub open spec fn ser_header(h: Seq<u8>, eol: Eol) -> Seq<u8> {
    seq![B_BACKSLASH, B_SPACE] + h + eol_bytes(eol)
}

pub open spec fn ser_headers(hs: Seq<Seq<u8>>, eol: Eol) -> Seq<u8>
    decreases hs.len(),
{
    if hs.len() == 0 {
        Seq::<u8>::empty()
    } else {
        ser_header(hs[0], eol) + ser_headers(hs.skip(1), eol)
    }
}

/// The whole document: headers, the blank lines separating them from the
/// body, then the sections.
pub open spec fn ser_showfile(m: ShowfileView) -> Seq<u8> {
    ser_headers(m.headers, m.eol) + repeat_bytes(eol_bytes(m.eol), m.header_gap) + ser_sections(
        m.sections,
        m.eol,
    )
}

// ---------------------------------------------------------------------------
// The verified writer.
// ---------------------------------------------------------------------------

fn write_eol(out: &mut Vec<u8>, eol: Eol)
    ensures
        final(out)@ == old(out)@ + eol_bytes(eol),
{
    match eol {
        Eol::Lf => {
            out.push(10u8);
        },
        Eol::CrLf => {
            out.push(13u8);
            out.push(10u8);
        },
    }
    proof {
        assert(out@ =~= old(out)@ + eol_bytes(eol));
    }
}

fn write_eols(out: &mut Vec<u8>, eol: Eol, n: usize)
    ensures
        final(out)@ == old(out)@ + repeat_bytes(eol_bytes(eol), n as nat),
{
    let mut k: usize = 0;
    while k < n
        invariant
            k <= n,
            out@ == old(out)@ + repeat_bytes(eol_bytes(eol), k as nat),
        decreases n - k,
    {
        write_eol(out, eol);
        proof {
            lemma_repeat_snoc(eol_bytes(eol), k as nat);
            assert(out@ =~= old(out)@ + repeat_bytes(eol_bytes(eol), (k + 1) as nat));
        }
        k = k + 1;
    }
}

fn write_bytes(out: &mut Vec<u8>, s: &Vec<u8>)
    ensures
        final(out)@ == old(out)@ + s@,
{
    let mut i: usize = 0;
    while i < s.len()
        invariant
            i <= s@.len(),
            out@ == old(out)@ + s@.subrange(0, i as int),
        decreases s@.len() - i,
    {
        out.push(s[i]);
        i = i + 1;
        proof {
            assert(out@ =~= old(out)@ + s@.subrange(0, i as int));
        }
    }
    proof {
        assert(out@ =~= old(out)@ + s@);
    }
}

fn hex_char_exec(v: u64, upper: bool) -> (r: u8)
    requires
        v < 16,
    ensures
        r == hex_char(v, upper),
{
    if v < 10 {
        48u8 + (v as u8)
    } else if upper {
        65u8 + ((v - 10) as u8)
    } else {
        97u8 + ((v - 10) as u8)
    }
}

fn write_hex_digits(out: &mut Vec<u8>, v: u64, w: usize, upper: bool)
    ensures
        final(out)@ == old(out)@ + ser_hex_digits(v, w as nat, upper),
    decreases w,
{
    if w > 0 {
        write_hex_digits(out, v / 16, w - 1, upper);
        out.push(hex_char_exec(v % 16, upper));
        proof {
            assert(out@ =~= old(out)@ + ser_hex_digits(v, w as nat, upper));
        }
    } else {
        proof {
            assert(out@ =~= old(out)@ + ser_hex_digits(v, 0, upper));
        }
    }
}

fn write_value(out: &mut Vec<u8>, v: &Value)
    ensures
        final(out)@ == old(out)@ + ser_value(v@),
{
    match v {
        Value::Str(s) => {
            out.push(B_QUOTE);
            write_bytes(out, s);
            out.push(B_QUOTE);
            proof {
                assert(out@ =~= old(out)@ + ser_value(v@));
            }
        },
        Value::Hex(x, w) => {
            write_hex_digits(out, *x, *w, *w == 16);
        },
        Value::Float(f) => {
            if f.neg {
                out.push(B_MINUS);
            }
            write_bytes(out, &f.int_digits);
            out.push(B_DOT);
            write_bytes(out, &f.frac_digits);
            proof {
                assert(out@ =~= old(out)@ + ser_value(v@));
            }
        },
        Value::Nan(neg) => {
            if *neg {
                out.push(B_MINUS);
            }
            out.push(B_LOWER_N);
            out.push(B_LOWER_A);
            out.push(B_LOWER_N);
            proof {
                assert(out@ =~= old(out)@ + ser_value(v@));
            }
        },
    }
}

fn write_row(out: &mut Vec<u8>, r: &Row, eol: Eol)
    ensures
        final(out)@ == old(out)@ + ser_row(r@, eol),
{
    let ghost vals: Seq<ValueView> = r@.values;
    proof {
        assert(vals.skip(0) =~= vals);
        assert(out@.subrange(old(out)@.len() as int, out@.len() as int) =~= Seq::<u8>::empty());
        assert(Seq::<u8>::empty() + ser_fields(vals, r@.trailing_comma) =~= ser_fields(
            vals,
            r@.trailing_comma,
        ));
        assert(out@.subrange(0, old(out)@.len() as int) =~= old(out)@);
    }
    let n = r.values.len();
    let mut i: usize = 0;
    while i < n
        invariant
            i <= n,
            n == r.values@.len(),
            vals == r@.values,
            ser_fields(vals, r@.trailing_comma) == out@.subrange(
                old(out)@.len() as int,
                out@.len() as int,
            ) + ser_fields(vals.skip(i as int), r@.trailing_comma),
            out@.len() >= old(out)@.len(),
            out@.subrange(0, old(out)@.len() as int) == old(out)@,
        decreases n - i,
    {
        let ghost before: Seq<u8> = out@;
        let ghost rest: Seq<ValueView> = vals.skip(i as int);
        write_value(out, &r.values[i]);
        proof {
            assert(rest[0] == vals[i as int]);
            assert(r.values@[i as int]@ == vals[i as int]);
        }
        if i + 1 < n || r.trailing_comma {
            out.push(B_COMMA);
        }
        i = i + 1;
        proof {
            assert(vals.skip(i as int) =~= rest.skip(1));
            if i < n {
                // an inner field: a comma was written
                assert(rest.len() > 1);
                assert(ser_fields(rest, r@.trailing_comma) == ser_value(rest[0]) + seq![B_COMMA]
                    + ser_fields(rest.skip(1), r@.trailing_comma));
                assert(out@ =~= before + ser_value(rest[0]) + seq![B_COMMA]);
            } else {
                assert(rest.len() == 1);
                if r@.trailing_comma {
                    assert(out@ =~= before + ser_value(rest[0]) + seq![B_COMMA]);
                } else {
                    assert(out@ =~= before + ser_value(rest[0]));
                }
                assert(ser_fields(rest.skip(1), r@.trailing_comma) =~= Seq::<u8>::empty());
            }
            assert(out@.subrange(0, old(out)@.len() as int) =~= old(out)@);
            assert(ser_fields(vals, r@.trailing_comma) =~= out@.subrange(
                old(out)@.len() as int,
                out@.len() as int,
            ) + ser_fields(vals.skip(i as int), r@.trailing_comma));
        }
    }
    proof {
        assert(vals.skip(n as int) =~= Seq::<ValueView>::empty());
        assert(ser_fields(vals.skip(n as int), r@.trailing_comma) =~= Seq::<u8>::empty());
        assert(out@ =~= old(out)@ + ser_fields(vals, r@.trailing_comma));
    }
    write_eols(out, eol, r.trailing_newlines);
    proof {
        assert(out@ =~= old(out)@ + ser_row(r@, eol));
    }
}

fn write_section(out: &mut Vec<u8>, s: &Section, eol: Eol)
    ensures
        final(out)@ == old(out)@ + ser_section(s@, eol),
{
    let code = s.identifier.to_code();
    write_bytes(out, &code);
    out.push(B_COMMA);
    let ghost rows: Seq<RowView> = s@.rows;
    let ghost base: Seq<u8> = out@;
    proof {
        assert(rows.skip(0) =~= rows);
        assert(out@ =~= base + ser_rows_prefix(rows, 0, eol));
        assert(Seq::<u8>::empty() + ser_rows(rows, eol) =~= ser_rows(rows, eol));
    }
    let n = s.rows.len();
    let mut i: usize = 0;
    while i < n
        invariant
            i <= n,
            n == s.rows@.len(),
            rows == s@.rows,
            out@ == base + ser_rows_prefix(rows, i as int, eol),
            ser_rows(rows, eol) == ser_rows_prefix(rows, i as int, eol) + ser_rows(
                rows.skip(i as int),
                eol,
            ),
        decreases n - i,
    {
        let ghost before: Seq<u8> = out@;
        let ghost rest: Seq<RowView> = rows.skip(i as int);
        write_row(out, &s.rows[i], eol);
        proof {
            assert(rest[0] == rows[i as int]);
            assert(s.rows@[i as int]@ == rows[i as int]);
        }
        i = i + 1;
        proof {
            assert(rows.skip(i as int) =~= rest.skip(1));
            assert(ser_rows_prefix(rows, i as int, eol) =~= ser_rows_prefix(
                rows,
                i - 1,
                eol,
            ) + ser_row(rows[i - 1], eol));
            assert(out@ =~= base + ser_rows_prefix(rows, i as int, eol));
            assert(ser_rows(rest, eol) == ser_row(rest[0], eol) + ser_rows(rest.skip(1), eol));
            assert(ser_rows(rows, eol) =~= ser_rows_prefix(rows, i as int, eol) + ser_rows(
                rows.skip(i as int),
                eol,
            ));
        }
    }
    proof {
        assert(rows.skip(n as int) =~= Seq::<RowView>::empty());
        assert(ser_rows(rows.skip(n as int), eol) =~= Seq::<u8>::empty());
        assert(out@ =~= base + ser_rows(rows, eol));
    }
    out.push(B_SEMI);
    write_eols(out, eol, s.trailing_newlines);
    proof {
        assert(out@ =~= old(out)@ + ser_section(s@, eol));
    }
}

/// The bytes written for the first `i` rows.
pub open spec fn ser_rows_prefix(rows: Seq<RowView>, i: int, eol: Eol) -> Seq<u8>
    decreases i,
{
    if i <= 0 {
        Seq::<u8>::empty()
    } else {
        ser_rows_prefix(rows, i - 1, eol) + ser_row(rows[i - 1], eol)
    }
}

/// The bytes written for the first `i` sections.
pub open spec fn ser_sections_prefix(ss: Seq<SectionView>, i: int, eol: Eol) -> Seq<u8>
    decreases i,
{
    if i <= 0 {
        Seq::<u8>::empty()
    } else {
        ser_sections_prefix(ss, i - 1, eol) + ser_section(ss[i - 1], eol)
    }
}

/// The bytes written for the first `i` headers.
pub open spec fn ser_headers_prefix(hs: Seq<Seq<u8>>, i: int, eol: Eol) -> Seq<u8>
    decreases i,
{
    if i <= 0 {
        Seq::<u8>::empty()
    } else {
        ser_headers_prefix(hs, i - 1, eol) + ser_header(hs[i - 1], eol)
    }
}

/// Write a model back out, byte for byte what the model stands for.
///
/// Total over every model; the round-trip guarantee additionally needs the
/// model to be well-formed (`wf_showfile`).
pub fn showfile_writer(sf: &Showfile) -> (out: Vec<u8>)
    ensures
        out@ == ser_showfile(sf@),
{
    let mut out: Vec<u8> = Vec::new();
    let ghost hs: Seq<Seq<u8>> = sf@.headers;
    let eol = sf.eol;
    proof {
        assert(hs.skip(0) =~= hs);
        assert(out@ =~= ser_headers_prefix(hs, 0, eol));
        assert(Seq::<u8>::empty() + ser_headers(hs, eol) =~= ser_headers(hs, eol));
    }
    let n = sf.headers.len();
    let mut i: usize = 0;
    while i < n
        invariant
            i <= n,
            n == sf.headers@.len(),
            hs == sf@.headers,
            eol == sf@.eol,
            out@ == ser_headers_prefix(hs, i as int, eol),
            ser_headers(hs, eol) == ser_headers_prefix(hs, i as int, eol) + ser_headers(
                hs.skip(i as int),
                eol,
            ),
        decreases n - i,
    {
        let ghost rest: Seq<Seq<u8>> = hs.skip(i as int);
        out.push(B_BACKSLASH);
        out.push(B_SPACE);
        write_bytes(&mut out, &sf.headers[i].0);
        write_eol(&mut out, eol);
        proof {
            assert(rest[0] == hs[i as int]);
            assert(sf.headers@[i as int]@ == hs[i as int]);
        }
        i = i + 1;
        proof {
            assert(hs.skip(i as int) =~= rest.skip(1));
            assert(ser_headers_prefix(hs, i as int, eol) =~= ser_headers_prefix(hs, i - 1, eol)
                + ser_header(hs[i - 1], eol));
            assert(out@ =~= ser_headers_prefix(hs, i as int, eol));
            assert(ser_headers(hs, eol) =~= ser_headers_prefix(hs, i as int, eol) + ser_headers(
                hs.skip(i as int),
                eol,
            ));
        }
    }
    proof {
        assert(hs.skip(n as int) =~= Seq::<Seq<u8>>::empty());
        assert(ser_headers(hs.skip(n as int), eol) =~= Seq::<u8>::empty());
        assert(out@ =~= ser_headers(hs, eol));
    }
    let ghost after_headers: Seq<u8> = out@;
    write_eols(&mut out, eol, sf.header_gap);
    let ghost ss: Seq<SectionView> = sf@.sections;
    let ghost base: Seq<u8> = out@;
    proof {
        assert(ss.skip(0) =~= ss);
        assert(out@ =~= base + ser_sections_prefix(ss, 0, eol));
        assert(Seq::<u8>::empty() + ser_sections(ss, eol) =~= ser_sections(ss, eol));
    }
    let m = sf.sections.len();
    let mut j: usize = 0;
    while j < m
        invariant
            j <= m,
            m == sf.sections@.len(),
            ss == sf@.sections,
            eol == sf@.eol,
            out@ == base + ser_sections_prefix(ss, j as int, eol),
            ser_sections(ss, eol) == ser_sections_prefix(ss, j as int, eol) + ser_sections(
                ss.skip(j as int),
                eol,
            ),
        decreases m - j,
    {
        let ghost rest: Seq<SectionView> = ss.skip(j as int);
        write_section(&mut out, &sf.sections[j], eol);
        proof {
            assert(rest[0] == ss[j as int]);
            assert(sf.sections@[j as int]@ == ss[j as int]);
        }
        j = j + 1;
        proof {
            assert(ss.skip(j as int) =~= rest.skip(1));
            assert(ser_sections_prefix(ss, j as int, eol) =~= ser_sections_prefix(ss, j - 1, eol)
                + ser_section(ss[j - 1], eol));
            assert(out@ =~= base + ser_sections_prefix(ss, j as int, eol));
            assert(ser_sections(ss, eol) =~= ser_sections_prefix(ss, j as int, eol)
                + ser_sections(ss.skip(j as int), eol));
        }
    }
    proof {
        assert(ss.skip(m as int) =~= Seq::<SectionView>::empty());
        assert(ser_sections(ss.skip(m as int), eol) =~= Seq::<u8>::empty());
        assert(out@ =~= ser_showfile(sf@));
    }
    out
}

/// Render a single field exactly as the writer emits it.
pub fn render_value(v: &Value) -> (out: Vec<u8>)
    ensures
        out@ == ser_value(v@),
{
    let mut out: Vec<u8> = Vec::new();
    write_value(&mut out, v);
    proof {
        assert(out@ =~= ser_value(v@));
    }
    out
}

impl Showfile {
    /// Serialize this model; see `showfile_writer`.
    pub fn serialize(&self) -> (out: Vec<u8>)
        ensures
            out@ == ser_showfile(self@),
    {
        showfile_writer(self)
    }
}

} // verus!
