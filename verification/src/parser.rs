//! The executable parser: recursive descent over the input bytes, proved to
//! return exactly what the specification grammar describes.

use vstd::prelude::*;

use crate::digits::{
    all_digits, hex_digit_val, inc_digits, is_alnum, is_digit, is_hex_digit, last_non_nine,
    norm_int_digits, pad_to_6, strip_leading_zeros, zeros, B_BACKSLASH,
    B_COMMA, B_CR, B_DOT, B_FIVE, B_LF, B_LOWER_A, B_LOWER_N, B_MINUS, B_PLUS, B_QUOTE, B_SEMI,
    B_SPACE,
};
use crate::grammar::{
    alnum_run_end, at_eol, canon_float, digit_run_end, eol_run, header_error, hex_run_end,
    hex_run_val, row_error, section_error, sections_stuck_at, showfile_error, spec_delim,
    spec_parse_field, spec_parse_fields, spec_parse_float, spec_parse_header, spec_parse_headers,
    spec_parse_hex, spec_parse_row, spec_parse_rows, spec_parse_section, spec_parse_sections,
    spec_parse_showfile, spec_parse_string, starts_nan, str_content_end,
    lemma_hex_run_end_bounds, lemma_digit_run_end_bounds, lemma_str_content_end_bounds,
};
use crate::model::{
    Eol, FloatLit, Header, ParseError, ParseRule, Row, RowView, Section, SectionIdentifier,
    SectionView, Showfile, Value, ValueView,
};

verus! {

// ---------------------------------------------------------------------------
// Byte classes, executable.
// ---------------------------------------------------------------------------

fn is_digit_b(b: u8) -> (r: bool)
    ensures
        r == is_digit(b),
{
    48 <= b && b <= 57
}

fn is_hex_digit_b(b: u8) -> (r: bool)
    ensures
        r == is_hex_digit(b),
{
    (48 <= b && b <= 57) || (97 <= b && b <= 102) || (65 <= b && b <= 70)
}

fn is_alnum_b(b: u8) -> (r: bool)
    ensures
        r == is_alnum(b),
{
    (48 <= b && b <= 57) || (97 <= b && b <= 122) || (65 <= b && b <= 90)
}

// ---------------------------------------------------------------------------
// Scanners.
// ---------------------------------------------------------------------------

fn scan_hex_run(s: &[u8], i: usize) -> (j: usize)
    requires
        i <= s@.len(),
    ensures
        j == hex_run_end(s@, i as int),
        i <= j <= s@.len(),
{
    let mut j = i;
    while j < s.len() && is_hex_digit_b(s[j])
        invariant
            i <= j <= s@.len(),
            hex_run_end(s@, i as int) == hex_run_end(s@, j as int),
        decreases s@.len() - j,
    {
        j = j + 1;
    }
    j
}

fn scan_digit_run(s: &[u8], i: usize) -> (j: usize)
    requires
        i <= s@.len(),
    ensures
        j == digit_run_end(s@, i as int),
        i <= j <= s@.len(),
{
    let mut j = i;
    while j < s.len() && is_digit_b(s[j])
        invariant
            i <= j <= s@.len(),
            digit_run_end(s@, i as int) == digit_run_end(s@, j as int),
        decreases s@.len() - j,
    {
        j = j + 1;
    }
    j
}

fn scan_alnum_run(s: &[u8], i: usize) -> (j: usize)
    requires
        i <= s@.len(),
    ensures
        j == alnum_run_end(s@, i as int),
        i <= j <= s@.len(),
{
    let mut j = i;
    while j < s.len() && is_alnum_b(s[j])
        invariant
            i <= j <= s@.len(),
            alnum_run_end(s@, i as int) == alnum_run_end(s@, j as int),
        decreases s@.len() - j,
    {
        j = j + 1;
    }
    j
}

fn scan_text_run(s: &[u8], i: usize) -> (j: usize)
    requires
        i <= s@.len(),
    ensures
        j == crate::grammar::text_run_end(s@, i as int),
        i <= j <= s@.len(),
{
    let mut j = i;
    while j < s.len() && s[j] != B_CR && s[j] != B_LF
        invariant
            i <= j <= s@.len(),
            crate::grammar::text_run_end(s@, i as int) == crate::grammar::text_run_end(
                s@,
                j as int,
            ),
        decreases s@.len() - j,
    {
        j = j + 1;
    }
    j
}

fn at_eol_b(s: &[u8], i: usize, eol: Eol) -> (r: bool)
    requires
        i <= s@.len(),
    ensures
        r == at_eol(s@, i as int, eol),
{
    match eol {
        Eol::Lf => i < s.len() && s[i] == B_LF,
        Eol::CrLf => i < s.len() && s[i] == B_CR && i + 1 < s.len() && s[i + 1] == B_LF,
    }
}

fn scan_eol_run(s: &[u8], i: usize, eol: Eol) -> (r: (usize, usize))
    requires
        i <= s@.len(),
    ensures
        eol_run(s@, i as int, eol) == (r.0 as nat, r.1 as int),
        i <= r.1 <= s@.len(),
        r.0 <= r.1,
{
    let mut n: usize = 0;
    let mut j = i;
    while at_eol_b(s, j, eol)
        invariant
            i <= j <= s@.len(),
            n <= j,
            eol_run(s@, i as int, eol) == ((n + eol_run(s@, j as int, eol).0) as nat, eol_run(
                s@,
                j as int,
                eol,
            ).1),
        decreases s@.len() - j,
    {
        // materialize the length so the position stays in bounds
        let slen = s.len();
        proof {
            assert(j < slen);
        }
        match eol {
            Eol::Lf => {
                j = j + 1;
            },
            Eol::CrLf => {
                j = j + 2;
            },
        }
        n = n + 1;
    }
    (n, j)
}

/// Copy `s[a..b]` into an owned vector.
fn copy_range(s: &[u8], a: usize, b: usize) -> (r: Vec<u8>)
    requires
        a <= b <= s@.len(),
    ensures
        r@ == s@.subrange(a as int, b as int),
{
    let mut out: Vec<u8> = Vec::new();
    let mut k = a;
    while k < b
        invariant
            a <= k <= b <= s@.len(),
            out@ == s@.subrange(a as int, k as int),
        decreases b - k,
    {
        out.push(s[k]);
        k = k + 1;
        proof {
            assert(out@ =~= s@.subrange(a as int, k as int));
        }
    }
    proof {
        assert(out@ =~= s@.subrange(a as int, b as int));
    }
    out
}

// ---------------------------------------------------------------------------
// Field pieces.
// ---------------------------------------------------------------------------

fn find_delim(s: &[u8], i: usize, eol: Eol) -> (r: Option<(bool, usize)>)
    requires
        i <= s@.len(),
    ensures
        match r {
            Some((c, k)) => spec_delim(s@, i as int, eol) == Some((c, k as int)) && i <= k
                <= s@.len(),
            None => spec_delim(s@, i as int, eol) is None,
        },
{
    if i < s.len() && s[i] == B_COMMA {
        Some((true, i + 1))
    } else if i < s.len() && s[i] == B_SEMI {
        Some((false, i))
    } else if at_eol_b(s, i, eol) {
        Some((false, i))
    } else {
        None
    }
}

fn scan_str_content(s: &[u8], i: usize) -> (r: Option<usize>)
    requires
        i <= s@.len(),
    ensures
        match r {
            Some(j) => str_content_end(s@, i as int) == Some(j as int) && i <= j < s@.len(),
            None => str_content_end(s@, i as int) is None,
        },
{
    let mut j = i;
    loop
        invariant
            i <= j <= s@.len(),
            str_content_end(s@, i as int) == str_content_end(s@, j as int),
        decreases s@.len() - j,
    {
        if j >= s.len() {
            proof {
                lemma_str_content_end_bounds(s@, i as int);
            }
            return None;
        }
        let b = s[j];
        if b == B_QUOTE {
            proof {
                lemma_str_content_end_bounds(s@, i as int);
            }
            return Some(j);
        } else if b == B_BACKSLASH {
            if s.len() - j >= 2 {
                j = j + 2;
            } else {
                proof {
                    lemma_str_content_end_bounds(s@, i as int);
                }
                return None;
            }
        } else {
            j = j + 1;
        }
    }
}

/// The numeric value of the hexadecimal run `s[i..j]`, or nothing when it
/// does not fit a `u64`.
fn checked_hex_value(s: &[u8], i: usize, j: usize) -> (r: Option<u64>)
    requires
        i <= j <= s@.len(),
        forall|t: int| i <= t < j ==> is_hex_digit(#[trigger] s@[t]),
    ensures
        match r {
            Some(v) => v == hex_run_val(s@, i as int, j as int) && (hex_run_val(
                s@,
                i as int,
                j as int,
            ) as u64) == v,
            None => hex_run_val(s@, i as int, j as int) >= 0x1_0000_0000_0000_0000,
        },
{
    let mut v: u64 = 0;
    let mut k = i;
    while k < j
        invariant
            i <= k <= j <= s@.len(),
            forall|t: int| i <= t < j ==> is_hex_digit(#[trigger] s@[t]),
            v == hex_run_val(s@, i as int, k as int),
        decreases j - k,
    {
        let b = s[k];
        proof {
            assert(is_hex_digit(s@[k as int]));
        }
        let d: u64 = if 48 <= b && b <= 57 {
            (b - 48) as u64
        } else if 97 <= b && b <= 102 {
            (b - 97 + 10) as u64
        } else {
            (b - 65 + 10) as u64
        };
        proof {
            assert(d == hex_digit_val(s@[k as int]));
        }
        if v >= 0x1000_0000_0000_0000 {
            // one more digit pushes the value past the range of u64
            proof {
                assert(hex_run_val(s@, i as int, k + 1) == v * 16 + d);
                assert(hex_run_val(s@, i as int, k + 1) >= 0x1_0000_0000_0000_0000);
                crate::grammar::lemma_hex_run_val_mono(s@, i as int, k + 1, j as int);
            }
            return None;
        }
        v = v * 16 + d;
        k = k + 1;
    }
    Some(v)
}

// ---------------------------------------------------------------------------
// Float canonicalization, executable.
// ---------------------------------------------------------------------------

/// The integer digits with leading zeros removed; an empty run becomes a
/// single zero.
fn norm_int_exec(ints: &Vec<u8>) -> (r: Vec<u8>)
    ensures
        r@ == norm_int_digits(ints@),
{
    if ints.len() == 0 {
        let mut out: Vec<u8> = Vec::new();
        out.push(48);
        proof {
            assert(out@ =~= norm_int_digits(ints@));
        }
        out
    } else {
        let mut k: usize = 0;
        proof {
            assert(ints@.skip(0) =~= ints@);
        }
        while k < ints.len() - 1 && ints[k] == 48
            invariant
                ints@.len() >= 1,
                k < ints@.len(),
                strip_leading_zeros(ints@) == strip_leading_zeros(ints@.skip(k as int)),
            decreases ints@.len() - k,
        {
            proof {
                assert(ints@.skip(k as int).skip(1) =~= ints@.skip(k + 1));
            }
            k = k + 1;
        }
        proof {
            assert(ints@.skip(k as int)[0] == ints@[k as int]);
            assert(strip_leading_zeros(ints@.skip(k as int)) == ints@.skip(k as int));
        }
        let r = copy_range_vec(ints, k, ints.len());
        proof {
            assert(ints@.subrange(k as int, ints@.len() as int) =~= ints@.skip(k as int));
        }
        r
    }
}

/// Copy `v[a..b]` into an owned vector.
fn copy_range_vec(v: &Vec<u8>, a: usize, b: usize) -> (r: Vec<u8>)
    requires
        a <= b <= v@.len(),
    ensures
        r@ == v@.subrange(a as int, b as int),
{
    copy_range(v.as_slice(), a, b)
}

/// A digit string plus one.
fn inc_digits_exec(v: &Vec<u8>) -> (r: Vec<u8>)
    requires
        all_digits(v@),
    ensures
        r@ == inc_digits(v@),
{
    let mut p: usize = v.len();
    proof {
        assert(v@.take(v@.len() as int) =~= v@);
    }
    while p > 0 && v[p - 1] == 57
        invariant
            p <= v@.len(),
            last_non_nine(v@) == last_non_nine(v@.take(p as int)),
        decreases p,
    {
        proof {
            assert(v@.take(p as int).take(p - 1) =~= v@.take(p - 1));
        }
        p = p - 1;
    }
    if p == 0 {
        proof {
            assert(v@.take(0) =~= Seq::<u8>::empty());
            assert(last_non_nine(v@) == -1);
        }
        let mut out: Vec<u8> = Vec::new();
        out.push(49);
        let mut z: usize = 0;
        while z < v.len()
            invariant
                z <= v@.len(),
                out@ == seq![49u8] + zeros(z as nat),
            decreases v@.len() - z,
        {
            out.push(48);
            z = z + 1;
            proof {
                assert(out@ =~= seq![49u8] + zeros(z as nat));
            }
        }
        proof {
            assert(out@ =~= inc_digits(v@));
        }
        out
    } else {
        proof {
            assert(v@.take(p as int)[p - 1] == v@[p - 1]);
            assert(last_non_nine(v@) == p - 1);
            assert(is_digit(v@[p - 1]));
        }
        let mut out = copy_range_vec(v, 0, p - 1);
        out.push(v[p - 1] + 1);
        let mut z: usize = p;
        while z < v.len()
            invariant
                p <= z <= v@.len(),
                out@ == v@.subrange(0, p - 1) + seq![(v@[p - 1] + 1) as u8] + zeros(
                    (z - p) as nat,
                ),
            decreases v@.len() - z,
        {
            out.push(48);
            z = z + 1;
            proof {
                assert(out@ =~= v@.subrange(0, p - 1) + seq![(v@[p - 1] + 1) as u8] + zeros(
                    (z - p) as nat,
                ));
            }
        }
        proof {
            assert(v@.subrange(0, p - 1) =~= v@.take(p - 1));
            assert(out@ =~= inc_digits(v@));
        }
        out
    }
}

/// Build the canonical float for a parsed literal.
fn canon_float_exec(neg: bool, ints: Vec<u8>, fracs: Vec<u8>) -> (r: FloatLit)
    requires
        all_digits(ints@),
        all_digits(fracs@),
    ensures
        r@ == canon_float(neg, ints@, fracs@),
{
    let ip = norm_int_exec(&ints);
    if fracs.len() <= 6 {
        let mut fp = copy_range_vec(&fracs, 0, fracs.len());
        proof {
            assert(fp@ =~= fracs@);
            assert(fp@ =~= fracs@ + zeros(0));
        }
        while fp.len() < 6
            invariant
                fracs@.len() <= fp@.len() <= 6,
                fp@ == fracs@ + zeros((fp@.len() - fracs@.len()) as nat),
            decreases 6 - fp@.len(),
        {
            fp.push(48);
            proof {
                assert(fp@ =~= fracs@ + zeros((fp@.len() - fracs@.len()) as nat));
            }
        }
        proof {
            assert(fp@ =~= pad_to_6(fracs@));
        }
        FloatLit { neg, int_digits: ip, frac_digits: fp }
    } else {
        let keep = copy_range_vec(&fracs, 0, 6);
        if fracs[6] >= B_FIVE {
            let mut all = ip;
            let mut t: usize = 0;
            let ghost ip_view: Seq<u8> = all@;
            while t < keep.len()
                invariant
                    t <= keep@.len(),
                    all@ == ip_view + keep@.subrange(0, t as int),
                decreases keep@.len() - t,
            {
                all.push(keep[t]);
                t = t + 1;
                proof {
                    assert(all@ =~= ip_view + keep@.subrange(0, t as int));
                }
            }
            proof {
                assert(all@ =~= ip_view + keep@);
                assert(ip_view == norm_int_digits(ints@));
                lemma_norm_int_digits_shape(ints@);
                assert forall|x: int| 0 <= x < all@.len() implies is_digit(
                    #[trigger] all@[x],
                ) by {
                    if x < ip_view.len() {
                        assert(all@[x] == ip_view[x]);
                    } else {
                        assert(all@[x] == keep@[x - ip_view.len()]);
                        assert(keep@[x - ip_view.len()] == fracs@[x - ip_view.len()]);
                    }
                }
                assert(all_digits(all@));
            }
            let inc = inc_digits_exec(&all);
            proof {
                crate::digits::lemma_inc_digits_shape(all@);
                assert(inc@.len() >= 7);
            }
            let int_digits = copy_range_vec(&inc, 0, inc.len() - 6);
            let frac_digits = copy_range_vec(&inc, inc.len() - 6, inc.len());
            FloatLit { neg, int_digits, frac_digits }
        } else {
            FloatLit { neg, int_digits: ip, frac_digits: keep }
        }
    }
}

// ---------------------------------------------------------------------------
// Fields: the three alternatives, in the grammar's fixed order.
// ---------------------------------------------------------------------------

fn parse_string_field(s: &[u8], i: usize, eol: Eol) -> (r: Option<(Value, bool, usize)>)
    requires
        i <= s@.len(),
    ensures
        match r {
            Some((v, c, j)) => spec_parse_string(s@, i as int, eol) == Some((v@, c, j as int))
                && i < j <= s@.len(),
            None => spec_parse_string(s@, i as int, eol) is None,
        },
{
    if i < s.len() && s[i] == B_QUOTE {
        match scan_str_content(s, i + 1) {
            Some(j) => {
                match find_delim(s, j + 1, eol) {
                    Some((c, k)) => {
                        let content = copy_range(s, i + 1, j);
                        Some((Value::Str(content), c, k))
                    },
                    None => None,
                }
            },
            None => None,
        }
    } else {
        None
    }
}

fn parse_hex_field(s: &[u8], i: usize, eol: Eol) -> (r: Option<(Value, bool, usize)>)
    requires
        i <= s@.len(),
    ensures
        match r {
            Some((v, c, j)) => spec_parse_hex(s@, i as int, eol) == Some((v@, c, j as int)) && i
                < j <= s@.len(),
            None => spec_parse_hex(s@, i as int, eol) is None,
        },
{
    let j = scan_hex_run(s, i);
    if j - i >= 1 {
        proof {
            lemma_hex_run_end_bounds(s@, i as int);
        }
        match checked_hex_value(s, i, j) {
            Some(v) => {
                match find_delim(s, j, eol) {
                    Some((c, k)) => Some((Value::Hex(v, j - i), c, k)),
                    None => None,
                }
            },
            None => None,
        }
    } else {
        None
    }
}

fn parse_float_field(s: &[u8], i: usize, eol: Eol) -> (r: Option<(Value, bool, usize)>)
    requires
        i <= s@.len(),
    ensures
        match r {
            Some((v, c, j)) => spec_parse_float(s@, i as int, eol) == Some((v@, c, j as int))
                && i < j <= s@.len(),
            None => spec_parse_float(s@, i as int, eol) is None,
        },
{
    // the literal not-a-number tokens
    if s.len() - i >= 3 && s[i] == B_LOWER_N && s[i + 1] == B_LOWER_A && s[i + 2] == B_LOWER_N {
        proof {
            assert(starts_nan(s@, i as int));
        }
        match find_delim(s, i + 3, eol) {
            Some((c, k)) => {
                return Some((Value::Nan(false), c, k));
            },
            None => {
                return None;
            },
        }
    }
    if i < s.len() && s[i] == B_MINUS && s.len() - i >= 4 && s[i + 1] == B_LOWER_N && s[i + 2]
        == B_LOWER_A && s[i + 3] == B_LOWER_N {
        proof {
            assert(starts_nan(s@, i + 1));
        }
        match find_delim(s, i + 4, eol) {
            Some((c, k)) => {
                return Some((Value::Nan(true), c, k));
            },
            None => {
                return None;
            },
        }
    }
    if i >= s.len() {
        return None;
    }
    // an optionally signed decimal literal
    let neg = s[i] == B_MINUS;
    let i1 = if s[i] == B_MINUS || s[i] == B_PLUS {
        i + 1
    } else {
        i
    };
    let j1 = scan_digit_run(s, i1);
    proof {
        lemma_digit_run_end_bounds(s@, i1 as int);
    }
    if j1 > i1 {
        if j1 < s.len() && s[j1] == B_DOT {
            let j2 = scan_digit_run(s, j1 + 1);
            proof {
                lemma_digit_run_end_bounds(s@, j1 + 1);
            }
            match find_delim(s, j2, eol) {
                Some((c, k)) => {
                    let ints = copy_range(s, i1, j1);
                    let fracs = copy_range(s, j1 + 1, j2);
                    proof {
                        lemma_subrange_digits(s@, i1 as int, j1 as int);
                        lemma_subrange_digits(s@, j1 + 1, j2 as int);
                    }
                    let f = canon_float_exec(neg, ints, fracs);
                    Some((Value::Float(f), c, k))
                },
                None => None,
            }
        } else {
            match find_delim(s, j1, eol) {
                Some((c, k)) => {
                    let ints = copy_range(s, i1, j1);
                    let fracs: Vec<u8> = Vec::new();
                    proof {
                        lemma_subrange_digits(s@, i1 as int, j1 as int);
                        assert(fracs@ =~= Seq::<u8>::empty());
                    }
                    let f = canon_float_exec(neg, ints, fracs);
                    Some((Value::Float(f), c, k))
                },
                None => None,
            }
        }
    } else if i1 < s.len() && s[i1] == B_DOT {
        let j2 = scan_digit_run(s, i1 + 1);
        proof {
            lemma_digit_run_end_bounds(s@, i1 + 1);
        }
        if j2 > i1 + 1 {
            match find_delim(s, j2, eol) {
                Some((c, k)) => {
                    let ints: Vec<u8> = Vec::new();
                    let fracs = copy_range(s, i1 + 1, j2);
                    proof {
                        assert(ints@ =~= Seq::<u8>::empty());
                        lemma_subrange_digits(s@, i1 + 1, j2 as int);
                    }
                    let f = canon_float_exec(neg, ints, fracs);
                    Some((Value::Float(f), c, k))
                },
                None => None,
            }
        } else {
            None
        }
    } else {
        None
    }
}

/// A maximal digit run, cut out of the input, is all digits.
pub proof fn lemma_subrange_digits(s: Seq<u8>, a: int, b: int)
    requires
        0 <= a <= b <= s.len(),
        forall|t: int| a <= t < b ==> is_digit(#[trigger] s[t]),
    ensures
        all_digits(s.subrange(a, b)),
{
    assert forall|x: int| 0 <= x < s.subrange(a, b).len() implies is_digit(
        #[trigger] s.subrange(a, b)[x],
    ) by {
        assert(s.subrange(a, b)[x] == s[a + x]);
    }
}

/// One field: string, then hexadecimal, then float; the first that parses
/// wins.
pub fn parse_value(s: &[u8], i: usize, eol: Eol) -> (r: Result<(Value, bool, usize), ParseError>)
    requires
        i <= s@.len(),
    ensures
        match r {
            Ok((v, c, j)) => spec_parse_field(s@, i as int, eol) == Some((v@, c, j as int)) && i
                < j <= s@.len(),
            Err(e) => spec_parse_field(s@, i as int, eol) is None && e.offset == i
                && e.trace@ == seq![ParseRule::Field] && e.offset <= s@.len(),
        },
{
    match parse_string_field(s, i, eol) {
        Some((v, c, j)) => Ok((v, c, j)),
        None => match parse_hex_field(s, i, eol) {
            Some((v, c, j)) => Ok((v, c, j)),
            None => match parse_float_field(s, i, eol) {
                Some((v, c, j)) => Ok((v, c, j)),
                None => Err(ParseError::new(i, ParseRule::Field)),
            },
        },
    }
}

// ---------------------------------------------------------------------------
// Rows, sections, headers, and the document.
// ---------------------------------------------------------------------------

pub open spec fn vmap(vs: Seq<Value>) -> Seq<ValueView> {
    vs.map_values(|v: Value| v@)
}

pub open spec fn rmap(rs: Seq<Row>) -> Seq<RowView> {
    rs.map_values(|r: Row| r@)
}

pub open spec fn smap(ss: Seq<Section>) -> Seq<SectionView> {
    ss.map_values(|s: Section| s@)
}

pub open spec fn hmap(hs: Seq<Header>) -> Seq<Seq<u8>> {
    hs.map_values(|h: Header| h@)
}

/// One row: a run of fields, then its counted line breaks or a lookahead of
/// the terminator.
pub fn parse_row(s: &[u8], i: usize, eol: Eol) -> (r: Result<(Row, usize), ParseError>)
    requires
        i <= s@.len(),
    ensures
        match r {
            Ok((row, j)) => spec_parse_row(s@, i as int, eol) == Some((row@, j as int)) && i < j
                <= s@.len(),
            Err(e) => spec_parse_row(s@, i as int, eol) is None && e.offset == row_error(
                s@,
                i as int,
                eol,
            ).0 && e.trace@ == row_error(s@, i as int, eol).1 && e.offset <= s@.len(),
        },
{
    let mut vals: Vec<Value> = Vec::new();
    let (v0, c0, p0) = match parse_value(s, i, eol) {
        Ok(t) => t,
        Err(e) => {
            proof {
                assert(seq![ParseRule::Field].push(ParseRule::Row) =~= seq![
                    ParseRule::Field,
                    ParseRule::Row,
                ]);
            }
            return Err(e.within(ParseRule::Row));
        },
    };
    vals.push(v0);
    let mut trailing = c0;
    let mut pos = p0;
    let mut fin = !c0;
    proof {
        assert(vmap(vals@) =~= seq![v0@]);
    }
    while !fin
        invariant
            i < pos <= s@.len(),
            vals@.len() >= 1,
            fin ==> spec_parse_fields(s@, i as int, eol) == Some(
                (vmap(vals@), trailing, pos as int),
            ),
            !fin ==> trailing && (match spec_parse_fields(s@, pos as int, eol) {
                None => spec_parse_fields(s@, i as int, eol) == Some(
                    (vmap(vals@), true, pos as int),
                ),
                Some((vs2, c2, k)) => spec_parse_fields(s@, i as int, eol) == Some(
                    (vmap(vals@) + vs2, c2, k),
                ),
            }),
        ensures
            spec_parse_fields(s@, i as int, eol) == Some((vmap(vals@), trailing, pos as int)),
            i < pos <= s@.len(),
            vals@.len() >= 1,
        decreases s@.len() - pos,
    {
        match parse_value(s, pos, eol) {
            Err(_) => {
                fin = true;
                break ;
            },
            Ok((v, c2, j)) => {
                let ghost old_vals = vals@;
                vals.push(v);
                proof {
                    assert(vmap(vals@) =~= vmap(old_vals) + seq![v@]);
                    if c2 {
                        match spec_parse_fields(s@, j as int, eol) {
                            None => {},
                            Some((vs3, c3, k3)) => {
                                assert((vmap(old_vals) + seq![v@]) + vs3 =~= vmap(old_vals) + (
                                seq![v@] + vs3));
                            },
                        }
                    }
                }
                trailing = c2;
                pos = j;
                fin = !c2;
            },
        }
    }
    let (n, k) = scan_eol_run(s, pos, eol);
    if n >= 1 {
        let row = Row { values: vals, trailing_comma: trailing, trailing_newlines: n };
        Ok((row, k))
    } else if pos < s.len() && s[pos] == B_SEMI {
        let row = Row { values: vals, trailing_comma: trailing, trailing_newlines: 0 };
        Ok((row, pos))
    } else {
        Err(ParseError::new(pos, ParseRule::Row))
    }
}

/// One or more rows, as many as parse.
fn parse_rows(s: &[u8], i: usize, eol: Eol) -> (r: Result<(Vec<Row>, usize), ParseError>)
    requires
        i <= s@.len(),
    ensures
        match r {
            Ok((rows, j)) => spec_parse_rows(s@, i as int, eol) == Some((rmap(rows@), j as int))
                && i < j <= s@.len(),
            Err(e) => spec_parse_rows(s@, i as int, eol) is None && e.offset == row_error(
                s@,
                i as int,
                eol,
            ).0 && e.trace@ == row_error(s@, i as int, eol).1 && e.offset <= s@.len(),
        },
{
    let mut rows: Vec<Row> = Vec::new();
    let (r0, p0) = match parse_row(s, i, eol) {
        Ok(t) => t,
        Err(e) => {
            return Err(e);
        },
    };
    rows.push(r0);
    let mut pos = p0;
    proof {
        assert(rmap(rows@) =~= seq![r0@]);
    }
    loop
        invariant
            i < pos <= s@.len(),
            rows@.len() >= 1,
            (match spec_parse_rows(s@, pos as int, eol) {
                None => spec_parse_rows(s@, i as int, eol) == Some((rmap(rows@), pos as int)),
                Some((rs2, k)) => spec_parse_rows(s@, i as int, eol) == Some(
                    (rmap(rows@) + rs2, k),
                ),
            }),
        ensures
            spec_parse_rows(s@, i as int, eol) == Some((rmap(rows@), pos as int)),
            i < pos <= s@.len(),
            rows@.len() >= 1,
        decreases s@.len() - pos,
    {
        match parse_row(s, pos, eol) {
            Err(_) => {
                break ;
            },
            Ok((row, j)) => {
                let ghost old_rows = rows@;
                rows.push(row);
                proof {
                    assert(rmap(rows@) =~= rmap(old_rows) + seq![row@]);
                    match spec_parse_rows(s@, j as int, eol) {
                        None => {},
                        Some((rs3, k3)) => {
                            assert((rmap(old_rows) + seq![row@]) + rs3 =~= rmap(old_rows) + (
                            seq![row@] + rs3));
                        },
                    }
                }
                pos = j;
            },
        }
    }
    Ok((rows, pos))
}

/// One section: its code, the comma, its rows, the terminator, its counted
/// trailing line breaks.
pub fn parse_section(s: &[u8], i: usize, eol: Eol) -> (r: Result<(Section, usize), ParseError>)
    requires
        i <= s@.len(),
    ensures
        match r {
            Ok((sec, j)) => spec_parse_section(s@, i as int, eol) == Some((sec@, j as int)) && i
                < j <= s@.len(),
            Err(e) => spec_parse_section(s@, i as int, eol) is None && e.offset
                == section_error(s@, i as int, eol).0 && e.trace@ == section_error(
                s@,
                i as int,
                eol,
            ).1 && e.offset <= s@.len(),
        },
{
    let j = scan_alnum_run(s, i);
    if !(j > i && j < s.len() && s[j] == B_COMMA) {
        proof {
            assert(seq![ParseRule::Identifier].push(ParseRule::Section) =~= seq![
                ParseRule::Identifier,
                ParseRule::Section,
            ]);
        }
        return Err(ParseError::new(i, ParseRule::Identifier).within(ParseRule::Section));
    }
    let code = copy_range(s, i, j);
    let identifier = SectionIdentifier::from_code(code.as_slice());
    let (rows, k) = match parse_rows(s, j + 1, eol) {
        Ok(t) => t,
        Err(e) => {
            return Err(e.within(ParseRule::Section));
        },
    };
    if !(k < s.len() && s[k] == B_SEMI) {
        return Err(ParseError::new(k, ParseRule::Section));
    }
    let (n, m) = scan_eol_run(s, k + 1, eol);
    let sec = Section { identifier, rows, trailing_newlines: n };
    Ok((sec, m))
}

/// One header line.
fn parse_header(s: &[u8], i: usize, eol: Eol) -> (r: Result<(Header, usize), ParseError>)
    requires
        i <= s@.len(),
    ensures
        match r {
            Ok((h, j)) => spec_parse_header(s@, i as int, eol) == Some((h@, j as int)) && i < j
                <= s@.len(),
            Err(e) => spec_parse_header(s@, i as int, eol) is None && e.offset == header_error(
                s@,
                i as int,
                eol,
            ).0 && e.trace@ == header_error(s@, i as int, eol).1 && e.offset <= s@.len(),
        },
{
    if s.len() - i >= 2 && s[i] == B_BACKSLASH && s[i + 1] == B_SPACE {
        let j = scan_text_run(s, i + 2);
        if at_eol_b(s, j, eol) {
            let text = copy_range(s, i + 2, j);
            let step: usize = match eol {
                Eol::Lf => 1,
                Eol::CrLf => 2,
            };
            Ok((Header(text), j + step))
        } else {
            Err(ParseError::new(j, ParseRule::Header))
        }
    } else {
        Err(ParseError::new(i, ParseRule::Header))
    }
}

/// One or more header lines, as many as parse.
fn parse_headers(s: &[u8], i: usize, eol: Eol) -> (r: Result<(Vec<Header>, usize), ParseError>)
    requires
        i <= s@.len(),
    ensures
        match r {
            Ok((hs, j)) => spec_parse_headers(s@, i as int, eol) == Some((hmap(hs@), j as int))
                && i < j <= s@.len(),
            Err(e) => spec_parse_headers(s@, i as int, eol) is None && e.offset == header_error(
                s@,
                i as int,
                eol,
            ).0 && e.trace@ == header_error(s@, i as int, eol).1 && e.offset <= s@.len(),
        },
{
    let mut headers: Vec<Header> = Vec::new();
    let (h0, p0) = match parse_header(s, i, eol) {
        Ok(t) => t,
        Err(e) => {
            return Err(e);
        },
    };
    headers.push(h0);
    let mut pos = p0;
    proof {
        assert(hmap(headers@) =~= seq![h0@]);
    }
    loop
        invariant
            i < pos <= s@.len(),
            headers@.len() >= 1,
            (match spec_parse_headers(s@, pos as int, eol) {
                None => spec_parse_headers(s@, i as int, eol) == Some(
                    (hmap(headers@), pos as int),
                ),
                Some((hs2, k)) => spec_parse_headers(s@, i as int, eol) == Some(
                    (hmap(headers@) + hs2, k),
                ),
            }),
        ensures
            spec_parse_headers(s@, i as int, eol) == Some((hmap(headers@), pos as int)),
            i < pos <= s@.len(),
            headers@.len() >= 1,
        decreases s@.len() - pos,
    {
        match parse_header(s, pos, eol) {
            Err(_) => {
                break ;
            },
            Ok((h, j)) => {
                let ghost old_headers = headers@;
                headers.push(h);
                proof {
                    assert(hmap(headers@) =~= hmap(old_headers) + seq![h@]);
                    match spec_parse_headers(s@, j as int, eol) {
                        None => {},
                        Some((hs3, k3)) => {
                            assert((hmap(old_headers) + seq![h@]) + hs3 =~= hmap(old_headers) + (
                            seq![h@] + hs3));
                        },
                    }
                }
                pos = j;
            },
        }
    }
    Ok((headers, pos))
}

/// Sections repeatedly, to the end of the input.
fn parse_sections(s: &[u8], i: usize, eol: Eol) -> (r: Result<(Vec<Section>, usize), ParseError>)
    requires
        i <= s@.len(),
    ensures
        match r {
            Ok((ss, j)) => spec_parse_sections(s@, i as int, eol) == Some(
                (smap(ss@), j as int),
            ) && i <= j <= s@.len() && j == s@.len(),
            Err(e) => spec_parse_sections(s@, i as int, eol) is None && e.offset
                == section_error(s@, sections_stuck_at(s@, i as int, eol), eol).0 && e.trace@
                == section_error(s@, sections_stuck_at(s@, i as int, eol), eol).1 && e.offset
                <= s@.len(),
        },
{
    let mut sections: Vec<Section> = Vec::new();
    let mut pos = i;
    proof {
        assert(smap(sections@) =~= Seq::<SectionView>::empty());
    }
    while pos < s.len()
        invariant
            i <= pos <= s@.len(),
            sections_stuck_at(s@, i as int, eol) == sections_stuck_at(s@, pos as int, eol),
            (match spec_parse_sections(s@, pos as int, eol) {
                None => spec_parse_sections(s@, i as int, eol) is None,
                Some((ss2, k)) => spec_parse_sections(s@, i as int, eol) == Some(
                    (smap(sections@) + ss2, k),
                ),
            }),
        decreases s@.len() - pos,
    {
        match parse_section(s, pos, eol) {
            Err(e) => {
                proof {
                    assert(sections_stuck_at(s@, pos as int, eol) == pos);
                }
                return Err(e);
            },
            Ok((sec, j)) => {
                let ghost old_sections = sections@;
                sections.push(sec);
                proof {
                    assert(smap(sections@) =~= smap(old_sections) + seq![sec@]);
                    match spec_parse_sections(s@, j as int, eol) {
                        None => {},
                        Some((ss3, k3)) => {
                            assert((smap(old_sections) + seq![sec@]) + ss3 =~= smap(old_sections)
                                + (seq![sec@] + ss3));
                        },
                    }
                }
                pos = j;
            },
        }
    }
    proof {
        assert(spec_parse_sections(s@, pos as int, eol) == Some(
            (Seq::<SectionView>::empty(), pos as int),
        ));
        assert(smap(sections@) + Seq::<SectionView>::empty() =~= smap(sections@));
    }
    Ok((sections, pos))
}

/// The line-ending style, read off the first line break.
fn detect_eol_exec(s: &[u8]) -> (r: Option<Eol>)
    ensures
        r == crate::grammar::detect_eol(s@),
{
    let i = scan_text_run(s, 0);
    if i < s.len() {
        if s[i] == B_LF {
            Some(Eol::Lf)
        } else if i + 1 < s.len() && s[i + 1] == B_LF {
            Some(Eol::CrLf)
        } else {
            None
        }
    } else {
        None
    }
}

impl Showfile {
    /// Parse a document; the result is exactly what the specification
    /// grammar yields, it is well-formed, and an error comes exactly when
    /// the grammar yields nothing.
    pub fn parse(input: &[u8]) -> (r: Result<Showfile, ParseError>)
        ensures
            match r {
                Ok(m) => spec_parse_showfile(input@) == Some(m@) && crate::model::wf_showfile(
                    m@,
                ),
                Err(e) => spec_parse_showfile(input@) is None && e.offset <= input@.len()
                    && e.offset == showfile_error(input@).0 && e.trace@ == showfile_error(
                    input@,
                ).1,
            },
    {
        let eol = match detect_eol_exec(input) {
            Some(e) => e,
            None => {
                return Err(ParseError::new(0, ParseRule::Showfile));
            },
        };
        let (headers, i) = match parse_headers(input, 0, eol) {
            Ok(t) => t,
            Err(e) => {
                return Err(e.within(ParseRule::Showfile));
            },
        };
        let (gap, j) = scan_eol_run(input, i, eol);
        if gap == 0 {
            // no line break separates the headers from the body
            return Err(ParseError::new(i, ParseRule::Showfile));
        }
        let (sections, k) = match parse_sections(input, j, eol) {
            Ok(t) => t,
            Err(e) => {
                return Err(e.within(ParseRule::Showfile));
            },
        };
        let m = Showfile { headers, header_gap: gap, eol, sections };
        proof {
            crate::laws::lemma_parse_wf(input@);
        }
        Ok(m)
    }
}

/// Parse a document; see `Showfile::parse`.
pub fn showfile_parser(input: &[u8]) -> (r: Result<Showfile, ParseError>)
    ensures
        match r {
            Ok(m) => spec_parse_showfile(input@) == Some(m@) && crate::model::wf_showfile(m@),
            Err(e) => spec_parse_showfile(input@) is None && e.offset <= input@.len()
                && e.offset == showfile_error(input@).0 && e.trace@ == showfile_error(input@).1,
        },
{
    Showfile::parse(input)
}

/// Normalized integer digits are digits and nonempty.
pub proof fn lemma_norm_int_digits_shape(s: Seq<u8>)
    requires
        all_digits(s),
    ensures
        all_digits(norm_int_digits(s)),
        norm_int_digits(s).len() >= 1,
        norm_int_digits(s).len() == 1 || norm_int_digits(s)[0] != 48,
    decreases s.len(),
{
    if s.len() == 0 {
    } else if s.len() > 1 && s[0] == 48 {
        assert(all_digits(s.skip(1))) by {
            assert(forall|i: int|
                0 <= i < s.skip(1).len() ==> #[trigger] s.skip(1)[i] == s[i + 1]);
        }
        lemma_norm_int_digits_shape(s.skip(1));
        assert(s.skip(1).len() >= 1);
        assert(norm_int_digits(s) == norm_int_digits(s.skip(1)));
    } else {
        assert(strip_leading_zeros(s) == s);
    }
}

} // verus!
