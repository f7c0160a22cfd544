//! Byte constants, byte classes and digit arithmetic shared by the grammar
//! and the writer.

use vstd::prelude::*;

verus! {

pub const B_QUOTE: u8 = 34;

pub const B_BACKSLASH: u8 = 92;

pub const B_COMMA: u8 = 44;

pub const B_SEMI: u8 = 59;

pub const B_CR: u8 = 13;

pub const B_LF: u8 = 10;

pub const B_DOT: u8 = 46;

pub const B_MINUS: u8 = 45;

pub const B_PLUS: u8 = 43;

pub const B_SPACE: u8 = 32;

pub const B_ZERO: u8 = 48;

pub const B_FIVE: u8 = 53;

pub const B_NINE: u8 = 57;

pub const B_ONE: u8 = 49;

pub const B_LOWER_N: u8 = 110;

pub const B_LOWER_A: u8 = 97;

/// ASCII decimal digit.
pub open spec fn is_digit(b: u8) -> bool {
    48 <= b && b <= 57
}

/// ASCII hexadecimal digit, either case.
pub open spec fn is_hex_digit(b: u8) -> bool {
    is_digit(b) || (97 <= b && b <= 102) || (65 <= b && b <= 70)
}

/// ASCII letter or digit, as in a section code.
pub open spec fn is_alnum(b: u8) -> bool {
    is_digit(b) || (97 <= b && b <= 122) || (65 <= b && b <= 90)
}

/// Numeric value of a hexadecimal digit byte.
pub open spec fn hex_digit_val(b: u8) -> u64 {
    if is_digit(b) {
        (b - 48) as u64
    } else if 97 <= b && b <= 102 {
        (b - 97 + 10) as u64
    } else if 65 <= b && b <= 70 {
        (b - 65 + 10) as u64
    } else {
        0
    }
}

/// The digit byte for a value below 16, in the requested case.
pub open spec fn hex_char(v: u64, upper: bool) -> u8 {
    if v < 10 {
        (48 + v) as u8
    } else if upper {
        (65 + (v - 10)) as u8
    } else {
        (97 + (v - 10)) as u8
    }
}

pub open spec fn pow16(n: nat) -> nat
    decreases n,
{
    if n == 0 {
        1
    } else {
        16 * pow16((n - 1) as nat)
    }
}

/// Every byte of the sequence is a decimal digit.
pub open spec fn all_digits(s: Seq<u8>) -> bool {
    forall|i: int| 0 <= i < s.len() ==> is_digit(#[trigger] s[i])
}

/// `n` copies of the ASCII zero digit.
pub open spec fn zeros(n: nat) -> Seq<u8> {
    Seq::new(n, |i: int| B_ZERO)
}

/// `n` copies of the byte sequence `s`, concatenated.
pub open spec fn repeat_bytes(s: Seq<u8>, n: nat) -> Seq<u8>
    decreases n,
{
    if n == 0 {
        Seq::<u8>::empty()
    } else {
        s + repeat_bytes(s, (n - 1) as nat)
    }
}

/// Leading zero digits removed, keeping at least one digit.
pub open spec fn strip_leading_zeros(s: Seq<u8>) -> Seq<u8>
    decreases s.len(),
{
    if s.len() > 1 && s[0] == B_ZERO {
        strip_leading_zeros(s.skip(1))
    } else {
        s
    }
}

/// Integer digits as written, normalized: empty becomes a single zero,
/// superfluous leading zeros go.
pub open spec fn norm_int_digits(s: Seq<u8>) -> Seq<u8> {
    if s.len() == 0 {
        seq![B_ZERO]
    } else {
        strip_leading_zeros(s)
    }
}

/// Fraction digits padded with zeros to exactly six.
pub open spec fn pad_to_6(f: Seq<u8>) -> Seq<u8> {
    f + zeros((6 - f.len()) as nat)
}

/// The highest position whose digit is not a nine, or -1 when all are.
pub open spec fn last_non_nine(s: Seq<u8>) -> int
    decreases s.len(),
{
    if s.len() == 0 {
        -1
    } else if s[s.len() - 1] != B_NINE {
        s.len() - 1
    } else {
        last_non_nine(s.take(s.len() - 1))
    }
}

/// A digit string plus one: the trailing nines roll over to zeros, and a
/// fresh leading one appears when every digit was a nine.
pub open spec fn inc_digits(s: Seq<u8>) -> Seq<u8> {
    let p = last_non_nine(s);
    if p == -1 {
        seq![B_ONE] + zeros(s.len())
    } else {
        s.take(p) + seq![(s[p] + 1) as u8] + zeros((s.len() - 1 - p) as nat)
    }
}

pub proof fn lemma_last_non_nine_range(s: Seq<u8>)
    ensures
        -1 <= last_non_nine(s) < s.len(),
        last_non_nine(s) >= 0 ==> s[last_non_nine(s)] != B_NINE,
        forall|i: int| last_non_nine(s) < i < s.len() ==> #[trigger] s[i] == B_NINE,
    decreases s.len(),
{
    if s.len() > 0 && s[s.len() - 1] == B_NINE {
        lemma_last_non_nine_range(s.take(s.len() - 1));
        assert forall|i: int| last_non_nine(s) < i < s.len() implies #[trigger] s[i]
            == B_NINE by {
            if i < s.len() - 1 {
                assert(s.take(s.len() - 1)[i] == s[i]);
            }
        }
        if last_non_nine(s) >= 0 {
            assert(s.take(s.len() - 1)[last_non_nine(s)] == s[last_non_nine(s)]);
        }
    }
}

/// Incrementing keeps every byte a digit and grows the string by at most
/// one leading one.
pub proof fn lemma_inc_digits_shape(s: Seq<u8>)
    requires
        all_digits(s),
    ensures
        all_digits(inc_digits(s)),
        inc_digits(s).len() == s.len() || inc_digits(s).len() == s.len() + 1,
        inc_digits(s).len() == s.len() + 1 ==> inc_digits(s)[0] == B_ONE,
        inc_digits(s).len() == s.len() ==> s.len() > 0 && (inc_digits(s)[0] == s[0]
            || inc_digits(s)[0] == s[0] + 1),
    decreases s.len(),
{
    lemma_last_non_nine_range(s);
    let p = last_non_nine(s);
    if p == -1 {
        assert forall|i: int| 0 <= i < inc_digits(s).len() implies is_digit(
            #[trigger] inc_digits(s)[i],
        ) by {
            if i > 0 {
                assert(inc_digits(s)[i] == zeros(s.len())[i - 1]);
            }
        }
    } else {
        assert(is_digit(s[p]) && s[p] != B_NINE);
        assert forall|i: int| 0 <= i < inc_digits(s).len() implies is_digit(
            #[trigger] inc_digits(s)[i],
        ) by {
            if i < p {
                assert(inc_digits(s)[i] == s.take(p)[i]);
                assert(s.take(p)[i] == s[i]);
            } else if i == p {
                assert(inc_digits(s)[i] == s[p] + 1);
            } else {
                assert(inc_digits(s)[i] == zeros((s.len() - 1 - p) as nat)[i - p - 1]);
            }
        }
        if p == 0 {
            assert(inc_digits(s)[0] == s[0] + 1);
        } else {
            assert(inc_digits(s)[0] == s.take(p)[0]);
        }
    }
}

/// The number a string of decimal digits denotes.
pub open spec fn digits_val(s: Seq<u8>) -> nat
    decreases s.len(),
{
    if s.len() == 0 {
        0
    } else {
        (digits_val(s.take(s.len() - 1)) * 10 + (s[s.len() - 1] - B_ZERO)) as nat
    }
}

pub open spec fn pow10(n: nat) -> nat
    decreases n,
{
    if n == 0 {
        1
    } else {
        10 * pow10((n - 1) as nat)
    }
}

pub proof fn lemma_pow10_pos(n: nat)
    ensures
        pow10(n) >= 1,
    decreases n,
{
    if n > 0 {
        lemma_pow10_pos((n - 1) as nat);
    }
}

pub proof fn lemma_pow10_add(a: nat, b: nat)
    ensures
        pow10((a + b) as nat) == pow10(a) * pow10(b),
    decreases b,
{
    if b == 0 {
        assert(pow10(a) * 1 == pow10(a)) by (nonlinear_arith);
    } else {
        lemma_pow10_add(a, (b - 1) as nat);
        assert(pow10((a + b) as nat) == 10 * pow10((a + b - 1) as nat));
        assert(10 * (pow10(a) * pow10((b - 1) as nat)) == pow10(a) * (10 * pow10(
            (b - 1) as nat,
        ))) by (nonlinear_arith);
    }
}

/// A single digit's value.
pub proof fn lemma_digits_val_single(b: u8)
    requires
        is_digit(b),
    ensures
        digits_val(seq![b]) == b - B_ZERO,
{
    let s = seq![b];
    assert(s.len() == 1);
    assert(s[0] == b);
    assert(s.take(0) =~= Seq::<u8>::empty());
    assert(digits_val(s.take(0)) == 0);
    assert(digits_val(s) == (digits_val(s.take(0)) * 10 + (s[0] - B_ZERO)) as nat);
}

/// Splitting a digit string splits its value at the right power of ten.
pub proof fn lemma_digits_val_concat(x: Seq<u8>, y: Seq<u8>)
    requires
        all_digits(x),
        all_digits(y),
    ensures
        digits_val(x + y) == digits_val(x) * pow10(y.len()) + digits_val(y),
    decreases y.len(),
{
    if y.len() == 0 {
        assert(x + y =~= x);
        assert(digits_val(x) * 1 == digits_val(x)) by (nonlinear_arith);
    } else {
        let y1 = y.take(y.len() - 1);
        assert(all_digits(y1)) by {
            assert(forall|i: int| 0 <= i < y1.len() ==> #[trigger] y1[i] == y[i]);
        }
        assert((x + y).take((x + y).len() - 1) =~= x + y1);
        assert((x + y)[(x + y).len() - 1] == y[y.len() - 1]);
        assert(is_digit(y[y.len() - 1]));
        lemma_digits_val_concat(x, y1);
        let p1 = pow10((y.len() - 1) as nat);
        assert(pow10(y.len()) == 10 * p1);
        assert(digits_val(x + y) == digits_val(x + y1) * 10 + (y[y.len() - 1] - B_ZERO));
        assert(digits_val(y) == digits_val(y1) * 10 + (y[y.len() - 1] - B_ZERO));
        assert((digits_val(x) * p1 + digits_val(y1)) * 10 == digits_val(x) * (10 * p1)
            + digits_val(y1) * 10) by (nonlinear_arith);
    }
}

/// A digit string's value stays below ten to its length.
pub proof fn lemma_digits_val_bound(s: Seq<u8>)
    requires
        all_digits(s),
    ensures
        digits_val(s) < pow10(s.len()),
    decreases s.len(),
{
    if s.len() > 0 {
        let s1 = s.take(s.len() - 1);
        assert(all_digits(s1)) by {
            assert(forall|i: int| 0 <= i < s1.len() ==> #[trigger] s1[i] == s[i]);
        }
        lemma_digits_val_bound(s1);
        assert(is_digit(s[s.len() - 1]));
        let p1 = pow10((s.len() - 1) as nat);
        assert(digits_val(s1) * 10 <= (p1 - 1) * 10) by (nonlinear_arith)
            requires
                digits_val(s1) <= p1 - 1,
        ;
    }
}

pub proof fn lemma_digits_val_zeros(n: nat)
    ensures
        digits_val(zeros(n)) == 0,
        all_digits(zeros(n)),
    decreases n,
{
    if n > 0 {
        assert(zeros(n).take(n - 1) =~= zeros((n - 1) as nat));
        lemma_digits_val_zeros((n - 1) as nat);
    }
}

/// A string of nines denotes one less than ten to its length.
pub proof fn lemma_digits_val_all_nines(s: Seq<u8>)
    requires
        forall|i: int| 0 <= i < s.len() ==> #[trigger] s[i] == B_NINE,
    ensures
        digits_val(s) == pow10(s.len()) - 1,
    decreases s.len(),
{
    if s.len() > 0 {
        let s1 = s.take(s.len() - 1);
        assert(forall|i: int| 0 <= i < s1.len() ==> #[trigger] s1[i] == s[i]);
        lemma_digits_val_all_nines(s1);
        let p1 = pow10((s.len() - 1) as nat);
        lemma_pow10_pos((s.len() - 1) as nat);
        assert((p1 - 1) * 10 + 9 == 10 * p1 - 1) by (nonlinear_arith)
            requires
                p1 >= 1,
        ;
    }
}

/// Incrementing a digit string adds one to its value.
#[verifier::rlimit(100)]
pub proof fn lemma_inc_digits_val(s: Seq<u8>)
    requires
        all_digits(s),
    ensures
        digits_val(inc_digits(s)) == digits_val(s) + 1,
{
    lemma_last_non_nine_range(s);
    let p = last_non_nine(s);
    if p == -1 {
        lemma_digits_val_all_nines(s);
        lemma_digits_val_zeros(s.len());
        lemma_digits_val_single(B_ONE);
        assert(all_digits(seq![B_ONE]));
        lemma_digits_val_concat(seq![B_ONE], zeros(s.len()));
        lemma_pow10_pos(s.len());
        assert(1 * pow10(s.len()) == pow10(s.len())) by (nonlinear_arith);
    } else {
        let z = (s.len() - 1 - p) as nat;
        let head = s.take(p);
        let d = s[p];
        let nines = s.skip(p + 1);
        assert(is_digit(d) && d != B_NINE);
        assert(all_digits(head)) by {
            assert(forall|i: int| 0 <= i < head.len() ==> #[trigger] head[i] == s[i]);
        }
        assert(forall|i: int| 0 <= i < nines.len() ==> #[trigger] nines[i] == s[p + 1 + i]);
        assert(forall|i: int| 0 <= i < nines.len() ==> #[trigger] nines[i] == B_NINE);
        assert(all_digits(nines));
        assert(all_digits(seq![d]));
        assert(all_digits(seq![(d + 1) as u8]));
        assert(all_digits(head + seq![d])) by {
            assert(forall|i: int|
                0 <= i < head.len() ==> #[trigger] (head + seq![d])[i] == head[i]);
        }
        assert(all_digits(head + seq![(d + 1) as u8])) by {
            assert(forall|i: int|
                0 <= i < head.len() ==> #[trigger] (head + seq![(d + 1) as u8])[i] == head[i]);
        }
        assert(s =~= (head + seq![d]) + nines);
        lemma_digits_val_concat(head + seq![d], nines);
        lemma_digits_val_concat(head, seq![d]);
        lemma_digits_val_all_nines(nines);
        lemma_digits_val_single(d);
        lemma_digits_val_single((d + 1) as u8);
        assert(inc_digits(s) == (head + seq![(d + 1) as u8]) + zeros(z));
        lemma_digits_val_zeros(z);
        lemma_digits_val_concat(head + seq![(d + 1) as u8], zeros(z));
        lemma_digits_val_concat(head, seq![(d + 1) as u8]);
        let h = digits_val(head);
        let pz = pow10(z);
        lemma_pow10_pos(z);
        assert(pow10(1) == 10) by {
            reveal_with_fuel(pow10, 2);
        }
        assert(digits_val(s) == (h * 10 + (d - B_ZERO)) * pz + (pz - 1));
        assert(digits_val(inc_digits(s)) == (h * 10 + (d + 1 - B_ZERO)) * pz);
        assert((h * 10 + (d + 1 - B_ZERO)) * pz == (h * 10 + (d - B_ZERO)) * pz + pz)
            by (nonlinear_arith);
    }
}

/// Leading zeros carry no value.
pub proof fn lemma_strip_leading_zeros_val(s: Seq<u8>)
    requires
        all_digits(s),
    ensures
        digits_val(strip_leading_zeros(s)) == digits_val(s),
    decreases s.len(),
{
    if s.len() > 1 && s[0] == B_ZERO {
        assert(all_digits(s.skip(1))) by {
            assert(forall|i: int|
                0 <= i < s.skip(1).len() ==> #[trigger] s.skip(1)[i] == s[i + 1]);
        }
        lemma_strip_leading_zeros_val(s.skip(1));
        assert(s =~= seq![B_ZERO] + s.skip(1));
        assert(all_digits(seq![B_ZERO]));
        lemma_digits_val_concat(seq![B_ZERO], s.skip(1));
        lemma_digits_val_single(B_ZERO);
        assert(0 * pow10(s.skip(1).len()) == 0) by (nonlinear_arith);
    }
}

pub proof fn lemma_norm_int_digits_val(s: Seq<u8>)
    requires
        all_digits(s),
    ensures
        digits_val(norm_int_digits(s)) == digits_val(s),
{
    if s.len() == 0 {
        lemma_digits_val_single(B_ZERO);
    } else {
        lemma_strip_leading_zeros_val(s);
    }
}

pub proof fn lemma_repeat_len(s: Seq<u8>, n: nat)
    ensures
        repeat_bytes(s, n).len() == n * s.len(),
    decreases n,
{
    if n == 0 {
        assert(n * s.len() == 0) by (nonlinear_arith)
            requires
                n == 0,
        ;
    } else {
        lemma_repeat_len(s, (n - 1) as nat);
        assert(n * s.len() == s.len() + (n - 1) * s.len()) by (nonlinear_arith);
    }
}

/// One more copy extends a repetition on the right as well as on the left.
pub proof fn lemma_repeat_snoc(s: Seq<u8>, n: nat)
    ensures
        repeat_bytes(s, n + 1) == repeat_bytes(s, n) + s,
    decreases n,
{
    if n == 0 {
        assert(repeat_bytes(s, 1) =~= repeat_bytes(s, 0) + s);
    } else {
        lemma_repeat_snoc(s, (n - 1) as nat);
        assert(repeat_bytes(s, n + 1) =~= repeat_bytes(s, n) + s);
    }
}

pub proof fn lemma_hex_char_is_hex_digit(v: u64, upper: bool)
    requires
        v < 16,
    ensures
        is_hex_digit(hex_char(v, upper)),
        hex_digit_val(hex_char(v, upper)) == v,
{
}

} // verus!
