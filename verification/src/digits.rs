//! Decimal digit strings and the natural numbers they denote.

use vstd::prelude::*;

verus! {

/// Ten to the power `n`.
pub open spec fn pow10(n: nat) -> nat
    decreases n,
{
    if n == 0 {
        1
    } else {
        10 * pow10((n - 1) as nat)
    }
}

/// Whether `b` is one of the ASCII digits `0` to `9`.
pub open spec fn is_digit(b: u8) -> bool {
    48 <= b <= 57
}

/// Whether every byte of `s` is an ASCII digit.
pub open spec fn all_digits(s: Seq<u8>) -> bool {
    forall|i: int| 0 <= i < s.len() ==> is_digit(#[trigger] s[i])
}

/// The number that the digit string `s` denotes, most significant digit
/// first; the empty string denotes zero.
pub open spec fn digits_value(s: Seq<u8>) -> nat
    decreases s.len(),
{
    if s.len() == 0 {
        0
    } else {
        digits_value(s.drop_last()) * 10 + (s.last() - 48) as nat
    }
}

/// The shortest decimal text of `n`: no leading zero, and `0` for zero.
pub open spec fn nat_text(n: nat) -> Seq<u8>
    decreases n,
{
    if n < 10 {
        seq![(48 + n) as u8]
    } else {
        nat_text(n / 10).push((48 + n % 10) as u8)
    }
}

/// The last `width` decimal digits of `n`, padded with zeros on the left.
pub open spec fn padded_text(n: nat, width: nat) -> Seq<u8>
    decreases width,
{
    if width == 0 {
        Seq::empty()
    } else {
        padded_text(n / 10, (width - 1) as nat).push((48 + n % 10) as u8)
    }
}

/// A string of `n` zero digits.
pub open spec fn zeros(n: nat) -> Seq<u8> {
    Seq::new(n, |i: int| 48u8)
}

pub proof fn lemma_pow10_positive(n: nat)
    ensures
        pow10(n) >= 1,
    decreases n,
{
    if n > 0 {
        lemma_pow10_positive((n - 1) as nat);
    }
}

/// A digit string of length `k` denotes a number below ten to the `k`.
pub proof fn lemma_value_bound(s: Seq<u8>)
    requires
        all_digits(s),
    ensures
        digits_value(s) < pow10(s.len()),
    decreases s.len(),
{
    if s.len() > 0 {
        lemma_value_bound(s.drop_last());
        assert(is_digit(s[s.len() - 1]));
    }
}

/// Appending digit strings shifts the first by the length of the second.
pub proof fn lemma_value_concat(a: Seq<u8>, b: Seq<u8>)
    ensures
        digits_value(a + b) == digits_value(a) * pow10(b.len()) + digits_value(b),
    decreases b.len(),
{
    if b.len() == 0 {
        assert(a + b =~= a);
        assert(digits_value(a) * 1 == digits_value(a));
    } else {
        let ab = a + b;
        assert(ab.drop_last() =~= a + b.drop_last());
        assert(ab.last() == b.last());
        lemma_value_concat(a, b.drop_last());
        let x = digits_value(a);
        let p = pow10((b.len() - 1) as nat);
        assert((x * p + digits_value(b.drop_last())) * 10 == x * (10 * p) + digits_value(
            b.drop_last(),
        ) * 10) by (nonlinear_arith);
    }
}

/// A string of zeros denotes zero.
pub proof fn lemma_value_zeros(n: nat)
    ensures
        digits_value(zeros(n)) == 0,
        all_digits(zeros(n)),
    decreases n,
{
    if n > 0 {
        lemma_value_zeros((n - 1) as nat);
        assert(zeros(n).drop_last() =~= zeros((n - 1) as nat));
    }
}

/// A digit string denotes zero exactly when all of its digits are zero.
pub proof fn lemma_value_zero_iff(s: Seq<u8>)
    requires
        all_digits(s),
    ensures
        digits_value(s) == 0 <==> (forall|i: int| 0 <= i < s.len() ==> s[i] == 48),
    decreases s.len(),
{
    if s.len() > 0 {
        let t = s.drop_last();
        lemma_value_zero_iff(t);
        assert(is_digit(s[s.len() - 1]));
        if digits_value(s) == 0 {
            assert forall|i: int| 0 <= i < s.len() implies s[i] == 48 by {
                if i < s.len() - 1 {
                    assert(t[i] == s[i]);
                }
            }
        } else {
            if forall|i: int| 0 <= i < s.len() ==> s[i] == 48 {
                assert forall|i: int| 0 <= i < t.len() implies t[i] == 48 by {
                    assert(t[i] == s[i]);
                }
                assert(s[s.len() - 1] == 48);
                assert(false);
            }
        }
    }
}

/// A digit string without a leading zero is the shortest text of the number
/// it denotes.
pub proof fn lemma_nat_text_of_digits(s: Seq<u8>)
    requires
        all_digits(s),
        s.len() >= 1,
        s.len() == 1 || s[0] != 48,
    ensures
        nat_text(digits_value(s)) == s,
    decreases s.len(),
{
    let t = s.drop_last();
    let d = (s.last() - 48) as nat;
    assert(is_digit(s[s.len() - 1]));
    assert(t.len() == 0 ==> digits_value(t) == 0);
    if s.len() == 1 {
        assert(digits_value(s) == d);
        assert(nat_text(d) =~= s);
    } else {
        assert(t[0] == s[0]);
        assert(all_digits(t)) by {
            assert forall|i: int| 0 <= i < t.len() implies is_digit(#[trigger] t[i]) by {
                assert(t[i] == s[i]);
            }
        }
        lemma_nat_text_of_digits(t);
        let v = digits_value(t);
        assert(v >= 1) by {
            lemma_value_zero_iff(t);
            if v == 0 {
                assert(t[0] == 48);
            }
        }
        assert(digits_value(s) == v * 10 + d);
        assert((v * 10 + d) / 10 == v && (v * 10 + d) % 10 == d) by (nonlinear_arith)
            requires
                d < 10,
        ;
        assert(nat_text(digits_value(s)) =~= s);
    }
}

/// A digit string is the zero-padded text, at its own length, of the number
/// it denotes.
pub proof fn lemma_padded_text_of_digits(s: Seq<u8>)
    requires
        all_digits(s),
    ensures
        padded_text(digits_value(s), s.len()) == s,
    decreases s.len(),
{
    if s.len() == 0 {
        assert(padded_text(digits_value(s), 0) =~= s);
    } else {
        let t = s.drop_last();
        let d = (s.last() - 48) as nat;
        assert(is_digit(s[s.len() - 1]));
        assert(all_digits(t)) by {
            assert forall|i: int| 0 <= i < t.len() implies is_digit(#[trigger] t[i]) by {
                assert(t[i] == s[i]);
            }
        }
        lemma_padded_text_of_digits(t);
        let v = digits_value(t);
        assert((v * 10 + d) / 10 == v && (v * 10 + d) % 10 == d) by (nonlinear_arith)
            requires
                d < 10,
        ;
        assert(padded_text(digits_value(s), s.len()) =~= s);
    }
}

/// The shortest text of a number is a digit string without a leading zero
/// that denotes it.
pub proof fn lemma_nat_text_digits(n: nat)
    ensures
        all_digits(nat_text(n)),
        nat_text(n).len() >= 1,
        nat_text(n).len() == 1 || nat_text(n)[0] != 48,
        digits_value(nat_text(n)) == n,
    decreases n,
{
    if n < 10 {
        let s = nat_text(n);
        assert(s.drop_last() =~= Seq::<u8>::empty());
        assert(digits_value(s.drop_last()) == 0);
        assert(s.last() == (48 + n) as u8);
        assert(digits_value(s) == n);
    } else {
        lemma_nat_text_digits(n / 10);
        let t = nat_text(n / 10);
        let s = nat_text(n);
        assert(s.drop_last() =~= t);
        assert(s[0] == t[0]);
        assert(s.last() == (48 + n % 10) as u8);
        assert(digits_value(s) == digits_value(t) * 10 + (n % 10));
        assert((n / 10) * 10 + n % 10 == n);
        assert forall|i: int| 0 <= i < s.len() implies is_digit(#[trigger] s[i]) by {
            if i < t.len() {
                assert(s[i] == t[i]);
            }
        }
        if t.len() == 1 {
            lemma_value_zero_iff(t);
        }
    }
}

/// Appends the shortest decimal text of `n` to `out`.
pub fn append_u128(out: &mut Vec<u8>, n: u128)
    ensures
        final(out)@ == old(out)@ + nat_text(n as nat),
    decreases n,
{
    if n >= 10 {
        append_u128(out, n / 10);
    }
    let digit: u8 = (n % 10) as u8;
    out.push(48 + digit);
    proof {
        if n < 10 {
            assert(final(out)@ =~= old(out)@ + nat_text(n as nat));
        } else {
            assert(old(out)@ + nat_text((n / 10) as nat).push((48 + n % 10) as u8) =~= (old(out)@
                + nat_text((n / 10) as nat)).push((48 + n % 10) as u8));
        }
    }
}

/// Appends the shortest decimal text of `n` to `out`.
pub fn append_usize(out: &mut Vec<u8>, n: usize)
    ensures
        final(out)@ == old(out)@ + nat_text(n as nat),
{
    append_u128(out, n as u128);
}

/// Appends `bytes` to `out`.
pub fn append_bytes(out: &mut Vec<u8>, bytes: &[u8])
    ensures
        final(out)@ == old(out)@ + bytes@,
{
    let mut i: usize = 0;
    while i < bytes.len()
        invariant
            i <= bytes.len(),
            out@ == old(out)@ + bytes@.subrange(0, i as int),
        decreases bytes.len() - i,
    {
        out.push(bytes[i]);
        i += 1;
        assert(out@ =~= old(out)@ + bytes@.subrange(0, i as int));
    }
    assert(bytes@.subrange(0, i as int) =~= bytes@);
}

/// Nines denote one less than the next power of ten.
pub proof fn lemma_value_nines(s: Seq<u8>)
    requires
        forall|i: int| 0 <= i < s.len() ==> s[i] == 57,
    ensures
        digits_value(s) + 1 == pow10(s.len()),
    decreases s.len(),
{
    if s.len() > 0 {
        let t = s.drop_last();
        assert forall|i: int| 0 <= i < t.len() implies t[i] == 57 by {
            assert(t[i] == s[i]);
        }
        lemma_value_nines(t);
        assert(s[s.len() - 1] == 57);
    }
}

/// Every part of a digit string is a digit string.
pub proof fn lemma_all_digits_subrange(s: Seq<u8>, from: int, to: int)
    requires
        all_digits(s),
        0 <= from <= to <= s.len(),
    ensures
        all_digits(s.subrange(from, to)),
{
    assert forall|i: int| 0 <= i < to - from implies is_digit(#[trigger] s.subrange(from, to)[i]) by {
        assert(s.subrange(from, to)[i] == s[from + i]);
    }
}

/// Digit strings joined end to end form a digit string.
pub proof fn lemma_all_digits_concat(a: Seq<u8>, b: Seq<u8>)
    requires
        all_digits(a),
        all_digits(b),
    ensures
        all_digits(a + b),
{
    assert forall|i: int| 0 <= i < (a + b).len() implies is_digit(#[trigger] (a + b)[i]) by {
        if i < a.len() {
            assert((a + b)[i] == a[i]);
        } else {
            assert((a + b)[i] == b[i - a.len()]);
        }
    }
}

/// Powers of ten grow with the exponent.
pub proof fn lemma_pow10_monotonic(a: nat, b: nat)
    requires
        a <= b,
    ensures
        pow10(a) <= pow10(b),
    decreases b - a,
{
    if a < b {
        lemma_pow10_monotonic(a, (b - 1) as nat);
        lemma_pow10_positive((b - 1) as nat);
    }
}

/// A digit string denotes at least what any of its beginnings denotes.
pub proof fn lemma_value_prefix(s: Seq<u8>, k: int)
    requires
        all_digits(s),
        0 <= k <= s.len(),
    ensures
        digits_value(s.subrange(0, k)) <= digits_value(s),
{
    let head = s.subrange(0, k);
    let tail = s.subrange(k, s.len() as int);
    assert(s =~= head + tail);
    lemma_value_concat(head, tail);
    lemma_pow10_positive(tail.len());
    let v = digits_value(head);
    let p = pow10(tail.len());
    assert(v <= v * p) by (nonlinear_arith)
        requires
            p >= 1,
    ;
}

/// The number that `digits` denotes, or `None` where it does not fit.
pub fn digits_to_u64(digits: &[u8]) -> (value: Option<u64>)
    requires
        all_digits(digits@),
    ensures
        value == (if digits_value(digits@) <= u64::MAX {
            Some(digits_value(digits@) as u64)
        } else {
            None
        }),
{
    let mut acc: u64 = 0;
    let mut i: usize = 0;
    assert(digits@.subrange(0, 0) =~= Seq::<u8>::empty());
    while i < digits.len()
        invariant
            i <= digits.len(),
            all_digits(digits@),
            acc == digits_value(digits@.subrange(0, i as int)),
        decreases digits.len() - i,
    {
        let d: u64 = (digits[i] - 48) as u64;
        proof {
            let now = digits@.subrange(0, i + 1);
            assert(now.drop_last() =~= digits@.subrange(0, i as int));
            assert(now.last() == digits@[i as int]);
            assert(digits_value(now) == acc * 10 + d);
            lemma_value_prefix(digits@, i + 1);
        }
        if acc > (u64::MAX - d) / 10 {
            assert(acc * 10 + d > u64::MAX) by (nonlinear_arith)
                requires
                    acc > (u64::MAX - d) / 10,
                    d <= 9,
            ;
            return None;
        }
        assert(acc * 10 + d <= u64::MAX) by (nonlinear_arith)
            requires
                acc <= (u64::MAX - d) / 10,
                d <= 9,
        ;
        acc = acc * 10 + d;
        i += 1;
    }
    assert(digits@.subrange(0, i as int) =~= digits@);
    Some(acc)
}

/// `value * 10^exponent`, or `None` where it does not fit.
pub fn scale_up(value: u64, exponent: usize) -> (scaled: Option<u64>)
    ensures
        scaled == (if value * pow10(exponent as nat) <= u64::MAX {
            Some((value * pow10(exponent as nat)) as u64)
        } else {
            None
        }),
{
    if value == 0 {
        assert(0 * pow10(exponent as nat) == 0);
        return Some(0);
    }
    let mut acc: u64 = value;
    let mut i: usize = 0;
    assert(value * pow10(0) == value) by (nonlinear_arith)
        requires
            pow10(0) == 1,
    ;
    while i < exponent
        invariant
            i <= exponent,
            value >= 1,
            acc == value * pow10(i as nat),
        decreases exponent - i,
    {
        proof {
            lemma_pow10_monotonic((i + 1) as nat, exponent as nat);
            let p = pow10(i as nat);
            let q = pow10(exponent as nat);
            assert(value * (10 * p) == (value * p) * 10) by (nonlinear_arith);
            assert(value * (10 * p) <= value * q) by (nonlinear_arith)
                requires
                    10 * p <= q,
            ;
        }
        if acc > u64::MAX / 10 {
            return None;
        }
        acc = acc * 10;
        i += 1;
    }
    Some(acc)
}

/// The zero-padded text of a number at a width is a digit string of that
/// length that denotes the number modulo ten to the width.
pub proof fn lemma_padded_text_digits(n: nat, width: nat)
    ensures
        all_digits(padded_text(n, width)),
        padded_text(n, width).len() == width,
        digits_value(padded_text(n, width)) == n % pow10(width),
    decreases width,
{
    if width == 0 {
        assert(n % 1 == 0);
    } else {
        let rest = padded_text(n / 10, (width - 1) as nat);
        let s = padded_text(n, width);
        lemma_padded_text_digits(n / 10, (width - 1) as nat);
        assert(s.drop_last() =~= rest);
        assert(s.last() == (48 + n % 10) as u8);
        assert forall|i: int| 0 <= i < s.len() implies is_digit(#[trigger] s[i]) by {
            if i < rest.len() {
                assert(s[i] == rest[i]);
            }
        }
        let p = pow10((width - 1) as nat);
        lemma_pow10_positive((width - 1) as nat);
        let a = n / 10;
        let d = n % 10;
        let q = a / p;
        let r = a % p;
        assert(digits_value(s) == r * 10 + d);
        vstd::arithmetic::div_mod::lemma_fundamental_div_mod(a as int, p as int);
        assert(a == p * q + r);
        assert(n == q * (10 * p) + (r * 10 + d)) by (nonlinear_arith)
            requires
                n == 10 * a + d,
                a == p * q + r,
        ;
        vstd::arithmetic::div_mod::lemma_fundamental_div_mod_converse(
            n as int,
            (10 * p) as int,
            q as int,
            (r * 10 + d) as int,
        );
    }
}

} // verus!
