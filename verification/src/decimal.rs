//! Exact decimal numbers: the numeric values of the format, read from and
//! written as fixed-point text without loss.

use crate::digits::{
    all_digits, append_bytes, append_u128, digits_to_u64, digits_value, lemma_nat_text_digits,
    lemma_padded_text_digits,
    scale_up, is_digit, lemma_all_digits_concat,
    lemma_all_digits_subrange, lemma_nat_text_of_digits, lemma_padded_text_of_digits,
    lemma_pow10_positive, lemma_value_bound, lemma_value_concat, lemma_value_nines,
    lemma_value_zero_iff, lemma_value_zeros, nat_text, padded_text, pow10, zeros,
};
use vstd::arithmetic::div_mod::lemma_fundamental_div_mod_converse;
use vstd::prelude::*;

verus! {

/// What a decimal number is: `mantissa / 10^scale`, negated where `negative`.
/// A negative zero keeps its sign.
pub struct DecimalView {
    pub negative: bool,
    pub mantissa: nat,
    pub scale: nat,
}

/// `m / unit` rounded to the nearest integer, a tie going to the even one.
pub open spec fn round_half_even(m: nat, unit: nat) -> nat {
    let q = m / unit;
    let r = m % unit;
    if 2 * r > unit || (2 * r == unit && q % 2 == 1) {
        q + 1
    } else {
        q
    }
}

/// The magnitude of `v` in units of `10^-places`: exact where `v` has no
/// more than `places` fractional digits, else rounded half to even.
pub open spec fn scaled_to(v: DecimalView, places: nat) -> nat {
    if v.scale <= places {
        v.mantissa * pow10((places - v.scale) as nat)
    } else {
        round_half_even(v.mantissa, pow10((v.scale - places) as nat))
    }
}

/// The magnitude of `v` in units of `10^-places`, cut off towards zero.
pub open spec fn truncated_to(v: DecimalView, places: nat) -> nat {
    if v.scale <= places {
        v.mantissa * pow10((places - v.scale) as nat)
    } else {
        v.mantissa / pow10((v.scale - places) as nat)
    }
}

/// `v` rounded to `places` fractional digits.
pub open spec fn rounded(v: DecimalView, places: nat) -> DecimalView {
    DecimalView { negative: v.negative, mantissa: scaled_to(v, places), scale: places }
}

pub open spec fn sign_text(negative: bool) -> Seq<u8> {
    if negative {
        seq!['-' as u8]
    } else {
        Seq::empty()
    }
}

/// The fractional part of a fixed-point text: nothing at zero places, else a
/// point and exactly `places` digits.
pub open spec fn fraction_text(units: nat, places: nat) -> Seq<u8> {
    if places == 0 {
        Seq::empty()
    } else {
        seq!['.' as u8] + padded_text(units % pow10(places), places)
    }
}

/// Fixed-point text of `units / 10^places`: sign, integer part without
/// leading zeros, and `places` fractional digits padded with zeros.
pub open spec fn fixed_point_text(negative: bool, units: nat, places: nat) -> Seq<u8> {
    sign_text(negative) + nat_text(units / pow10(places)) + fraction_text(units, places)
}

/// The text of `v` with exactly `places` fractional digits.
pub open spec fn fixed_text(v: DecimalView, places: nat) -> Seq<u8> {
    fixed_point_text(v.negative, scaled_to(v, places), places)
}

/// The number of leading sign bytes of `s`: one for `-` or `+`, else none.
pub open spec fn sign_len(s: Seq<u8>) -> int {
    if s.len() > 0 && (s[0] == '-' as u8 || s[0] == '+' as u8) {
        1
    } else {
        0
    }
}

/// Where the run of digits that starts at `from` ends.
pub open spec fn digit_run_end(s: Seq<u8>, from: int) -> int
    decreases s.len() - from,
{
    if 0 <= from < s.len() && is_digit(s[from]) {
        digit_run_end(s, from + 1)
    } else {
        from
    }
}

/// The number that the literal `s` denotes: an optional sign, digits, and
/// optionally a point and more digits, with at least one digit in all.
/// Anything else, an exponent included, is no literal.
pub open spec fn parse_decimal(s: Seq<u8>) -> Option<DecimalView> {
    let a = sign_len(s);
    let b = digit_run_end(s, a);
    let negative = a == 1 && s[0] == '-' as u8;
    if b == s.len() {
        if b > a {
            Some(DecimalView { negative, mantissa: digits_value(s.subrange(a, b)), scale: 0 })
        } else {
            None
        }
    } else if s[b] == '.' as u8 {
        let c = digit_run_end(s, b + 1);
        if c == s.len() && c - a >= 2 {
            Some(
                DecimalView {
                    negative,
                    mantissa: digits_value(s.subrange(a, b) + s.subrange(b + 1, c)),
                    scale: (c - b - 1) as nat,
                },
            )
        } else {
            None
        }
    } else {
        None
    }
}

/// An exact decimal number of any length.
#[derive(Debug, PartialEq, Eq)]
pub struct Decimal {
    negative: bool,
    digits: Vec<u8>,
    scale: usize,
}

impl View for Decimal {
    type V = DecimalView;

    closed spec fn view(&self) -> DecimalView {
        DecimalView {
            negative: self.negative,
            mantissa: digits_value(self.digits@),
            scale: self.scale as nat,
        }
    }
}

impl Decimal {
    #[verifier::type_invariant]
    spec fn well_formed(&self) -> bool {
        all_digits(self.digits@) && self.scale <= self.digits.len()
    }
}

/// The run of digits that starts at `from` ends where the run from any
/// place inside it ends.
proof fn lemma_digit_run_step(s: Seq<u8>, from: int, at: int)
    requires
        0 <= from <= at <= s.len(),
        forall|i: int| from <= i < at ==> is_digit(#[trigger] s[i]),
    ensures
        digit_run_end(s, from) == digit_run_end(s, at),
    decreases at - from,
{
    if from < at {
        lemma_digit_run_step(s, from + 1, at);
    }
}

/// Copies the digits of `text` from `from` on to `digits`, up to the first
/// byte that is no digit, and returns where that byte stands.
fn take_digits(text: &[u8], from: usize, digits: &mut Vec<u8>) -> (end: usize)
    requires
        from <= text.len(),
        all_digits(old(digits)@),
    ensures
        from <= end <= text.len(),
        end == digit_run_end(text@, from as int),
        final(digits)@ == old(digits)@ + text@.subrange(from as int, end as int),
        all_digits(final(digits)@),
{
    let mut i: usize = from;
    while i < text.len() && 48 <= text[i] && text[i] <= 57
        invariant
            from <= i <= text.len(),
            forall|k: int| from <= k < i ==> is_digit(#[trigger] text@[k]),
            digits@ == old(digits)@ + text@.subrange(from as int, i as int),
            all_digits(digits@),
        decreases text.len() - i,
    {
        digits.push(text[i]);
        i += 1;
        proof {
            assert(digits@ =~= old(digits)@ + text@.subrange(from as int, i as int));
            assert forall|k: int| 0 <= k < digits@.len() implies is_digit(#[trigger] digits@[k]) by {
                if k < old(digits)@.len() {
                    assert(digits@[k] == old(digits)@[k]);
                } else {
                    assert(digits@[k] == text@[from + (k - old(digits)@.len())]);
                }
            }
        }
    }
    proof {
        lemma_digit_run_step(text@, from as int, i as int);
    }
    i
}

impl Decimal {
    /// Reads a decimal literal: `Some` exactly for the texts that
    /// `parse_decimal` accepts, with the number it gives them.
    pub fn parse(text: &[u8]) -> (number: Option<Decimal>)
        ensures
            match number {
                Some(d) => parse_decimal(text@) == Some(d@),
                None => parse_decimal(text@) is None,
            },
    {
        let mut negative: bool = false;
        let mut start: usize = 0;
        if text.len() > 0 && (text[0] == '-' as u8 || text[0] == '+' as u8) {
            negative = text[0] == '-' as u8;
            start = 1;
        }
        let mut digits: Vec<u8> = Vec::new();
        let int_end: usize = take_digits(text, start, &mut digits);
        assert(digits@ =~= text@.subrange(start as int, int_end as int));
        if int_end == text.len() {
            if int_end > start {
                Some(Decimal { negative, digits, scale: 0 })
            } else {
                None
            }
        } else if text[int_end] == '.' as u8 {
            let end: usize = take_digits(text, int_end + 1, &mut digits);
            if end == text.len() && end - start >= 2 {
                Some(Decimal { negative, digits, scale: end - int_end - 1 })
            } else {
                None
            }
        } else {
            None
        }
    }

    /// The number `units / 10^scale`, negated where `negative`.
    pub fn from_units(negative: bool, units: u128, scale: usize) -> (number: Decimal)
        ensures
            number@ == (DecimalView { negative, mantissa: units as nat, scale: scale as nat }),
    {
        let mut text: Vec<u8> = Vec::new();
        append_u128(&mut text, units);
        proof {
            lemma_nat_text_digits(units as nat);
            assert(text@ =~= nat_text(units as nat));
        }
        if text.len() >= scale {
            Decimal { negative, digits: text, scale }
        } else {
            let pad: usize = scale - text.len();
            let mut digits: Vec<u8> = Vec::new();
            append_zeros(&mut digits, pad);
            append_bytes(&mut digits, text.as_slice());
            proof {
                assert(digits@ =~= zeros(pad as nat) + text@);
                lemma_value_zeros(pad as nat);
                lemma_value_concat(zeros(pad as nat), text@);
                lemma_all_digits_concat(zeros(pad as nat), text@);
                assert(0 * pow10(text@.len()) == 0);
            }
            Decimal { negative, digits, scale }
        }
    }

    /// Whether the number has a minus sign; a negative zero has one.
    pub fn is_negative(&self) -> (negative: bool)
        ensures
            negative == self@.negative,
    {
        self.negative
    }

    /// The magnitude in units of `10^-places`, cut off towards zero, or
    /// `None` where it does not fit.
    pub fn truncated_units(&self, places: usize) -> (units: Option<u64>)
        ensures
            units == (if truncated_to(self@, places as nat) <= u64::MAX {
                Some(truncated_to(self@, places as nat) as u64)
            } else {
                None
            }),
    {
        proof {
            use_type_invariant(self);
        }
        let len: usize = self.digits.len();
        if self.scale <= places {
            match digits_to_u64(self.digits.as_slice()) {
                Some(value) => scale_up(value, places - self.scale),
                None => {
                    proof {
                        let m = digits_value(self.digits@);
                        let p = pow10((places - self.scale) as nat);
                        lemma_pow10_positive((places - self.scale) as nat);
                        assert(m <= m * p) by (nonlinear_arith)
                            requires
                                p >= 1,
                        ;
                    }
                    None
                },
            }
        } else {
            let cut: usize = len - (self.scale - places);
            let kept: &[u8] = vstd::slice::slice_subrange(self.digits.as_slice(), 0, cut);
            proof {
                let all = self.digits@;
                let dropped = all.subrange(cut as int, len as int);
                assert(all =~= kept@ + dropped);
                lemma_value_concat(kept@, dropped);
                lemma_all_digits_subrange(all, 0, cut as int);
                lemma_all_digits_subrange(all, cut as int, len as int);
                lemma_value_bound(dropped);
                lemma_fundamental_div_mod_converse(
                    digits_value(all) as int,
                    pow10(dropped.len()) as int,
                    digits_value(kept@) as int,
                    digits_value(dropped) as int,
                );
            }
            digits_to_u64(kept)
        }
    }

    /// Zero, with no fractional digits.
    pub fn zero() -> (number: Decimal)
        ensures
            number@ == (DecimalView { negative: false, mantissa: 0, scale: 0 }),
    {
        let mut digits: Vec<u8> = Vec::new();
        digits.push('0' as u8);
        proof {
            assert(digits@.drop_last() =~= Seq::<u8>::empty());
            assert(digits_value(digits@.drop_last()) == 0);
        }
        Decimal { negative: false, digits, scale: 0 }
    }
}

/// Adds one to the number that `digits` denotes.
fn increment(digits: &mut Vec<u8>)
    requires
        all_digits(old(digits)@),
    ensures
        all_digits(final(digits)@),
        digits_value(final(digits)@) == digits_value(old(digits)@) + 1,
        final(digits)@.len() >= old(digits)@.len(),
{
    let len: usize = digits.len();
    let mut i: usize = len;
    while i > 0 && digits[i - 1] == '9' as u8
        invariant
            i <= len,
            digits@.len() == len,
            old(digits)@.len() == len,
            digits@ =~= old(digits)@.subrange(0, i as int) + zeros((len - i) as nat),
            forall|k: int| i <= k < len ==> old(digits)@[k] == 57,
        decreases i,
    {
        digits.set(i - 1, '0' as u8);
        i -= 1;
    }
    let ghost before = old(digits)@;
    let ghost tail = before.subrange(i as int, len as int);
    proof {
        lemma_value_nines(tail);
        lemma_value_zeros((len - i) as nat);
        assert(before =~= before.subrange(0, i as int) + tail);
        lemma_value_concat(before.subrange(0, i as int), tail);
        lemma_all_digits_subrange(before, 0, i as int);
    }
    if i == 0 {
        digits.insert(0, '1' as u8);
        proof {
            let one = seq!['1' as u8];
            assert(digits@ =~= one + zeros(len as nat));
            lemma_value_concat(one, zeros(len as nat));
            assert(one.drop_last() =~= Seq::<u8>::empty());
            assert(digits_value(one.drop_last()) == 0);
            assert(digits_value(one) == 1);
            assert(all_digits(one));
            lemma_all_digits_concat(one, zeros(len as nat));
            assert(before.subrange(0, 0) =~= Seq::<u8>::empty());
            assert(1 * pow10(len as nat) == pow10(len as nat));
        }
    } else {
        let d: u8 = digits[i - 1];
        assert(is_digit(before[i - 1]));
        digits.set(i - 1, d + 1);
        proof {
            let head = before.subrange(0, i as int);
            let bumped = head.update(i - 1, (d + 1) as u8);
            assert(digits@ =~= bumped + zeros((len - i) as nat));
            lemma_value_concat(bumped, zeros((len - i) as nat));
            assert(bumped.drop_last() =~= head.drop_last());
            assert(digits_value(bumped) == digits_value(head) + 1);
            assert(all_digits(bumped)) by {
                assert forall|k: int| 0 <= k < bumped.len() implies is_digit(
                    #[trigger] bumped[k],
                ) by {
                    if k != i - 1 {
                        assert(bumped[k] == head[k]);
                    }
                }
            }
            lemma_all_digits_concat(bumped, zeros((len - i) as nat));
            let x = digits_value(head);
            let u = pow10((len - i) as nat);
            assert((x + 1) * u == x * u + u) by (nonlinear_arith);
        }
    }
}

/// Where the digits cut off begin with the digit `f` and go on with digits
/// worth `t`, below `sub`: they are worth more than half a unit of `10 *
/// sub` exactly when `f` is above five, or is five and `t` is not zero; and
/// half a unit exactly when `f` is five and `t` is zero.
proof fn lemma_half_way(f: nat, sub: nat, t: nat)
    requires
        f <= 9,
        t < sub,
    ensures
        2 * (f * sub + t) > 10 * sub <==> (f > 5 || (f == 5 && t > 0)),
        2 * (f * sub + t) == 10 * sub <==> (f == 5 && t == 0),
{
    if f == 0 {
        assert(f * sub == 0 * sub);
    } else if f == 1 {
        assert(f * sub == 1 * sub);
    } else if f == 2 {
        assert(f * sub == 2 * sub);
    } else if f == 3 {
        assert(f * sub == 3 * sub);
    } else if f == 4 {
        assert(f * sub == 4 * sub);
    } else if f == 5 {
        assert(f * sub == 5 * sub);
    } else if f == 6 {
        assert(f * sub == 6 * sub);
    } else if f == 7 {
        assert(f * sub == 7 * sub);
    } else if f == 8 {
        assert(f * sub == 8 * sub);
    } else {
        assert(f * sub == 9 * sub);
    }
}

/// Whether cutting `digits` at `cut` and rounding half to even rounds up.
fn rounds_up(digits: &Vec<u8>, cut: usize) -> (up: bool)
    requires
        all_digits(digits@),
        cut < digits.len(),
    ensures
        round_half_even(digits_value(digits@), pow10((digits.len() - cut) as nat)) == digits_value(
            digits@.subrange(0, cut as int),
        ) + (if up {
            1nat
        } else {
            0nat
        }),
{
    let len: usize = digits.len();
    let first: u8 = digits[cut];
    let mut tail_nonzero: bool = false;
    let mut i: usize = cut + 1;
    while i < len
        invariant
            cut + 1 <= i <= len,
            len == digits.len(),
            tail_nonzero <==> exists|k: int| cut + 1 <= k < i && digits@[k] != 48,
        decreases len - i,
    {
        if digits[i] != '0' as u8 {
            tail_nonzero = true;
        }
        i += 1;
    }
    let kept_odd: bool = cut > 0 && (digits[cut - 1] - 48) % 2 == 1;
    proof {
        let all = digits@;
        let kept = all.subrange(0, cut as int);
        let dropped = all.subrange(cut as int, len as int);
        let head = seq![first];
        let tail = all.subrange(cut + 1, len as int);
        let unit = pow10((len - cut) as nat);
        let sub = pow10((len - cut - 1) as nat);
        assert(all =~= kept + dropped);
        assert(dropped =~= head + tail);
        lemma_value_concat(kept, dropped);
        lemma_value_concat(head, tail);
        lemma_all_digits_subrange(all, cut as int, len as int);
        lemma_all_digits_subrange(all, cut + 1, len as int);
        lemma_all_digits_subrange(all, 0, cut as int);
        lemma_value_bound(dropped);
        lemma_value_bound(tail);
        lemma_value_zero_iff(tail);
        lemma_pow10_positive((len - cut - 1) as nat);
        assert(head.drop_last() =~= Seq::<u8>::empty());
        assert(digits_value(head.drop_last()) == 0);
        assert(is_digit(all[cut as int]));
        let f = (first - 48) as nat;
        let t = digits_value(tail);
        let r = digits_value(dropped);
        let q = digits_value(kept);
        assert(digits_value(head) == f);
        assert(r == f * sub + t);
        assert(unit == 10 * sub);
        lemma_fundamental_div_mod_converse(
            digits_value(all) as int,
            unit as int,
            q as int,
            r as int,
        );
        assert(tail_nonzero <==> t != 0) by {
            if tail_nonzero {
                let k = choose|k: int| cut + 1 <= k < len && digits@[k] != 48;
                assert(tail[k - cut - 1] == digits@[k]);
            } else {
                assert forall|j: int| 0 <= j < tail.len() implies tail[j] == 48 by {
                    assert(tail[j] == digits@[cut + 1 + j]);
                }
            }
        }
        lemma_half_way(f, sub, t);
        if cut > 0 {
            assert(kept.last() == all[cut - 1]);
            assert(is_digit(all[cut - 1]));
            let e = (kept.last() - 48) as nat;
            let v = digits_value(kept.drop_last());
            assert((v * 10 + e) % 2 == e % 2) by (nonlinear_arith);
        } else {
            assert(q == 0);
        }
        assert(kept_odd <==> q % 2 == 1);
    }
    first > '5' as u8 || (first == '5' as u8 && (tail_nonzero || kept_odd))
}

/// Appends `count` zero digits to `out`.
fn append_zeros(out: &mut Vec<u8>, count: usize)
    ensures
        final(out)@ == old(out)@ + zeros(count as nat),
{
    let mut i: usize = 0;
    while i < count
        invariant
            i <= count,
            out@ == old(out)@ + zeros(i as nat),
        decreases count - i,
    {
        out.push('0' as u8);
        i += 1;
        assert(out@ =~= old(out)@ + zeros(i as nat));
    }
}

/// Splits the number that `kept`, followed by `pad` zeros, denotes into its
/// integer part and its `places` fractional digits.
proof fn lemma_split_units(kept: Seq<u8>, pad: nat, places: nat)
    requires
        all_digits(kept),
        pad <= places,
        places - pad <= kept.len(),
    ensures
        ({
            let int_len = kept.len() - (places - pad);
            let units = digits_value(kept + zeros(pad));
            let frac_part = kept.subrange(int_len, kept.len() as int) + zeros(pad);
            &&& units / pow10(places) == digits_value(kept.subrange(0, int_len))
            &&& padded_text(units % pow10(places), places) == frac_part
        }),
{
    let int_len = kept.len() - (places - pad);
    let int_part = kept.subrange(0, int_len);
    let frac_part = kept.subrange(int_len, kept.len() as int) + zeros(pad);
    let units = digits_value(kept + zeros(pad));
    lemma_value_zeros(pad);
    lemma_all_digits_subrange(kept, int_len, kept.len() as int);
    lemma_all_digits_concat(kept.subrange(int_len, kept.len() as int), zeros(pad));
    assert(kept + zeros(pad) =~= int_part + frac_part);
    lemma_value_concat(int_part, frac_part);
    lemma_value_bound(frac_part);
    lemma_pow10_positive(places);
    lemma_fundamental_div_mod_converse(
        units as int,
        pow10(places) as int,
        digits_value(int_part) as int,
        digits_value(frac_part) as int,
    );
    lemma_padded_text_of_digits(frac_part);
}

/// Appends the shortest text of the number that the first `int_len` digits
/// of `kept` denote.
fn append_whole(out: &mut Vec<u8>, kept: &Vec<u8>, int_len: usize)
    requires
        all_digits(kept@),
        int_len <= kept.len(),
    ensures
        final(out)@ == old(out)@ + nat_text(digits_value(kept@.subrange(0, int_len as int))),
{
    let ghost int_part = kept@.subrange(0, int_len as int);
    let mut first: usize = 0;
    while first < int_len && kept[first] == '0' as u8
        invariant
            first <= int_len <= kept.len(),
            forall|k: int| 0 <= k < first ==> kept@[k] == 48,
        decreases int_len - first,
    {
        first += 1;
    }
    let ghost lead = int_part.subrange(0, first as int);
    let ghost rest = int_part.subrange(first as int, int_len as int);
    proof {
        lemma_all_digits_subrange(kept@, 0, int_len as int);
        assert(int_part =~= lead + rest);
        lemma_value_concat(lead, rest);
        lemma_all_digits_subrange(int_part, 0, first as int);
        lemma_all_digits_subrange(int_part, first as int, int_len as int);
        lemma_value_zero_iff(lead);
        assert(digits_value(lead) == 0) by {
            assert forall|k: int| 0 <= k < lead.len() implies lead[k] == 48 by {
                assert(lead[k] == kept@[k]);
            }
        }
        assert(digits_value(int_part) == digits_value(rest));
    }
    if first == int_len {
        out.push('0' as u8);
        proof {
            assert(rest =~= Seq::<u8>::empty());
            assert(nat_text(0) =~= seq!['0' as u8]);
            assert(out@ =~= old(out)@ + nat_text(0));
        }
    } else {
        let whole: &[u8] = vstd::slice::slice_subrange(kept.as_slice(), first, int_len);
        append_bytes(out, whole);
        proof {
            assert(rest[0] == kept@[first as int]);
            lemma_nat_text_of_digits(rest);
            assert(whole@ =~= rest);
        }
    }
}

/// Appends the fixed-point text of the number that `kept`, followed by `pad`
/// zeros, denotes in units of `10^-places`.
fn append_split(out: &mut Vec<u8>, negative: bool, kept: &Vec<u8>, pad: usize, places: usize)
    requires
        all_digits(kept@),
        pad <= places,
        places - pad <= kept.len(),
    ensures
        final(out)@ == old(out)@ + fixed_point_text(
            negative,
            digits_value(kept@ + zeros(pad as nat)),
            places as nat,
        ),
{
    let int_len: usize = kept.len() - (places - pad);
    let ghost units = digits_value(kept@ + zeros(pad as nat));
    let ghost whole_text = nat_text(units / pow10(places as nat));
    proof {
        lemma_split_units(kept@, pad as nat, places as nat);
    }
    if negative {
        out.push('-' as u8);
    }
    assert(out@ =~= old(out)@ + sign_text(negative));
    append_whole(out, kept, int_len);
    let ghost stem = out@;
    assert(stem == old(out)@ + sign_text(negative) + whole_text);
    if places > 0 {
        out.push('.' as u8);
        let part: &[u8] = vstd::slice::slice_subrange(kept.as_slice(), int_len, kept.len());
        append_bytes(out, part);
        append_zeros(out, pad);
        assert(out@ =~= stem + fraction_text(units, places as nat));
    } else {
        assert(out@ =~= stem + fraction_text(units, places as nat));
    }
}

impl Decimal {
    /// Appends the number as fixed-point text with exactly `places`
    /// fractional digits, rounding half to even where digits are cut.
    pub fn append_fixed(&self, places: usize, out: &mut Vec<u8>)
        ensures
            final(out)@ == old(out)@ + fixed_text(self@, places as nat),
    {
        proof {
            use_type_invariant(self);
        }
        if self.scale <= places {
            let pad: usize = places - self.scale;
            proof {
                lemma_value_concat(self.digits@, zeros(pad as nat));
                lemma_value_zeros(pad as nat);
            }
            append_split(out, self.negative, &self.digits, pad, places);
        } else {
            let cut: usize = self.digits.len() - (self.scale - places);
            let up: bool = rounds_up(&self.digits, cut);
            let mut kept: Vec<u8> = Vec::new();
            append_bytes(&mut kept, vstd::slice::slice_subrange(self.digits.as_slice(), 0, cut));
            proof {
                assert(kept@ =~= self.digits@.subrange(0, cut as int));
                lemma_all_digits_subrange(self.digits@, 0, cut as int);
            }
            if up {
                increment(&mut kept);
            }
            proof {
                assert(kept@ + zeros(0) =~= kept@);
            }
            append_split(out, self.negative, &kept, 0, places);
        }
    }
}

impl Clone for Decimal {
    fn clone(&self) -> (copy: Decimal)
        ensures
            copy@ == self@,
    {
        proof {
            use_type_invariant(self);
        }
        let mut digits: Vec<u8> = Vec::new();
        append_bytes(&mut digits, self.digits.as_slice());
        assert(digits@ =~= self.digits@);
        Decimal { negative: self.negative, digits, scale: self.scale }
    }
}

/// A run of digits ends at the first byte that is no digit.
proof fn lemma_digit_run(s: Seq<u8>, from: int, to: int)
    requires
        0 <= from <= to <= s.len(),
        forall|i: int| from <= i < to ==> is_digit(#[trigger] s[i]),
        to == s.len() || !is_digit(s[to]),
    ensures
        digit_run_end(s, from) == to,
{
    lemma_digit_run_step(s, from, to);
}

/// Whether `b` may stand in a decimal literal: a digit, a sign or the
/// point.
pub open spec fn is_literal_byte(b: u8) -> bool {
    is_digit(b) || b == '-' as u8 || b == '+' as u8 || b == '.' as u8
}

/// Reading back what was written: the fixed-point text of a number with
/// `places` fractional digits is a literal, made of digits, sign and point
/// alone, that denotes the number rounded to `places` digits.
pub proof fn lemma_fixed_text_parses(v: DecimalView, places: nat)
    ensures
        parse_decimal(fixed_text(v, places)) == Some(rounded(v, places)),
        fixed_text(v, places).len() >= 1,
        forall|i: int|
            0 <= i < fixed_text(v, places).len() ==> is_literal_byte(
                #[trigger] fixed_text(v, places)[i],
            ),
{
    let units = scaled_to(v, places);
    let scale = pow10(places);
    let whole = nat_text(units / scale);
    let part = padded_text(units % scale, places);
    let sign = sign_text(v.negative);
    let frac = fraction_text(units, places);
    let text = fixed_text(v, places);
    lemma_pow10_positive(places);
    lemma_nat_text_digits(units / scale);
    lemma_padded_text_digits(units % scale, places);
    assert(text == sign + whole + frac);
    let a = sign.len() as int;
    let b = a + whole.len();
    assert forall|i: int| a <= i < b implies is_digit(#[trigger] text[i]) by {
        assert(text[i] == whole[i - a]);
    }
    assert(is_digit(whole[0]));
    assert(text[a] == whole[0]);
    assert(sign_len(text) == a);
    assert(text.subrange(a, b) =~= whole);
    if places == 0 {
        assert(text.len() == b);
        lemma_digit_run(text, a, b);
        assert(units / 1 == units);
    } else {
        assert(text[b] == '.' as u8);
        lemma_digit_run(text, a, b);
        let c = b + 1 + places;
        assert(text.len() == c);
        assert forall|i: int| b + 1 <= i < c implies is_digit(#[trigger] text[i]) by {
            assert(text[i] == part[i - b - 1]);
        }
        lemma_digit_run(text, b + 1, c);
        assert(text.subrange(b + 1, c) =~= part);
        lemma_value_concat(whole, part);
        vstd::arithmetic::div_mod::lemma_mod_twice(units as int, scale as int);
        vstd::arithmetic::div_mod::lemma_fundamental_div_mod(units as int, scale as int);
        vstd::arithmetic::mul::lemma_mul_is_commutative(scale as int, (units / scale) as int);
        assert((units / scale) * scale + units % scale == units);
    }
    assert forall|i: int| 0 <= i < text.len() implies is_literal_byte(#[trigger] text[i]) by {
        if i < a {
            assert(text[i] == sign[i]);
        } else if i < b {
            assert(text[i] == whole[i - a]);
        } else if places > 0 && i > b {
            assert(text[i] == part[i - b - 1]);
        }
    }
}

} // verus!
