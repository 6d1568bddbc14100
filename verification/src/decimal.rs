//! Numbers as they stand in a source: decimal text, read into a coordinate
//! that counts millionths, and written out again. A number is read to the
//! nearest millionth, a half going away from zero; only a number too large
//! for an `i64` that counts millionths is no coordinate.

use vstd::arithmetic::div_mod::lemma_fundamental_div_mod_converse;
use vstd::prelude::*;

verus! {

/// How many decimal places a coordinate keeps.
pub const PLACES: i128 = 6;

pub open spec fn is_digit(c: char) -> bool {
    '0' <= c && c <= '9'
}

pub open spec fn is_sign(c: char) -> bool {
    c == '+' || c == '-'
}

/// The worth of a digit.
pub open spec fn digit_of(c: char) -> nat {
    (c as u32 - '0' as u32) as nat
}

/// The number that a run of digits writes; the empty run writes zero.
pub open spec fn number_of(digits: Seq<char>) -> nat
    decreases digits.len(),
{
    if digits.len() == 0 {
        0
    } else {
        number_of(digits.drop_last()) * 10 + digit_of(digits.last())
    }
}

/// Where the run of digits that starts at `from` ends.
pub open spec fn digits_end(s: Seq<char>, from: int) -> int
    decreases s.len() - from,
{
    if 0 <= from < s.len() && is_digit(s[from]) {
        digits_end(s, from + 1)
    } else {
        from
    }
}

/// A run of zeros.
pub open spec fn zeros(count: nat) -> Seq<char> {
    Seq::new(count, |i: int| '0')
}

pub open spec fn all_zero(s: Seq<char>) -> bool {
    forall|i: int| 0 <= i < s.len() ==> s[i] == '0'
}

pub open spec fn all_digits(s: Seq<char>) -> bool {
    forall|i: int| 0 <= i < s.len() ==> is_digit(s[i])
}

/// A decimal number as it is written.
pub struct Decimal {
    pub negative: bool,
    /// The digits before the point, then those behind it.
    pub digits: Seq<char>,
    /// How many of the digits stand before the point once the exponent has
    /// moved it; below zero or beyond the digits where it has moved far.
    pub point: int,
}

/// Where the digits before the point start: behind the sign, if there is
/// one.
pub open spec fn whole_start(s: Seq<char>) -> int {
    if s.len() > 0 && is_sign(s[0]) {
        1
    } else {
        0
    }
}

/// Where the digits before the point end.
pub open spec fn whole_end(s: Seq<char>) -> int {
    digits_end(s, whole_start(s))
}

/// Where the digits behind the point start: behind the point, if there is
/// one.
pub open spec fn fraction_start(s: Seq<char>) -> int {
    let b = whole_end(s);
    if b < s.len() && s[b] == '.' {
        b + 1
    } else {
        b
    }
}

/// Where the digits behind the point end.
pub open spec fn fraction_end(s: Seq<char>) -> int {
    digits_end(s, fraction_start(s))
}

/// The digits before the point, then those behind it.
pub open spec fn mantissa(s: Seq<char>) -> Seq<char> {
    s.subrange(whole_start(s), whole_end(s)) + s.subrange(fraction_start(s), fraction_end(s))
}

/// The exponent that stands from `at` to the end of `s`: `e` or `E`, an
/// optional sign, and at least one digit.
pub open spec fn exponent_at(s: Seq<char>, at: int) -> Option<int> {
    if 0 <= at < s.len() && (s[at] == 'e' || s[at] == 'E') {
        let f = if at + 1 < s.len() && is_sign(s[at + 1]) {
            at + 2
        } else {
            at + 1
        };
        let g = digits_end(s, f);
        if f < g && g == s.len() {
            let by = number_of(s.subrange(f, g)) as int;
            Some(
                if s[at + 1] == '-' {
                    -by
                } else {
                    by
                },
            )
        } else {
            None
        }
    } else {
        None
    }
}

/// The decimal that `s` writes: an optional sign, digits with at most one
/// point among them and at least one digit, and an optional exponent.
/// Nothing may stand before, between or behind these.
pub open spec fn read_decimal(s: Seq<char>) -> Option<Decimal> {
    let negative = s.len() > 0 && s[0] == '-';
    let digits = mantissa(s);
    let whole = whole_end(s) - whole_start(s);
    if digits.len() == 0 {
        None
    } else if fraction_end(s) == s.len() {
        Some(Decimal { negative, digits, point: whole })
    } else {
        match exponent_at(s, fraction_end(s)) {
            Some(by) => Some(Decimal { negative, digits, point: whole + by }),
            None => None,
        }
    }
}

/// Where the point stands when the number is counted in millionths.
pub open spec fn cut_of(d: Decimal) -> int {
    d.point + PLACES
}

/// The digits of the number counted in millionths: those before the cut,
/// with zeros behind them where the cut lies beyond the digits.
pub open spec fn kept_digits(d: Decimal) -> Seq<char> {
    let q = cut_of(d);
    if q >= d.digits.len() {
        d.digits + zeros((q - d.digits.len()) as nat)
    } else if q >= 0 {
        d.digits.take(q)
    } else {
        Seq::empty()
    }
}

/// The digits behind the cut: what a coordinate cannot hold. Where they
/// are all zero the coordinate is exact.
pub open spec fn lost_digits(d: Decimal) -> Seq<char> {
    let q = cut_of(d);
    if q >= d.digits.len() {
        Seq::empty()
    } else if q >= 0 {
        d.digits.skip(q)
    } else {
        d.digits
    }
}

/// What is lost behind the cut is half a millionth or more: the first
/// digit behind the cut is five or more.
pub open spec fn rounds_up(d: Decimal) -> bool {
    let q = cut_of(d);
    0 <= q < d.digits.len() && digit_of(d.digits[q]) >= 5
}

/// How many millionths the number is, its sign left aside: what the kept
/// digits write, and one more where what is lost is half a millionth or
/// more.
pub open spec fn magnitude_of(d: Decimal) -> nat {
    if rounds_up(d) {
        number_of(kept_digits(d)) + 1
    } else {
        number_of(kept_digits(d))
    }
}

/// The number in millionths, to the nearest one, where it has room in an
/// `i64`.
pub open spec fn units_of(d: Decimal) -> Option<i64> {
    let value = if d.negative {
        -magnitude_of(d)
    } else {
        magnitude_of(d) as int
    };
    if i64::MIN <= value <= i64::MAX {
        Some(value as i64)
    } else {
        None
    }
}

/// The coordinate that a text writes, if it writes one.
pub open spec fn coordinate_of(s: Seq<char>) -> Option<i64> {
    match read_decimal(s) {
        Some(d) => units_of(d),
        None => None,
    }
}

/// Ten to the power of `n`.
pub open spec fn pow10(n: nat) -> nat
    decreases n,
{
    if n == 0 {
        1
    } else {
        10 * pow10((n - 1) as nat)
    }
}

/// A unit of a coordinate is the last of the places that it keeps.
pub proof fn lemma_units_per_one()
    ensures
        crate::model::UNITS_PER_ONE == pow10(PLACES as nat),
{
    reveal_with_fuel(pow10, 7);
}

/// Zeros behind a number multiply it by a power of ten.
pub proof fn lemma_zeros_behind(digits: Seq<char>, count: nat)
    ensures
        number_of(digits + zeros(count)) == number_of(digits) * pow10(count),
    decreases count,
{
    if count == 0 {
        assert(digits + zeros(0) =~= digits);
        assert(number_of(digits) * 1 == number_of(digits)) by (nonlinear_arith);
    } else {
        let longer = digits + zeros(count);
        let shorter = digits + zeros((count - 1) as nat);
        assert(longer.drop_last() =~= shorter);
        assert(longer.last() == '0');
        assert(number_of(longer) == number_of(shorter) * 10 + digit_of('0'));
        lemma_zeros_behind(digits, (count - 1) as nat);
        assert(number_of(digits) * pow10((count - 1) as nat) * 10 == number_of(digits) * pow10(
            count,
        )) by (nonlinear_arith)
            requires
                pow10(count) == 10 * pow10((count - 1) as nat),
        ;
    }
}

/// A number is its front part times a power of ten, plus its back part,
/// and the back part is smaller than that power.
pub proof fn lemma_split(digits: Seq<char>, at: int)
    requires
        0 <= at <= digits.len(),
        all_digits(digits),
    ensures
        number_of(digits) == number_of(digits.take(at)) * pow10((digits.len() - at) as nat)
            + number_of(digits.skip(at)),
        number_of(digits.skip(at)) < pow10((digits.len() - at) as nat),
        all_zero(digits.skip(at)) <==> number_of(digits.skip(at)) == 0,
    decreases digits.len() - at,
{
    if at == digits.len() {
        assert(digits.take(at) =~= digits);
        assert(digits.skip(at) =~= Seq::<char>::empty());
        assert(number_of(digits) * 1 == number_of(digits)) by (nonlinear_arith);
    } else {
        let front = digits.drop_last();
        lemma_split(front, at);
        assert(front.take(at) =~= digits.take(at));
        assert(digits.skip(at).drop_last() =~= front.skip(at));
        assert(digits.skip(at).last() == digits.last());
        assert(is_digit(digits[digits.len() - 1]));
        let high = number_of(digits.take(at));
        let low = number_of(front.skip(at));
        let p = pow10((front.len() - at) as nat);
        let last = digit_of(digits.last());
        assert(pow10((digits.len() - at) as nat) == 10 * p);
        assert(number_of(digits) == number_of(front) * 10 + last);
        assert(number_of(digits.skip(at)) == low * 10 + last);
        assert(last <= 9);
        assert((high * p + low) * 10 + last == high * (10 * p) + (low * 10 + last))
            by (nonlinear_arith);
        assert(low * 10 + last < 10 * p) by (nonlinear_arith)
            requires
                low < p,
                last <= 9,
        ;
        if all_zero(digits.skip(at)) {
            assert forall|i: int| 0 <= i < front.skip(at).len() implies front.skip(at)[i]
                == '0' by {
                assert(digits.skip(at)[i] == '0');
            }
        }
        if number_of(digits.skip(at)) == 0 {
            assert(low == 0 && last == 0) by (nonlinear_arith)
                requires
                    low * 10 + last == 0,
                    low >= 0,
                    last >= 0,
            ;
            assert(digits.last() == '0');
            assert forall|i: int| 0 <= i < digits.skip(at).len() implies digits.skip(at)[i]
                == '0' by {
                if i < front.skip(at).len() {
                    assert(front.skip(at)[i] == '0');
                }
            }
        }
    }
}

/// Where all digits behind the cut are zero the coordinate is exact: its
/// magnitude is the number times a million, the point of the number taken
/// to stand where the exponent has moved it.
pub proof fn lemma_units_exact(d: Decimal)
    requires
        all_digits(d.digits),
        all_zero(lost_digits(d)),
    ensures
        cut_of(d) >= d.digits.len() ==> magnitude_of(d) == number_of(d.digits) * pow10(
            (cut_of(d) - d.digits.len()) as nat,
        ),
        0 <= cut_of(d) < d.digits.len() ==> number_of(d.digits) == magnitude_of(d) * pow10(
            (d.digits.len() - cut_of(d)) as nat,
        ),
        cut_of(d) < 0 ==> number_of(d.digits) == 0 && magnitude_of(d) == 0,
{
    let q = cut_of(d);
    if q >= d.digits.len() {
        lemma_zeros_behind(d.digits, (q - d.digits.len()) as nat);
    } else if q >= 0 {
        lemma_split(d.digits, q);
        assert(lost_digits(d)[0] == '0');
        assert(d.digits[q] == '0');
    } else {
        lemma_split(d.digits, 0);
        assert(d.digits.skip(0) =~= d.digits);
        assert(d.digits.take(0) =~= Seq::<char>::empty());
    }
}

/// Where digits are lost behind the cut, the coordinate is the nearest
/// count of millionths: it differs from the number by half a millionth at
/// most, and by less where it lies below the number.
pub proof fn lemma_units_nearest(d: Decimal)
    requires
        all_digits(d.digits),
        0 <= cut_of(d) < d.digits.len(),
    ensures
        2 * (magnitude_of(d) * pow10((d.digits.len() - cut_of(d)) as nat) - number_of(d.digits))
            <= pow10((d.digits.len() - cut_of(d)) as nat),
        2 * (number_of(d.digits) - magnitude_of(d) * pow10((d.digits.len() - cut_of(d)) as nat))
            < pow10((d.digits.len() - cut_of(d)) as nat),
{
    let q = cut_of(d);
    let lost = d.digits.skip(q);
    let kept = number_of(d.digits.take(q)) as int;
    let all = number_of(d.digits) as int;
    let behind = number_of(lost) as int;
    let unit = pow10((d.digits.len() - q) as nat) as int;
    let tenth = pow10((lost.len() - 1) as nat) as int;
    lemma_split(d.digits, q);
    assert forall|k: int| 0 <= k < lost.len() implies is_digit(lost[k]) by {
        assert(lost[k] == d.digits[q + k]);
    }
    lemma_split(lost, 1);
    let first = digit_of(lost[0]) as int;
    let rest = number_of(lost.skip(1)) as int;
    assert(number_of(lost.take(1)) == first) by {
        assert(lost.take(1).drop_last() =~= Seq::<char>::empty());
        assert(lost.take(1).last() == lost[0]);
        assert(number_of(lost.take(1)) == number_of(lost.take(1).drop_last()) * 10 + digit_of(
            lost.take(1).last(),
        ));
    }
    assert(unit == 10 * tenth);
    assert(lost[0] == d.digits[q]);
    assert(is_digit(lost[0]));
    assert(behind == first * tenth + rest);
    assert(0 <= rest < tenth);
    if rounds_up(d) {
        assert(2 * ((kept + 1) * unit - all) <= unit && 2 * (all - (kept + 1) * unit) < unit)
            by (nonlinear_arith)
            requires
                all == kept * unit + first * tenth + rest,
                unit == 10 * tenth,
                5 <= first <= 9,
                0 <= rest < tenth,
        ;
    } else {
        assert(2 * (kept * unit - all) <= unit && 2 * (all - kept * unit) < unit)
            by (nonlinear_arith)
            requires
                all == kept * unit + first * tenth + rest,
                unit == 10 * tenth,
                0 <= first <= 4,
                0 <= rest < tenth,
        ;
    }
}

/// A number is at least what its front part writes.
proof fn lemma_front_is_less(front: Seq<char>, back: Seq<char>)
    ensures
        number_of(front) <= number_of(front + back),
    decreases back.len(),
{
    if back.len() == 0 {
        assert(front + back =~= front);
    } else {
        assert((front + back).drop_last() =~= front + back.drop_last());
        lemma_front_is_less(front, back.drop_last());
    }
}

/// Powers of ten grow.
proof fn lemma_pow10_grows(low: nat, high: nat)
    requires
        low <= high,
    ensures
        1 <= pow10(low) <= pow10(high),
    decreases high,
{
    if high == 0 {
    } else if low == high {
        lemma_pow10_grows((low - 1) as nat, (high - 1) as nat);
    } else {
        lemma_pow10_grows(low, (high - 1) as nat);
    }
}

/// Beyond this many places from the digits, the place of the cut no longer
/// matters.
const FAR: i128 = 0x40_0000_0000_0000_0000;

/// Where the cut lies before all digits, or far behind them, it does not
/// matter where exactly.
proof fn lemma_far_cut(near: Decimal, far: Decimal)
    requires
        near.negative == far.negative,
        near.digits == far.digits,
        (cut_of(near) < 0 && cut_of(far) < 0) || (cut_of(near) >= near.digits.len() + 19 && cut_of(
            far,
        ) >= near.digits.len() + 19),
    ensures
        units_of(near) == units_of(far),
{
    if cut_of(near) >= 0 {
        let n = near.digits.len();
        let a = (cut_of(near) - n) as nat;
        let b = (cut_of(far) - n) as nat;
        lemma_zeros_behind(near.digits, a);
        lemma_zeros_behind(near.digits, b);
        lemma_pow10_grows(19, a);
        lemma_pow10_grows(19, b);
        assert(pow10(19) == 10_000_000_000_000_000_000) by {
            reveal_with_fuel(pow10, 20);
        }
        let v = number_of(near.digits);
        if v == 0 {
            assert(v * pow10(a) == 0 && v * pow10(b) == 0) by (nonlinear_arith)
                requires
                    v == 0,
            ;
        } else {
            assert(v * pow10(a) >= pow10(a) && v * pow10(b) >= pow10(b)) by (nonlinear_arith)
                requires
                    v >= 1,
            ;
        }
    }
}

fn is_digit_char(c: char) -> (b: bool)
    ensures
        b == is_digit(c),
{
    c >= '0' && c <= '9'
}

fn is_sign_char(c: char) -> (b: bool)
    ensures
        b == is_sign(c),
{
    c == '+' || c == '-'
}

fn digit_value(c: char) -> (v: u128)
    requires
        is_digit(c),
    ensures
        v == digit_of(c),
        v <= 9,
{
    (c as u32 - '0' as u32) as u128
}

/// Runs over the digits that start at `from`.
fn scan_digits(s: &Vec<char>, from: usize) -> (end: usize)
    requires
        from <= s@.len(),
    ensures
        end == digits_end(s@, from as int),
        from <= end <= s@.len(),
        all_digits(s@.subrange(from as int, end as int)),
{
    let mut i = from;
    while i < s.len() && is_digit_char(s[i])
        invariant
            from <= i <= s@.len(),
            digits_end(s@, from as int) == digits_end(s@, i as int),
            forall|k: int| from <= k < i ==> is_digit(s@[k]),
        decreases s@.len() - i,
    {
        i += 1;
    }
    i
}

/// The number that the digits from `from` to `to` write, or `FAR` where it
/// is larger than that.
fn read_capped(s: &Vec<char>, from: usize, to: usize) -> (v: i128)
    requires
        from <= to <= s@.len(),
        all_digits(s@.subrange(from as int, to as int)),
    ensures
        v == if number_of(s@.subrange(from as int, to as int)) < FAR {
            number_of(s@.subrange(from as int, to as int)) as int
        } else {
            FAR as int
        },
{
    let mut acc: i128 = 0;
    let mut i = from;
    assert(s@.subrange(from as int, from as int) =~= Seq::<char>::empty());
    while i < to
        invariant
            from <= i <= to <= s@.len(),
            all_digits(s@.subrange(from as int, to as int)),
            acc == if number_of(s@.subrange(from as int, i as int)) < FAR {
                number_of(s@.subrange(from as int, i as int)) as int
            } else {
                FAR as int
            },
        decreases to - i,
    {
        proof {
            assert(s@.subrange(from as int, i + 1).drop_last() =~= s@.subrange(
                from as int,
                i as int,
            ));
            assert(s@.subrange(from as int, to as int)[i - from] == s@[i as int]);
        }
        let next = acc * 10 + digit_value(s[i]) as i128;
        acc = if next < FAR { next } else { FAR };
        i += 1;
    }
    acc
}

/// The coordinate of a number given by its sign, its digits and its cut.
fn units(negative: bool, digits: &Vec<char>, cut: i128) -> (r: Option<i64>)
    requires
        all_digits(digits@),
    ensures
        r == units_of(Decimal { negative, digits: digits@, point: cut - PLACES }),
{
    let ghost d = Decimal { negative, digits: digits@, point: cut - PLACES };
    let n = digits.len();
    let keep: usize = if cut < 0 {
        0
    } else if cut >= n as i128 {
        n
    } else {
        cut as usize
    };
    let up = cut >= 0 && keep < n && digit_value(digits[keep]) >= 5;
    assert(up == rounds_up(d));
    let limit: u128 = 0x8000_0000_0000_0000;
    let mut acc: u128 = 0;
    let mut i: usize = 0;
    assert(digits@.take(0) =~= Seq::<char>::empty());
    while i < keep
        invariant
            i <= keep <= n == digits@.len(),
            all_digits(digits@),
            acc == number_of(digits@.take(i as int)),
            acc <= limit == 0x8000_0000_0000_0000,
            d == (Decimal { negative, digits: digits@, point: cut - PLACES }),
            kept_digits(d).len() >= keep,
            kept_digits(d).take(keep as int) == digits@.take(keep as int),
        decreases keep - i,
    {
        proof {
            assert(digits@.take(i + 1).drop_last() =~= digits@.take(i as int));
        }
        acc = acc * 10 + digit_value(digits[i]);
        i += 1;
        if acc > limit {
            proof {
                let kept = kept_digits(d);
                assert(kept =~= digits@.take(i as int) + kept.skip(i as int)) by {
                    assert(kept.take(keep as int).take(i as int) =~= kept.take(i as int));
                    assert(digits@.take(keep as int).take(i as int) =~= digits@.take(i as int));
                }
                lemma_front_is_less(digits@.take(i as int), kept.skip(i as int));
            }
            return None;
        }
    }
    if cut > n as i128 && acc != 0 {
        let pad: i128 = cut - n as i128;
        let mut j: i128 = 0;
        assert(digits@.take(n as int) =~= digits@);
        assert(digits@ + zeros(0) =~= digits@);
        while j < pad
            invariant
                0 <= j <= pad == cut - n,
                n == digits@.len(),
                acc == number_of(digits@ + zeros(j as nat)),
                0 < acc <= limit == 0x8000_0000_0000_0000,
                d == (Decimal { negative, digits: digits@, point: cut - PLACES }),
                !rounds_up(d),
                kept_digits(d) == digits@ + zeros(pad as nat),
            decreases pad - j,
        {
            proof {
                let longer = digits@ + zeros((j + 1) as nat);
                assert(longer.drop_last() =~= digits@ + zeros(j as nat));
                assert(longer.last() == '0');
                assert(number_of(longer) == number_of(longer.drop_last()) * 10 + digit_of('0'));
            }
            acc = acc * 10;
            j += 1;
            if acc > limit {
                proof {
                    assert(kept_digits(d) =~= (digits@ + zeros(j as nat)) + zeros(
                        (pad - j) as nat,
                    ));
                    lemma_front_is_less(digits@ + zeros(j as nat), zeros((pad - j) as nat));
                }
                return None;
            }
        }
    } else {
        proof {
            if cut > n {
                lemma_zeros_behind(digits@, (cut - n) as nat);
                assert(digits@.take(n as int) =~= digits@);
                assert(0 * pow10((cut - n) as nat) == 0) by (nonlinear_arith);
            } else {
                assert(kept_digits(d) =~= digits@.take(keep as int));
            }
        }
    }
    assert(acc == number_of(kept_digits(d)));
    if up {
        acc = acc + 1;
    }
    assert(acc == magnitude_of(d));
    if negative {
        if acc > limit {
            None
        } else if acc == limit {
            Some(i64::MIN)
        } else {
            Some(-(acc as i64))
        }
    } else if acc < limit {
        Some(acc as i64)
    } else {
        None
    }
}

/// The digits of the number that starts `s`, how many of them stand before
/// the point, and where they end.
fn read_mantissa(s: &Vec<char>) -> (r: (Vec<char>, usize, usize))
    ensures
        r.0@ == mantissa(s@),
        all_digits(r.0@),
        r.1 == whole_end(s@) - whole_start(s@),
        r.2 == fraction_end(s@),
        r.2 <= s@.len(),
{
    let len = s.len();
    let a: usize = if len > 0 && is_sign_char(s[0]) {
        1
    } else {
        0
    };
    let b = scan_digits(s, a);
    let c: usize = if b < len && s[b] == '.' {
        b + 1
    } else {
        b
    };
    let d = scan_digits(s, c);
    let mut digits: Vec<char> = Vec::new();
    let mut i = a;
    while i < b
        invariant
            a <= i <= b <= s@.len(),
            digits@ == s@.subrange(a as int, i as int),
        decreases b - i,
    {
        digits.push(s[i]);
        i += 1;
        assert(digits@ =~= s@.subrange(a as int, i as int));
    }
    let mut i = c;
    while i < d
        invariant
            c <= i <= d <= s@.len(),
            digits@ == s@.subrange(a as int, b as int) + s@.subrange(c as int, i as int),
        decreases d - i,
    {
        digits.push(s[i]);
        i += 1;
        assert(digits@ =~= s@.subrange(a as int, b as int) + s@.subrange(c as int, i as int));
    }
    assert forall|k: int| 0 <= k < digits@.len() implies is_digit(digits@[k]) by {
        if k < b - a {
            assert(s@.subrange(a as int, b as int)[k] == digits@[k]);
        } else {
            assert(s@.subrange(c as int, d as int)[k - (b - a)] == digits@[k]);
        }
    }
    (digits, b - a, d)
}

/// An exponent, or `FAR` in its direction where it reaches further.
spec fn capped(by: int) -> int {
    if by >= FAR {
        FAR as int
    } else if by <= -FAR {
        -FAR
    } else {
        by
    }
}

/// The exponent that stands from `at` to the end of `s`, capped.
fn read_exponent(s: &Vec<char>, at: usize) -> (r: Option<i128>)
    requires
        at < s@.len(),
    ensures
        match exponent_at(s@, at as int) {
            Some(by) => r == Some(capped(by) as i128),
            None => r is None,
        },
{
    let len = s.len();
    if s[at] != 'e' && s[at] != 'E' {
        return None;
    }
    let f: usize = if at + 1 < len && is_sign_char(s[at + 1]) {
        at + 2
    } else {
        at + 1
    };
    let g = scan_digits(s, f);
    if !(f < g && g == len) {
        return None;
    }
    let by = read_capped(s, f, g);
    if s[at + 1] == '-' {
        Some(-by)
    } else {
        Some(by)
    }
}

/// The coordinate that the characters `s` write, if they write one.
fn read_coordinate(s: &Vec<char>) -> (r: Option<i64>)
    ensures
        r == coordinate_of(s@),
{
    let negative = s.len() > 0 && s[0] == '-';
    let (digits, whole, end) = read_mantissa(s);
    if digits.len() == 0 {
        return None;
    }
    if end == s.len() {
        return units(negative, &digits, whole as i128 + PLACES);
    }
    match read_exponent(s, end) {
        None => None,
        Some(by) => {
            let r = units(negative, &digits, whole as i128 + by + PLACES);
            proof {
                let exact = read_decimal(s@)->0;
                let used = Decimal { negative, digits: digits@, point: whole + by };
                if used != exact {
                    lemma_far_cut(used, exact);
                }
            }
            r
        },
    }
}

/// Reads a coordinate from its text: an optional sign, digits with at most
/// one point among them, and an optional exponent. The text has to be the
/// number and nothing else. The number is read to the nearest millionth;
/// where that has no room in an `i64` there is no coordinate.
pub fn parse_coordinate(text: &str) -> (r: Option<i64>)
    ensures
        r == coordinate_of(text@),
{
    let s = chars_of(text);
    read_coordinate(&s)
}

/// The characters of a text, one by one.
pub fn chars_of(text: &str) -> (out: Vec<char>)
    ensures
        out@ == text@,
{
    let mut out: Vec<char> = Vec::new();
    let rest = text.chars();
    for c in it: rest
        invariant
            out@ == text@.take(it.index() as int),
            it.seq() == text@,
    {
        proof {
            assert(text@.take(it.index() + 1) =~= text@.take(it.index() as int).push(c));
        }
        out.push(c);
    }
    assert(text@.take(text@.len() as int) =~= text@);
    out
}

/// The character that writes a digit.
pub open spec fn digit_char(d: nat) -> char {
    if d == 0 {
        '0'
    } else if d == 1 {
        '1'
    } else if d == 2 {
        '2'
    } else if d == 3 {
        '3'
    } else if d == 4 {
        '4'
    } else if d == 5 {
        '5'
    } else if d == 6 {
        '6'
    } else if d == 7 {
        '7'
    } else if d == 8 {
        '8'
    } else {
        '9'
    }
}

/// The digits that write a number, without zeros in front.
pub open spec fn numeral(n: nat) -> Seq<char>
    decreases n,
{
    if n < 10 {
        seq![digit_char(n)]
    } else {
        numeral(n / 10).push(digit_char(n % 10))
    }
}

/// The last `width` digits of a number, with zeros in front where it has
/// fewer.
pub open spec fn padded(n: nat, width: nat) -> Seq<char>
    decreases width,
{
    if width == 0 {
        Seq::empty()
    } else {
        padded(n / 10, (width - 1) as nat).push(digit_char(n % 10))
    }
}

/// The text of a coordinate: a minus sign where it is negative, the whole
/// part, a point, and all six decimal places.
pub open spec fn coordinate_text(units: int) -> Seq<char> {
    let m = if units < 0 {
        -units
    } else {
        units
    };
    (if units < 0 {
        seq!['-']
    } else {
        Seq::empty()
    }) + numeral((m / 1_000_000) as nat) + seq!['.'] + padded((m % 1_000_000) as nat, 6)
}

/// The character of a digit is a digit, and writes it.
proof fn lemma_digit_char(d: nat)
    requires
        d < 10,
    ensures
        is_digit(digit_char(d)),
        digit_of(digit_char(d)) == d,
{
}

/// The numeral of a number is made of digits and writes the number.
proof fn lemma_numeral(n: nat)
    ensures
        numeral(n).len() >= 1,
        all_digits(numeral(n)),
        number_of(numeral(n)) == n,
    decreases n,
{
    if n < 10 {
        lemma_digit_char(n);
        assert(numeral(n).drop_last() =~= Seq::<char>::empty());
        assert(number_of(numeral(n)) == number_of(numeral(n).drop_last()) * 10 + digit_of(
            numeral(n).last(),
        ));
    } else {
        lemma_numeral(n / 10);
        lemma_digit_char(n % 10);
        assert(numeral(n).drop_last() =~= numeral(n / 10));
        assert(number_of(numeral(n)) == number_of(numeral(n).drop_last()) * 10 + digit_of(
            numeral(n).last(),
        ));
    }
}

/// The padded digits of a number are `width` digits and write what is left
/// of the number below ten to the power of `width`.
proof fn lemma_padded(n: nat, width: nat)
    ensures
        padded(n, width).len() == width,
        all_digits(padded(n, width)),
        number_of(padded(n, width)) == n % pow10(width),
    decreases width,
{
    if width == 0 {
    } else {
        let shorter = (width - 1) as nat;
        lemma_padded(n / 10, shorter);
        lemma_digit_char(n % 10);
        lemma_pow10_grows(0, shorter);
        assert(padded(n, width).drop_last() =~= padded(n / 10, shorter));
        assert(number_of(padded(n, width)) == number_of(padded(n, width).drop_last()) * 10
            + digit_of(padded(n, width).last()));
        let p = pow10(shorter) as int;
        assert(pow10(width) == 10 * p);
        let all = n as int;
        let high = all / 10;
        let low = all % 10;
        let q = high / p;
        let r = high % p;
        vstd::arithmetic::div_mod::lemma_fundamental_div_mod(all, 10);
        vstd::arithmetic::div_mod::lemma_fundamental_div_mod(high, p);
        vstd::arithmetic::div_mod::lemma_mod_pos_bound(high, p);
        assert(all == q * (10 * p) + (r * 10 + low)) by (nonlinear_arith)
            requires
                all == 10 * high + low,
                high == p * q + r,
        ;
        assert(0 <= r * 10 + low < 10 * p) by (nonlinear_arith)
            requires
                0 <= r < p,
                0 <= low < 10,
        ;
        lemma_fundamental_div_mod_converse(all, 10 * p, q, r * 10 + low);
    }
}

/// A run of digits ends where the first character stands that is no digit.
proof fn lemma_digits_end(s: Seq<char>, from: int, to: int)
    requires
        0 <= from <= to <= s.len(),
        forall|k: int| from <= k < to ==> is_digit(s[k]),
        to == s.len() || !is_digit(s[to]),
    ensures
        digits_end(s, from) == to,
    decreases to - from,
{
    if from < to {
        lemma_digits_end(s, from + 1, to);
    }
}

/// The text of a coordinate reads back as the coordinate.
pub proof fn lemma_text_reads_back(units: i64)
    ensures
        coordinate_of(coordinate_text(units as int)) == Some(units),
{
    let m: int = if units < 0 {
        -units
    } else {
        units as int
    };
    let whole = numeral((m / 1_000_000) as nat);
    let fraction = padded((m % 1_000_000) as nat, 6);
    let sign: Seq<char> = if units < 0 {
        seq!['-']
    } else {
        Seq::empty()
    };
    let s = coordinate_text(units as int);
    assert(s == sign + whole + seq!['.'] + fraction);
    lemma_numeral((m / 1_000_000) as nat);
    lemma_padded((m % 1_000_000) as nat, 6);
    let a = sign.len() as int;
    let b = a + whole.len();
    let c = b + 1;
    let d = c + 6;
    assert(s.len() == d);
    assert forall|k: int| a <= k < b implies is_digit(s[k]) by {
        assert(s[k] == whole[k - a]);
    }
    assert(s[b] == '.');
    assert forall|k: int| c <= k < d implies is_digit(s[k]) by {
        assert(s[k] == fraction[k - c]);
    }
    assert(s[0] == if units < 0 {
        '-'
    } else {
        whole[0]
    });
    assert(is_digit(whole[0]));
    assert(whole_start(s) == a);
    lemma_digits_end(s, a, b);
    lemma_digits_end(s, c, d);
    assert(s.subrange(a, b) =~= whole);
    assert(s.subrange(c, d) =~= fraction);
    let digits = whole + fraction;
    assert(mantissa(s) == digits);
    let read = Decimal { negative: units < 0, digits, point: whole.len() as int };
    assert(read_decimal(s) == Some(read));
    assert(kept_digits(read) =~= digits) by {
        assert(digits + zeros(0) =~= digits);
    }
    assert(lost_digits(read) =~= Seq::<char>::empty());
    assert(all_digits(digits));
    lemma_split(digits, whole.len() as int);
    assert(digits.take(whole.len() as int) =~= whole);
    assert(digits.skip(whole.len() as int) =~= fraction);
    assert(pow10(6) == 1_000_000) by {
        reveal_with_fuel(pow10, 7);
    }
    vstd::arithmetic::div_mod::lemma_fundamental_div_mod(m, 1_000_000);
    assert(((m % 1_000_000) as nat) % 1_000_000 == m % 1_000_000) by {
        vstd::arithmetic::div_mod::lemma_mod_pos_bound(m, 1_000_000);
        vstd::arithmetic::div_mod::lemma_small_mod((m % 1_000_000) as nat, 1_000_000);
    }
    assert(0 <= m / 1_000_000) by {
        vstd::arithmetic::div_mod::lemma_div_pos_is_pos(m, 1_000_000);
    }
    assert(number_of(digits) == m) by (nonlinear_arith)
        requires
            number_of(digits) == (m / 1_000_000) * 1_000_000 + m % 1_000_000,
            m == 1_000_000 * (m / 1_000_000) + m % 1_000_000,
    ;
}

/// Writes one digit behind `out`.
fn push_digit(out: &mut String, d: u64)
    requires
        d < 10,
    ensures
        final(out)@ == old(out)@.push(digit_char(d as nat)),
{
    proof {
        reveal_strlit("0");
        reveal_strlit("1");
        reveal_strlit("2");
        reveal_strlit("3");
        reveal_strlit("4");
        reveal_strlit("5");
        reveal_strlit("6");
        reveal_strlit("7");
        reveal_strlit("8");
        reveal_strlit("9");
    }
    let digit = if d == 0 {
        "0"
    } else if d == 1 {
        "1"
    } else if d == 2 {
        "2"
    } else if d == 3 {
        "3"
    } else if d == 4 {
        "4"
    } else if d == 5 {
        "5"
    } else if d == 6 {
        "6"
    } else if d == 7 {
        "7"
    } else if d == 8 {
        "8"
    } else {
        "9"
    };
    assert(digit@ =~= seq![digit_char(d as nat)]);
    out.append(digit);
    assert(out@ =~= old(out)@.push(digit_char(d as nat)));
}

/// Writes the numeral of `n` behind `out`.
fn push_numeral(out: &mut String, n: u64)
    ensures
        final(out)@ == old(out)@ + numeral(n as nat),
    decreases n,
{
    if n >= 10 {
        push_numeral(out, n / 10);
    }
    push_digit(out, n % 10);
    assert(out@ =~= old(out)@ + numeral(n as nat));
}

/// Writes the last `width` digits of `n` behind `out`.
fn push_padded(out: &mut String, n: u64, width: u8)
    ensures
        final(out)@ == old(out)@ + padded(n as nat, width as nat),
    decreases width,
{
    if width > 0 {
        push_padded(out, n / 10, width - 1);
        push_digit(out, n % 10);
    }
    assert(out@ =~= old(out)@ + padded(n as nat, width as nat));
}

/// The text of a coordinate, with all six decimal places. It reads back as
/// the same coordinate.
pub fn format_coordinate(units: i64) -> (text: String)
    ensures
        text@ == coordinate_text(units as int),
        coordinate_of(text@) == Some(units),
{
    let mut text = String::new();
    let m: u64 = if units < 0 {
        proof {
            reveal_strlit("-");
        }
        text.append("-");
        (-(units as i128)) as u64
    } else {
        units as u64
    };
    assert(text@ =~= if units < 0 {
        seq!['-']
    } else {
        Seq::empty()
    });
    push_numeral(&mut text, m / 1_000_000);
    proof {
        reveal_strlit(".");
    }
    text.append(".");
    push_padded(&mut text, m % 1_000_000, 6);
    proof {
        assert(text@ =~= coordinate_text(units as int));
        lemma_text_reads_back(units);
    }
    text
}

} // verus!
