//! Decimal notation of fixed-point numbers: an optional sign, digits with
//! an optional point, and an optional power of ten.

use vstd::prelude::*;
use vstd::arithmetic::div_mod::{lemma_fundamental_div_mod, lemma_fundamental_div_mod_converse};
use crate::fixed::{Fixed, DECIMAL_PLACES, UNITS_PER_ONE};
use crate::number::NumberError;
use crate::text::{
    digits_end, digits_value, is_digit, lemma_digits_end, scan_digits, FIVE, LOWER_E, MINUS,
    PLUS, POINT, UPPER_E, ZERO,
};

verus! {

/// Ten to the power of `n`.
pub open spec fn pow10(n: nat) -> nat
    decreases n,
{
    if n == 0 {
        1
    } else {
        10 * pow10((n - 1) as nat)
    }
}

/// The place after an optional sign that stands at `from`.
pub open spec fn sign_end(s: Seq<u8>, from: int) -> int {
    if 0 <= from < s.len() && (s[from] == PLUS || s[from] == MINUS) {
        from + 1
    } else {
        from
    }
}

/// Where the digits before the point start.
pub open spec fn int_start(s: Seq<u8>) -> int {
    sign_end(s, 0)
}

/// Where the digits before the point stop.
pub open spec fn int_end(s: Seq<u8>) -> int {
    digits_end(s, int_start(s))
}

/// Where the digits after the point start; with no point in its place,
/// where the digits before it stop.
pub open spec fn frac_start(s: Seq<u8>) -> int {
    if int_end(s) < s.len() && s[int_end(s)] == POINT {
        int_end(s) + 1
    } else {
        int_end(s)
    }
}

/// Where the digits after the point stop.
pub open spec fn frac_end(s: Seq<u8>) -> int {
    digits_end(s, frac_start(s))
}

/// An exponent mark follows the digits.
pub open spec fn has_exponent(s: Seq<u8>) -> bool {
    frac_end(s) < s.len() && (s[frac_end(s)] == LOWER_E || s[frac_end(s)] == UPPER_E)
}

/// Where the digits of the exponent start, after the mark and an optional
/// sign.
pub open spec fn exp_start(s: Seq<u8>) -> int {
    sign_end(s, frac_end(s) + 1)
}

/// Where the digits of the exponent stop.
pub open spec fn exp_end(s: Seq<u8>) -> int {
    digits_end(s, exp_start(s))
}

/// The text is a decimal number: an optional sign; digits with an optional
/// point before, among or after them, at least one digit in all; and
/// optionally `e` or `E`, an optional sign and at least one digit. Nothing
/// may follow.
pub open spec fn is_decimal(s: Seq<u8>) -> bool {
    &&& (int_end(s) - int_start(s)) + (frac_end(s) - frac_start(s)) >= 1
    &&& if has_exponent(s) {
        exp_start(s) < exp_end(s) && exp_end(s) == s.len()
    } else {
        frac_end(s) == s.len()
    }
}

/// The digits of a decimal number before and after the point, in one
/// string.
pub open spec fn mantissa_digits(s: Seq<u8>) -> Seq<u8> {
    s.subrange(int_start(s), int_end(s)) + s.subrange(frac_start(s), frac_end(s))
}

/// The exponent that a decimal number names; zero where it names none.
pub open spec fn exponent(s: Seq<u8>) -> int {
    if has_exponent(s) {
        let size = digits_value(s.subrange(exp_start(s), exp_end(s)));
        if s[frac_end(s) + 1] == MINUS {
            -size
        } else {
            size as int
        }
    } else {
        0
    }
}

/// `m` times ten to the power of `shift`, rounded to the nearest whole
/// number, a half upwards.
pub open spec fn scaled(m: nat, shift: int) -> nat {
    if shift >= 0 {
        m * pow10(shift as nat)
    } else {
        (m + pow10((-shift) as nat) / 2) / pow10((-shift) as nat)
    }
}

/// The size of a decimal number in millionths, rounded to the nearest, a
/// half away from zero.
pub open spec fn magnitude(s: Seq<u8>) -> nat {
    scaled(
        digits_value(mantissa_digits(s)),
        exponent(s) - (frac_end(s) - frac_start(s)) + DECIMAL_PLACES,
    )
}

/// The fixed-point number that a text spells: the decimal number it
/// writes, rounded to the nearest millionth, where that fits in 64 bits.
pub open spec fn spec_parse_fixed(s: Seq<u8>) -> Result<Fixed, NumberError> {
    if s.len() == 0 {
        Err(NumberError::Empty)
    } else if !is_decimal(s) {
        Err(NumberError::Invalid)
    } else if s[0] == MINUS {
        if magnitude(s) > 0x8000_0000_0000_0000 {
            Err(NumberError::TooSmall)
        } else {
            Ok(Fixed { units: (-magnitude(s)) as i64 })
        }
    } else {
        if magnitude(s) > 0x7fff_ffff_ffff_ffff {
            Err(NumberError::TooLarge)
        } else {
            Ok(Fixed { units: magnitude(s) as i64 })
        }
    }
}

/// Every byte of the string is a digit.
pub open spec fn all_digits(s: Seq<u8>) -> bool {
    forall|i: int| 0 <= i < s.len() ==> is_digit(#[trigger] s[i])
}

/// A power of ten is at least one, and ten times the one before it.
pub proof fn lemma_pow10_step(n: nat)
    ensures
        pow10(n) >= 1,
        pow10(n + 1) == 10 * pow10(n),
    decreases n,
{
    if n > 0 {
        lemma_pow10_step((n - 1) as nat);
    }
}

/// Powers of ten grow with the exponent.
pub proof fn lemma_pow10_increases(a: nat, b: nat)
    requires
        a <= b,
    ensures
        pow10(a) <= pow10(b),
    decreases b,
{
    if a < b {
        lemma_pow10_increases(a, (b - 1) as nat);
        lemma_pow10_step((b - 1) as nat);
    }
}

/// One whole is ten to the power of the decimal places that a value keeps.
pub proof fn lemma_units_per_one()
    ensures
        UNITS_PER_ONE == pow10(DECIMAL_PLACES as nat),
{
    reveal_with_fuel(pow10, 7);
}

/// Ten to the power of twenty is beyond 64 bits.
proof fn lemma_pow10_twenty()
    ensures
        pow10(20) == 100_000_000_000_000_000_000,
{
    reveal_with_fuel(pow10, 21);
}

/// A string of `n` digits spells a number below ten to the power of `n`.
pub proof fn lemma_digits_bound(s: Seq<u8>)
    requires
        all_digits(s),
    ensures
        digits_value(s) < pow10(s.len()),
    decreases s.len(),
{
    if s.len() > 0 {
        lemma_digits_bound(s.drop_last());
        lemma_pow10_step((s.len() - 1) as nat);
    }
}

/// The digits before place `k` count for ten to the power of the number of
/// digits that follow them.
pub proof fn lemma_digits_split(s: Seq<u8>, k: int)
    requires
        0 <= k <= s.len(),
    ensures
        digits_value(s) == digits_value(s.subrange(0, k)) * pow10((s.len() - k) as nat)
            + digits_value(s.subrange(k, s.len() as int)),
    decreases s.len(),
{
    let n = s.len() as int;
    if k == n {
        assert(s.subrange(0, k) =~= s);
        assert(s.subrange(k, n) =~= Seq::<u8>::empty());
        assert(digits_value(s) * pow10(0) == digits_value(s)) by (nonlinear_arith)
            requires
                pow10(0) == 1,
        ;
    } else {
        let init = s.drop_last();
        let tail = s.subrange(k, n);
        lemma_digits_split(init, k);
        assert(init.subrange(0, k) =~= s.subrange(0, k));
        assert(init.subrange(k, n - 1) =~= tail.drop_last());
        assert(tail.last() == s.last());
        lemma_pow10_step((n - 1 - k) as nat);
        let head = digits_value(s.subrange(0, k)) as int;
        let p = pow10((n - 1 - k) as nat) as int;
        assert(head * (10 * p) == (head * p) * 10) by (nonlinear_arith);
    }
}

/// Cutting the last `t` digits off a number and rounding: the digits that
/// stay, and one more where those cut off make up half a unit or more.
proof fn lemma_scaled_down(a: nat, b: nat, t: nat)
    requires
        t >= 1,
        b < pow10(t),
    ensures
        b < 5 * pow10((t - 1) as nat) ==> scaled(a * pow10(t) + b, -(t as int)) == a,
        b >= 5 * pow10((t - 1) as nat) ==> scaled(a * pow10(t) + b, -(t as int)) == a + 1,
{
    lemma_pow10_step((t - 1) as nat);
    let q = pow10((t - 1) as nat) as int;
    let p = pow10(t) as int;
    assert(p / 2 == 5 * q);
    let x = a * p + b + p / 2;
    if b >= 5 * q {
        assert(x == (a + 1) * p + (b - 5 * q)) by (nonlinear_arith)
            requires
                x == a * p + b + 5 * q,
                p == 10 * q,
        ;
        lemma_fundamental_div_mod_converse(
            x,
            p,
            (a + 1) as int,
            b - 5 * q,
        );
    } else {
        lemma_fundamental_div_mod_converse(x, p, a as int, b + 5 * q);
    }
}

/// A number with fewer digits than are cut off rounds to zero.
proof fn lemma_scaled_vanishes(m: nat, n: nat, t: nat)
    requires
        m < pow10(n),
        n < t,
    ensures
        scaled(m, -(t as int)) == 0,
{
    lemma_pow10_step((t - 1) as nat);
    lemma_pow10_increases(n, (t - 1) as nat);
    let q = pow10((t - 1) as nat) as int;
    let p = pow10(t) as int;
    assert(p / 2 == 5 * q);
    lemma_fundamental_div_mod_converse(m + p / 2, p, 0, m + 5 * q);
}

/// Scaling down rounds to the nearest whole number: the result times the
/// power of ten that was cut off lies within half of that power of the
/// number, the upper bound left out.
pub proof fn lemma_scaled_nearest(m: nat, t: nat)
    requires
        t >= 1,
    ensures
        2 * scaled(m, -(t as int)) * pow10(t) <= 2 * m + pow10(t),
        2 * m - pow10(t) < 2 * scaled(m, -(t as int)) * pow10(t),
{
    lemma_pow10_step((t - 1) as nat);
    let p = pow10(t) as int;
    let x = m + p / 2;
    let q = scaled(m, -(t as int)) as int;
    assert(q == x / p);
    lemma_fundamental_div_mod(x, p);
    assert(2 * (p / 2) == p);
    assert(p * q <= x < p * q + p);
    assert(2 * q * p == 2 * (p * q)) by (nonlinear_arith);
}

/// A string of digits spells half of its order of magnitude or more where
/// its first digit is five or more.
proof fn lemma_leading_digit(x: Seq<u8>)
    requires
        x.len() >= 1,
        all_digits(x),
    ensures
        digits_value(x) >= 5 * pow10((x.len() - 1) as nat) <==> x[0] >= FIVE,
{
    let n = x.len() as int;
    lemma_digits_split(x, 1);
    let first = x.subrange(0, 1);
    let rest = x.subrange(1, n);
    assert(first.drop_last() =~= Seq::<u8>::empty());
    assert(digits_value(first.drop_last()) == 0);
    assert(digits_value(first) == x[0] - ZERO);
    lemma_digits_bound(rest);
    let d = (x[0] - ZERO) as int;
    let q = pow10((n - 1) as nat) as int;
    let r = digits_value(rest) as int;
    assert(d * q + r >= 5 * q <==> d >= 5) by (nonlinear_arith)
        requires
            0 <= r < q,
            0 <= d,
    ;
}

/// The bound at which a running size stops growing: just beyond 64 bits.
const SIZE_CAP: u128 = 0x1_0000_0000_0000_0000;

/// The bound at which a running exponent stops growing.
const EXPONENT_CAP: i128 = 10_000_000_000_000_000_000_000_000;

/// `x`, or the cap where `x` lies beyond it.
spec fn capped(x: int) -> int {
    if x >= SIZE_CAP {
        SIZE_CAP as int
    } else {
        x
    }
}

/// The size `x` of an exponent, or the cap where `x` lies beyond it.
spec fn exponent_capped(x: nat) -> int {
    if x >= EXPONENT_CAP {
        EXPONENT_CAP as int
    } else {
        x as int
    }
}

/// The number that the first `k` digits spell, capped.
fn leading_value(digits: &Vec<u8>, k: usize) -> (r: u128)
    requires
        k <= digits.len(),
        all_digits(digits@),
    ensures
        r == capped(digits_value(digits@.subrange(0, k as int)) as int),
{
    let mut acc: u128 = 0;
    let mut j: usize = 0;
    assert(digits@.subrange(0, 0) =~= Seq::<u8>::empty());
    while j < k
        invariant
            j <= k <= digits.len(),
            all_digits(digits@),
            acc == capped(digits_value(digits@.subrange(0, j as int)) as int),
        decreases k - j,
    {
        let d: u128 = (digits[j] - ZERO) as u128;
        proof {
            let next = digits@.subrange(0, j + 1);
            assert(next.drop_last() =~= digits@.subrange(0, j as int));
            assert(next.last() == digits@[j as int]);
        }
        acc = acc * 10 + d;
        if acc > SIZE_CAP {
            acc = SIZE_CAP;
        }
        j += 1;
    }
    acc
}

/// The number that the digits spell, times ten to the power of `shift`,
/// rounded and capped.
fn scaled_value(digits: &Vec<u8>, shift: i128) -> (r: u128)
    requires
        all_digits(digits@),
        shift > i128::MIN,
    ensures
        r == capped(scaled(digits_value(digits@), shift as int) as int),
{
    let n = digits.len();
    let ghost whole = digits_value(digits@);
    if shift >= 0 {
        let mut acc = leading_value(digits, n);
        let mut left: i128 = shift;
        assert(digits@.subrange(0, n as int) =~= digits@);
        proof {
            lemma_pow10_step(shift as nat);
            let p = pow10(shift as nat) as int;
            if whole >= SIZE_CAP {
                assert(whole * p >= SIZE_CAP && SIZE_CAP * p >= SIZE_CAP) by (nonlinear_arith)
                    requires
                        whole >= SIZE_CAP,
                        p >= 1,
                ;
            }
        }
        while left > 0 && acc > 0 && acc < SIZE_CAP
            invariant
                0 <= left <= shift,
                acc <= SIZE_CAP,
                capped(acc * pow10(left as nat)) == capped((whole * pow10(shift as nat)) as int),
            decreases left,
        {
            proof {
                lemma_pow10_step((left - 1) as nat);
                let p = pow10((left - 1) as nat) as int;
                assert(acc * (10 * p) == (acc * 10) * p) by (nonlinear_arith);
                if acc * 10 >= SIZE_CAP {
                    assert((acc * 10) * p >= SIZE_CAP && SIZE_CAP * p >= SIZE_CAP)
                        by (nonlinear_arith)
                        requires
                            acc * 10 >= SIZE_CAP,
                            p >= 1,
                    ;
                }
            }
            acc = acc * 10;
            if acc > SIZE_CAP {
                acc = SIZE_CAP;
            }
            left -= 1;
        }
        proof {
            lemma_pow10_step(left as nat);
            let p = pow10(left as nat) as int;
            if left == 0 {
                assert(acc * p == acc) by (nonlinear_arith)
                    requires
                        p == 1,
                ;
            } else if acc == 0 {
                assert(acc * p == 0) by (nonlinear_arith)
                    requires
                        acc == 0,
                ;
            } else {
                assert(acc * p >= SIZE_CAP) by (nonlinear_arith)
                    requires
                        acc >= SIZE_CAP,
                        p >= 1,
                ;
            }
        }
        acc
    } else {
        let cut: u128 = (-shift) as u128;
        if cut > n as u128 {
            proof {
                lemma_digits_bound(digits@);
                lemma_scaled_vanishes(whole, n as nat, cut as nat);
            }
            return 0;
        }
        let k: usize = n - cut as usize;
        let mut acc = leading_value(digits, k);
        proof {
            let kept = digits@.subrange(0, k as int);
            let lost = digits@.subrange(k as int, n as int);
            lemma_digits_split(digits@, k as int);
            assert(all_digits(lost));
            lemma_digits_bound(lost);
            lemma_leading_digit(lost);
            lemma_scaled_down(digits_value(kept), digits_value(lost), cut as nat);
            assert(lost[0] == digits@[k as int]);
        }
        if digits[k] >= FIVE && acc < SIZE_CAP {
            acc += 1;
        }
        acc
    }
}

/// Far enough up, a greater shift changes nothing below the cap: zero stays
/// zero, and anything else is beyond it.
proof fn lemma_scaled_far_up(m: nat, s: int, t: int)
    requires
        20 <= s <= t,
    ensures
        capped(scaled(m, t) as int) == capped(scaled(m, s) as int),
{
    lemma_pow10_twenty();
    lemma_pow10_increases(20, s as nat);
    lemma_pow10_increases(20, t as nat);
    let p = pow10(s as nat) as int;
    let q = pow10(t as nat) as int;
    if m == 0 {
        assert(m * p == 0 && m * q == 0) by (nonlinear_arith)
            requires
                m == 0,
        ;
    } else {
        assert(m * p >= SIZE_CAP && m * q >= SIZE_CAP) by (nonlinear_arith)
            requires
                m >= 1,
                p >= 100_000_000_000_000_000_000,
                q >= 100_000_000_000_000_000_000,
        ;
    }
}

/// The number that the digits of `text` between `from` and `to` spell,
/// capped.
fn exponent_size(text: &[u8], from: usize, to: usize) -> (r: i128)
    requires
        from <= to <= text.len(),
        forall|i: int| from <= i < to ==> is_digit(#[trigger] text@[i]),
    ensures
        r == exponent_capped(digits_value(text@.subrange(from as int, to as int))),
{
    let mut acc: i128 = 0;
    let mut j: usize = from;
    assert(text@.subrange(from as int, from as int) =~= Seq::<u8>::empty());
    while j < to
        invariant
            from <= j <= to <= text.len(),
            forall|i: int| from <= i < to ==> is_digit(#[trigger] text@[i]),
            0 <= acc <= EXPONENT_CAP,
            acc == exponent_capped(digits_value(text@.subrange(from as int, j as int))),
        decreases to - j,
    {
        let d: i128 = (text[j] - ZERO) as i128;
        proof {
            let next = text@.subrange(from as int, j + 1);
            assert(next.drop_last() =~= text@.subrange(from as int, j as int));
            assert(next.last() == text@[j as int]);
        }
        acc = acc * 10 + d;
        if acc > EXPONENT_CAP {
            acc = EXPONENT_CAP;
        }
        j += 1;
    }
    acc
}

/// The bytes of `text` from `a` to `b` and then from `c` to `d`.
fn two_runs(text: &[u8], a: usize, b: usize, c: usize, d: usize) -> (r: Vec<u8>)
    requires
        a <= b <= text.len(),
        c <= d <= text.len(),
    ensures
        r@ == text@.subrange(a as int, b as int) + text@.subrange(c as int, d as int),
{
    let mut out: Vec<u8> = Vec::new();
    let mut i: usize = a;
    while i < b
        invariant
            a <= i <= b <= text.len(),
            out@ == text@.subrange(a as int, i as int),
        decreases b - i,
    {
        out.push(text[i]);
        assert(out@ =~= text@.subrange(a as int, i + 1));
        i += 1;
    }
    let mut j: usize = c;
    while j < d
        invariant
            c <= j <= d <= text.len(),
            out@ == text@.subrange(a as int, b as int) + text@.subrange(c as int, j as int),
        decreases d - j,
    {
        out.push(text[j]);
        assert(out@ =~= text@.subrange(a as int, b as int) + text@.subrange(c as int, j + 1));
        j += 1;
    }
    out
}

/// Where the parts of a decimal number lie in its text.
struct Layout {
    int_from: usize,
    int_to: usize,
    frac_from: usize,
    frac_to: usize,
    marked: bool,
    exp_from: usize,
    exp_to: usize,
}

impl Layout {
    /// The places are those that the notation gives for the text `s`.
    spec fn matches_text(self, s: Seq<u8>) -> bool {
        &&& self.int_from == int_start(s)
        &&& self.int_to == int_end(s)
        &&& self.frac_from == frac_start(s)
        &&& self.frac_to == frac_end(s)
        &&& self.marked == has_exponent(s)
        &&& self.marked ==> self.exp_from == exp_start(s) && self.exp_to == exp_end(s)
        &&& self.int_from <= self.int_to <= self.frac_from <= self.frac_to <= s.len()
        &&& self.marked ==> self.frac_to < self.exp_from < self.exp_to <= s.len()
    }
}

/// Finds the parts of a decimal number; `None` where the text is none.
fn layout(text: &[u8]) -> (r: Option<Layout>)
    requires
        text.len() > 0,
    ensures
        r is Some <==> is_decimal(text@),
        r matches Some(l) ==> l.matches_text(text@),
{
    let len = text.len();
    let int_from: usize = if text[0] == PLUS || text[0] == MINUS {
        1
    } else {
        0
    };
    let int_to = scan_digits(text, int_from);
    let frac_from: usize = if int_to < len && text[int_to] == POINT {
        int_to + 1
    } else {
        int_to
    };
    let frac_to = scan_digits(text, frac_from);
    if (int_to - int_from) + (frac_to - frac_from) == 0 {
        return None;
    }
    if frac_to < len && (text[frac_to] == LOWER_E || text[frac_to] == UPPER_E) {
        let mark = frac_to + 1;
        let exp_from: usize = if mark < len && (text[mark] == PLUS || text[mark] == MINUS) {
            mark + 1
        } else {
            mark
        };
        let exp_to = scan_digits(text, exp_from);
        if exp_to == exp_from || exp_to < len {
            return None;
        }
        Some(Layout { int_from, int_to, frac_from, frac_to, marked: true, exp_from, exp_to })
    } else if frac_to < len {
        None
    } else {
        Some(
            Layout {
                int_from,
                int_to,
                frac_from,
                frac_to,
                marked: false,
                exp_from: frac_to,
                exp_to: frac_to,
            },
        )
    }
}

/// The power of ten by which the digits count in millionths, kept within
/// bounds that change nothing below the cap.
fn shift_of(text: &[u8], l: &Layout, Ghost(whole): Ghost<nat>) -> (shift: i128)
    requires
        l.matches_text(text@),
        is_decimal(text@),
        whole < pow10((l.int_to - l.int_from + l.frac_to - l.frac_from) as nat),
    ensures
        shift > i128::MIN,
        capped(scaled(whole, shift as int) as int) == capped(
            scaled(whole, exponent(text@) - (l.frac_to - l.frac_from) + DECIMAL_PLACES) as int,
        ),
{
    let mut power: i128 = 0;
    if l.marked {
        proof {
            lemma_digits_end(text@, l.exp_from as int);
        }
        let size = exponent_size(text, l.exp_from, l.exp_to);
        power = if text[l.frac_to + 1] == MINUS {
            -size
        } else {
            size
        };
    }
    let shift: i128 = power - (l.frac_to - l.frac_from) as i128 + DECIMAL_PLACES as i128;
    proof {
        let true_shift = exponent(text@) - (l.frac_to - l.frac_from) + DECIMAL_PLACES;
        let n = (l.int_to - l.int_from + l.frac_to - l.frac_from) as nat;
        if shift != true_shift {
            if power > 0 {
                lemma_scaled_far_up(whole, shift as int, true_shift);
            } else {
                lemma_scaled_vanishes(whole, n, (-shift) as nat);
                lemma_scaled_vanishes(whole, n, (-true_shift) as nat);
            }
        }
    }
    shift
}

/// The size in millionths of the decimal number that the text writes,
/// capped.
fn size_of(text: &[u8], l: &Layout) -> (size: u128)
    requires
        l.matches_text(text@),
        is_decimal(text@),
    ensures
        size == capped(magnitude(text@) as int),
{
    proof {
        lemma_digits_end(text@, l.int_from as int);
        lemma_digits_end(text@, l.frac_from as int);
    }
    let digits = two_runs(text, l.int_from, l.int_to, l.frac_from, l.frac_to);
    proof {
        lemma_digits_bound(digits@);
    }
    let shift = shift_of(text, l, Ghost(digits_value(digits@)));
    scaled_value(&digits, shift)
}

/// Reads a decimal number and rounds it to the nearest millionth, a half
/// away from zero.
pub fn parse_fixed(text: &[u8]) -> (r: Result<Fixed, NumberError>)
    ensures
        r == spec_parse_fixed(text@),
{
    if text.len() == 0 {
        return Err(NumberError::Empty);
    }
    let l = match layout(text) {
        Some(l) => l,
        None => {
            return Err(NumberError::Invalid);
        },
    };
    let size = size_of(text, &l);
    if text[0] == MINUS {
        if size > 0x8000_0000_0000_0000 {
            Err(NumberError::TooSmall)
        } else {
            Ok(Fixed { units: (-(size as i128)) as i64 })
        }
    } else {
        if size > 0x7fff_ffff_ffff_ffff {
            Err(NumberError::TooLarge)
        } else {
            Ok(Fixed { units: size as i64 })
        }
    }
}

} // verus!
