//! The share of a total that a percentage stands for, computed exactly.

use vstd::prelude::*;
use vstd::arithmetic::div_mod::{
    lemma_div_multiples_vanish_quotient,
    lemma_fundamental_div_mod,
    lemma_fundamental_div_mod_converse,
};
use crate::decimal::{
    all_digits,
    lemma_pow10_adds,
    lemma_pow10_grows,
    lemma_value_bound,
    lemma_value_concat,
    pow10,
    value,
    Decimal,
    Literal,
};

verus! {

/// The share of `total` that the percentage stands for, rounded to the nearest
/// whole number, a half going up: `None` where the percentage is 100 or more.
/// A negative percentage has the share zero.
pub open spec fn share(total: nat, percentage: Decimal) -> Option<nat> {
    let numerator = percentage.numerator();
    let denominator = percentage.denominator();
    if percentage.negative {
        Some(0)
    } else if numerator >= 100 * denominator {
        None
    } else {
        Some((2 * total * numerator + 100 * denominator) / (200 * denominator))
    }
}

/// The exponents of magnitude at and beyond this are held at it: no literal
/// that a machine can hold has this many digits.
const EXPONENT_LIMIT: i128 = 1_000_000_000_000_000_000_000_000;

/// The exponent held within the limit.
spec fn bounded(exponent: int) -> int {
    if exponent > EXPONENT_LIMIT {
        EXPONENT_LIMIT as int
    } else if exponent < -EXPONENT_LIMIT {
        -EXPONENT_LIMIT
    } else {
        exponent
    }
}

/// The share where the percentage is `mantissa` with its point moved `places`
/// digits to the left, taken as a fraction of one: as [`share`], with the
/// hundred folded into the places.
spec fn share_by_places(total: nat, mantissa: nat, places: int) -> Option<nat> {
    if places <= 0 {
        if mantissa == 0 {
            Some(0)
        } else {
            None
        }
    } else if mantissa >= pow10(places as nat) {
        None
    } else {
        Some((2 * total * mantissa + pow10(places as nat)) / (2 * pow10(places as nat)))
    }
}

proof fn lemma_share_by_places(total: nat, percentage: Decimal)
    requires
        !percentage.negative,
    ensures
        share(total, percentage) == share_by_places(
            total,
            percentage.mantissa,
            2 - percentage.exponent,
        ),
{
    let m = percentage.mantissa;
    let e = percentage.exponent;
    assert(pow10(2) == 100) by {
        reveal_with_fuel(pow10, 3);
    }
    assert(pow10(1) == 10) by {
        reveal_with_fuel(pow10, 2);
    }
    if e >= 2 {
        lemma_pow10_adds(2, (e - 2) as nat);
        lemma_pow10_adds((e - 2) as nat, 0);
        let p = pow10(e as nat);
        assert(p >= 100) by (nonlinear_arith)
            requires
                p == 100 * pow10((e - 2) as nat),
                pow10((e - 2) as nat) >= 1,
        ;
        if m >= 1 {
            assert(m * p >= 100) by (nonlinear_arith)
                requires
                    m >= 1,
                    p >= 100,
            ;
        } else {
            assert(m * p == 0) by (nonlinear_arith)
                requires
                    m == 0,
            ;
            assert((2 * total * 0 + 100 * 1) / (200 * 1) == 0) by (nonlinear_arith);
        }
    } else if e >= 0 {
        // The numerator and the hundred share the factor 10^e.
        let f = pow10(e as nat) as int;
        let places = pow10((2 - e) as nat) as int;
        lemma_pow10_adds(e as nat, (2 - e) as nat);
        assert(f * places == 100);
        assert(f >= 1) by {
            lemma_pow10_adds(e as nat, 0);
        }
        assert((m * f >= 100) == (m >= places)) by (nonlinear_arith)
            requires
                f * places == 100,
                f >= 1,
                places >= 1,
                m >= 0,
        ;
        if m < places {
            let a = 2 * total * m + places;
            lemma_div_multiples_vanish_quotient(f, a, 2 * places);
            assert(f * a == 2 * total * (m * f) + 100 * 1) by (nonlinear_arith)
                requires
                    f * places == 100,
                    a == 2 * total * m + places,
            ;
            assert(f * (2 * places) == 200 * 1) by (nonlinear_arith)
                requires
                    f * places == 100,
            ;
        }
    } else {
        lemma_pow10_adds(2, (-e) as nat);
        assert(2 * total * m + 100 * pow10((-e) as nat) == 2 * total * m + pow10((2 - e) as nat));
        assert(200 * pow10((-e) as nat) == 2 * pow10((2 - e) as nat));
    }
}

/// What the long multiplication of `total` by the last `steps` digits of a
/// numeral has reached: `window` is the number those digits spell, `carry` what
/// the product holds above them, `low` what it holds within them, and `last`
/// the leading digit of `low`.
spec fn multiplied(total: nat, window: nat, steps: nat, carry: nat, low: nat, last: nat) -> bool {
    &&& total * window == carry * pow10(steps) + low
    &&& low < pow10(steps)
    &&& steps >= 1 ==> low / pow10((steps - 1) as nat) == last
    &&& carry <= total
    &&& last <= 9
}

proof fn lemma_multiply_step(
    total: nat,
    window: nat,
    steps: nat,
    carry: nat,
    low: nat,
    last: nat,
    digit: nat,
)
    requires
        multiplied(total, window, steps, carry, low, last),
        digit <= 9,
    ensures
        ({
            let t = total * digit + carry;
            multiplied(
                total,
                digit * pow10(steps) + window,
                steps + 1,
                t / 10,
                (t % 10) * pow10(steps) + low,
                t % 10,
            )
        }),
{
    let p = pow10(steps) as int;
    let t = (total * digit + carry) as int;
    let q = t / 10;
    let r = t % 10;
    lemma_fundamental_div_mod(t, 10);
    assert(t == 10 * q + r);
    lemma_pow10_adds(steps, 0);
    assert(pow10(steps + 1) == 10 * p);
    assert(total * (digit * p + window) == q * (10 * p) + (r * p + low)) by (nonlinear_arith)
        requires
            total * window == carry * p + low,
            t == total * digit + carry,
            t == 10 * q + r,
    ;
    assert(0 <= r * p + low < 10 * p) by (nonlinear_arith)
        requires
            0 <= r <= 9,
            0 <= low < p,
    ;
    lemma_fundamental_div_mod_converse(r * p + low, p, r, low as int);
    assert(q <= total) by (nonlinear_arith)
        requires
            t == 10 * q + r,
            0 <= r,
            t == total * digit + carry,
            carry <= total,
            digit <= 9,
    ;
}

proof fn lemma_rounded(total: nat, window: nat, steps: nat, carry: nat, low: nat, last: nat)
    requires
        multiplied(total, window, steps, carry, low, last),
        steps >= 1,
    ensures
        (2 * total * window + pow10(steps)) / (2 * pow10(steps)) == carry + (if last >= 5 {
            1nat
        } else {
            0nat
        }),
{
    let p = pow10(steps) as int;
    let h = pow10((steps - 1) as nat) as int;
    assert(p == 10 * h);
    lemma_pow10_adds((steps - 1) as nat, 0);
    lemma_fundamental_div_mod(low as int, h);
    let rest = low as int % h;
    assert(low == h * last + rest);
    assert(0 <= rest < h);
    let up: int = if last >= 5 { 1 } else { 0 };
    let remainder = 2 * low + p - up * 2 * p;
    assert(0 <= remainder < 2 * p) by (nonlinear_arith)
        requires
            low == h * last + rest,
            0 <= rest < h,
            p == 10 * h,
            0 <= last <= 9,
            up == (if last >= 5 { 1int } else { 0int }),
            remainder == 2 * low + p - up * 2 * p,
    ;
    assert(2 * total * window + p == (carry + up) * (2 * p) + remainder) by (nonlinear_arith)
        requires
            total * window == carry * p + low,
            remainder == 2 * low + p - up * 2 * p,
    ;
    lemma_fundamental_div_mod_converse(2 * total * window + p, 2 * p, carry + up, remainder);
}

/// The written exponent of a literal, held within the limit.
fn bounded_exponent(negative: bool, digits: &Vec<u8>) -> (exponent: i128)
    requires
        all_digits(digits@),
    ensures
        exponent == bounded(
            if negative {
                -(value(digits@) as int)
            } else {
                value(digits@) as int
            },
        ),
{
    let mut magnitude: i128 = 0;
    let mut i: usize = 0;
    assert(digits@.take(0) =~= Seq::empty());
    while i < digits.len()
        invariant
            i <= digits.len(),
            all_digits(digits@),
            0 <= magnitude <= 10 * EXPONENT_LIMIT + 9,
            value(digits@.take(i as int)) < EXPONENT_LIMIT ==> magnitude == value(
                digits@.take(i as int),
            ),
            value(digits@.take(i as int)) >= EXPONENT_LIMIT ==> magnitude >= EXPONENT_LIMIT,
        decreases digits.len() - i,
    {
        proof {
            assert(digits@.take(i + 1).drop_last() =~= digits@.take(i as int));
            assert(digits@.take(i + 1).last() == digits@[i as int]);
        }
        if magnitude < EXPONENT_LIMIT {
            magnitude = magnitude * 10 + digits[i] as i128;
        }
        i += 1;
    }
    assert(digits@.take(digits.len() as int) =~= digits@);
    if magnitude > EXPONENT_LIMIT {
        magnitude = EXPONENT_LIMIT;
    }
    if negative {
        -magnitude
    } else {
        magnitude
    }
}

/// Whether the first `upto` digits spell zero.
fn leads_with_zero(digits: &Vec<u8>, upto: usize) -> (zero: bool)
    requires
        upto <= digits.len(),
    ensures
        zero == (value(digits@.subrange(0, upto as int)) == 0),
{
    let mut i: usize = 0;
    assert(digits@.subrange(0, 0) =~= Seq::empty());
    while i < upto
        invariant
            i <= upto <= digits.len(),
            value(digits@.subrange(0, i as int)) == 0,
        decreases upto - i,
    {
        let ghost head = digits@.subrange(0, i + 1);
        proof {
            assert(head.drop_last() =~= digits@.subrange(0, i as int));
            assert(head.last() == digits@[i as int]);
        }
        if digits[i] != 0 {
            proof {
                let tail = digits@.subrange(i + 1, upto as int);
                assert(digits@.subrange(0, upto as int) =~= head + tail);
                lemma_value_concat(head, tail);
                lemma_pow10_adds(tail.len(), 0);
                assert(value(head) * pow10(tail.len()) >= 1) by (nonlinear_arith)
                    requires
                        value(head) >= 1,
                        pow10(tail.len()) >= 1,
                ;
            }
            return false;
        }
        i += 1;
    }
    true
}

/// The number that the last `places` digits of the numeral spell; the whole
/// numeral where it has no more digits than that.
spec fn window(digits: Seq<u8>, places: int) -> nat {
    if places < digits.len() {
        value(digits.subrange(digits.len() - places, digits.len() as int))
    } else {
        value(digits)
    }
}

/// `total` times the fraction `0.0..0d..d`, in which the last `places` digits of
/// the numeral stand behind the point, with zeros in front of them where the
/// numeral is shorter: rounded to the nearest whole number, a half going up.
/// It is computed as a long multiplication that runs from the last digit to
/// the first and keeps only the carry and the digit that it wrote last.
fn rounded_product(total: u64, digits: &Vec<u8>, places: i128) -> (rounded: u128)
    requires
        all_digits(digits@),
        1 <= places <= digits.len() + 21,
    ensures
        rounded == (2 * (total as nat) * window(digits@, places as int) + pow10(places as nat))
            / (2 * pow10(places as nat)),
{
    let n = digits.len();
    let count: usize = if places < n as i128 {
        places as usize
    } else {
        n
    };
    let mut carry: u128 = 0;
    let mut last: u8 = 0;
    let ghost mut low: nat = 0;
    let mut done: usize = 0;
    proof {
        assert(digits@.subrange(n as int, n as int) =~= Seq::empty());
        assert(pow10(0) == 1);
        assert(total * 0 == 0) by (nonlinear_arith);
    }
    while done < count
        invariant
            done <= count <= n,
            n == digits@.len(),
            all_digits(digits@),
            multiplied(
                total as nat,
                value(digits@.subrange(n - done, n as int)),
                done as nat,
                carry as nat,
                low,
                last as nat,
            ),
        decreases count - done,
    {
        let digit = digits[n - 1 - done];
        proof {
            let seen = digits@.subrange(n - done, n as int);
            assert(digits@.subrange(n - done - 1, n as int) =~= seq![digit] + seen);
            crate::decimal::lemma_value_single(digit);
            lemma_value_concat(seq![digit], seen);
            lemma_multiply_step(
                total as nat,
                value(seen),
                done as nat,
                carry as nat,
                low,
                last as nat,
                digit as nat,
            );
            assert(total * digit <= 9 * 0xffff_ffff_ffff_ffff) by (nonlinear_arith)
                requires
                    total <= 0xffff_ffff_ffff_ffff,
                    digit <= 9,
            ;
            low = (((total * digit + carry) % 10) * pow10(done as nat) + low) as nat;
        }
        let product: u128 = (total as u128) * (digit as u128) + carry;
        last = (product % 10) as u8;
        carry = product / 10;
        done += 1;
    }
    // Where the fraction has more places than the numeral has digits, zeros
    // stand in front of the numeral.
    assert(digits@.subrange(0, n as int) =~= digits@);
    let ghost factor = window(digits@, places as int);
    let mut padded: i128 = count as i128;
    while padded < places
        invariant
            0 <= padded <= places,
            places <= n + 21,
            multiplied(total as nat, factor, padded as nat, carry as nat, low, last as nat),
        decreases places - padded,
    {
        proof {
            lemma_multiply_step(
                total as nat,
                factor,
                padded as nat,
                carry as nat,
                low,
                last as nat,
                0,
            );
            assert(total * 0 == 0) by (nonlinear_arith);
            assert(0 * pow10(padded as nat) == 0) by (nonlinear_arith);
            low = (((carry as nat) % 10) * pow10(padded as nat) + low) as nat;
        }
        last = (carry % 10) as u8;
        carry = carry / 10;
        padded += 1;
    }
    proof {
        lemma_rounded(total as nat, factor, places as nat, carry as nat, low, last as nat);
    }
    if last >= 5 {
        carry + 1
    } else {
        carry
    }
}

/// A percentage whose first significant digit stands more than twenty places
/// behind the point of the fraction has the share zero of any total that a
/// machine word holds.
proof fn lemma_share_vanishes(total: nat, digits: Seq<u8>, places: int)
    requires
        all_digits(digits),
        total <= u64::MAX,
        places >= digits.len() + 22,
    ensures
        share_by_places(total, value(digits), places) == Some(0nat),
{
    let n = digits.len();
    let mantissa = value(digits) as int;
    let p = pow10(places as nat) as int;
    let pn = pow10(n) as int;
    lemma_value_bound(digits);
    lemma_pow10_grows((n + 22) as nat, places as nat);
    lemma_pow10_adds(n, 22);
    assert(pow10(22) == 10_000_000_000_000_000_000_000) by {
        reveal_with_fuel(pow10, 23);
    }
    assert(2 * total * mantissa < p && mantissa < p) by (nonlinear_arith)
        requires
            0 <= mantissa < pn,
            0 <= total < 0x1_0000_0000_0000_0000,
            p >= pn * 10_000_000_000_000_000_000_000,
            pn >= 1,
    ;
    lemma_fundamental_div_mod_converse(
        2 * total * mantissa + p,
        2 * p,
        0,
        2 * total * mantissa + p,
    );
}

/// Where the numeral has more digits than the fraction has places, the digits
/// in front weigh one or more: the fraction is below one exactly when they
/// spell zero, and then the window is the whole mantissa.
proof fn lemma_front_digits(digits: Seq<u8>, places: int)
    requires
        all_digits(digits),
        1 <= places,
    ensures
        window(digits, places) < pow10(places as nat),
        places >= digits.len() ==> value(digits) == window(digits, places),
        places < digits.len() ==> (value(digits) >= pow10(places as nat) <==> value(
            digits.subrange(0, digits.len() - places),
        ) != 0),
        places < digits.len() && value(digits.subrange(0, digits.len() - places)) == 0 ==> value(
            digits,
        ) == window(digits, places),
{
    let n = digits.len();
    let p = pow10(places as nat) as int;
    if places < n {
        let front = digits.subrange(0, n - places);
        let back = digits.subrange(n - places, n as int);
        assert(digits =~= front + back);
        lemma_value_concat(front, back);
        lemma_value_bound(back);
        let f = value(front) as int;
        if f >= 1 {
            assert(f * p >= p) by (nonlinear_arith)
                requires
                    f >= 1,
                    p >= 0,
            ;
        } else {
            assert(f * p == 0) by (nonlinear_arith)
                requires
                    f == 0,
            ;
        }
    } else {
        lemma_value_bound(digits);
        lemma_pow10_grows(n, places as nat);
    }
}

/// The share of `total` that the percentage stands for, rounded to the nearest
/// whole number, a half going up. Returns `None` where the percentage is 100
/// or more.
pub fn percent_share(total: u64, percentage: &Literal) -> (bytes: Option<u64>)
    ensures
        match share(total as nat, percentage@) {
            Some(exact) => bytes == Some(exact as u64) && exact <= total,
            None => bytes is None,
        },
{
    proof {
        use_type_invariant(percentage);
        percentage.lemma_parts();
        if !percentage@.negative {
            lemma_share_by_places(total as nat, percentage@);
        }
    }
    if percentage.is_negative() {
        return Some(0);
    }
    let digits = &percentage.digits;
    let n = digits.len();
    let exponent = bounded_exponent(percentage.exponent_negative, &percentage.exponent_digits);
    let places: i128 = 2 + (percentage.scale as i128) - exponent;
    let ghost exact_places: int = 2 - percentage@.exponent;
    assert(digits@.subrange(0, n as int) =~= digits@);
    if places <= 0 {
        assert(exact_places <= 0);
        return if leads_with_zero(digits, n) {
            Some(0)
        } else {
            None
        };
    }
    if places > n as i128 + 21 {
        proof {
            lemma_share_vanishes(total as nat, digits@, exact_places);
        }
        return Some(0);
    }
    assert(places == exact_places);
    proof {
        lemma_front_digits(digits@, exact_places);
    }
    if places < n as i128 && !leads_with_zero(digits, n - places as usize) {
        return None;
    }
    let rounded = rounded_product(total, digits, places);
    proof {
        let p = pow10(places as nat) as int;
        let mantissa = value(digits@) as int;
        lemma_pow10_adds(places as nat, 0);
        assert(2 * total * mantissa + p < (total + 1) * (2 * p)) by (nonlinear_arith)
            requires
                0 <= mantissa < p,
                total >= 0,
        ;
        assert(rounded <= total) by (nonlinear_arith)
            requires
                2 * total * mantissa + p < (total + 1) * (2 * p),
                p >= 1,
                rounded == (2 * total * mantissa + p) / (2 * p),
        ;
    }
    Some(rounded as u64)
}

/// The share that [`share`] gives for a percentage below 100 is the whole
/// number nearest to `total * percentage / 100`, the upper one where two are
/// equally near, and it is no more than the total.
pub proof fn lemma_share_is_nearest(total: nat, percentage: Decimal)
    requires
        !percentage.negative,
        percentage.numerator() < 100 * percentage.denominator(),
    ensures
        share(total, percentage) matches Some(exact) && {
            &&& (2 * exact - 1) * (100 * percentage.denominator()) <= 2 * total
                * percentage.numerator()
            &&& 2 * total * percentage.numerator() < (2 * exact + 1) * (100
                * percentage.denominator())
            &&& exact <= total
        },
{
    let n = percentage.numerator() as int;
    let d = percentage.denominator() as int;
    assert(d >= 1) by {
        if percentage.exponent < 0 {
            lemma_pow10_adds((-percentage.exponent) as nat, 0);
        }
    }
    let x = 2 * total * n + 100 * d;
    let exact = x / (200 * d);
    lemma_fundamental_div_mod(x, 200 * d);
    let r = x % (200 * d);
    assert(0 <= r < 200 * d);
    assert(x == (200 * d) * exact + r);
    assert((2 * exact - 1) * (100 * d) <= 2 * total * n < (2 * exact + 1) * (100 * d))
        by (nonlinear_arith)
        requires
            x == 2 * total * n + 100 * d,
            x == (200 * d) * exact + r,
            0 <= r < 200 * d,
    ;
    assert(exact <= total) by (nonlinear_arith)
        requires
            (2 * exact - 1) * (100 * d) <= 2 * total * n,
            0 <= n < 100 * d,
            d >= 1,
            total >= 0,
    ;
    assert(exact >= 0) by (nonlinear_arith)
        requires
            x >= 0,
            d >= 1,
            exact == x / (200 * d),
    ;
}

} // verus!
