//! Decimal literals: the numbers a percentage is written with.
//!
//! A literal is an optional sign, digits with an optional point among them (at
//! least one digit in all), and an optional exponent: `50`, `12.5`, `.5`, `5.`,
//! `-3`, `1e1`, `2.5E-1`. It stands for the exact number it spells; nothing is
//! rounded when it is read.

use vstd::prelude::*;

verus! {

/// Whether the character is one of `0` to `9`.
pub open spec fn is_digit(c: char) -> bool {
    '0' <= c && c <= '9'
}

/// The value of a digit character.
pub open spec fn digit_of(c: char) -> u8 {
    (c as u32 - '0' as u32) as u8
}

/// The digit values of a run of digit characters.
pub open spec fn numeral(text: Seq<char>) -> Seq<u8> {
    Seq::new(text.len(), |i: int| digit_of(text[i]))
}

/// The number that a sequence of digit values spells, the first digit weighing
/// most. The empty sequence spells zero.
pub open spec fn value(digits: Seq<u8>) -> nat
    decreases digits.len(),
{
    if digits.len() == 0 {
        0
    } else {
        10 * value(digits.drop_last()) + digits.last() as nat
    }
}

/// Where the run of digits that begins at `from` ends: the first position at or
/// after `from` that holds no digit.
pub open spec fn digits_end(text: Seq<char>, from: int) -> int
    decreases text.len() - from,
{
    if 0 <= from < text.len() && is_digit(text[from]) {
        digits_end(text, from + 1)
    } else {
        from
    }
}

/// Whether a sign stands at the position.
pub open spec fn has_sign(text: Seq<char>, at: int) -> bool {
    0 <= at < text.len() && (text[at] == '+' || text[at] == '-')
}

/// Whether a minus sign stands at the position.
pub open spec fn has_minus(text: Seq<char>, at: int) -> bool {
    0 <= at < text.len() && text[at] == '-'
}

/// The number `mantissa * 10^exponent`, negated where `negative` is set.
pub struct Decimal {
    pub negative: bool,
    pub mantissa: nat,
    pub exponent: int,
}

/// The number that the text spells, if it is a decimal literal.
pub open spec fn decimal_of(text: Seq<char>) -> Option<Decimal> {
    let whole_from = if has_sign(text, 0) { 1int } else { 0int };
    let whole_to = digits_end(text, whole_from);
    let pointed = whole_to < text.len() && text[whole_to] == '.';
    let part_from = if pointed { whole_to + 1 } else { whole_to };
    let part_to = digits_end(text, part_from);
    let digits = numeral(text.subrange(whole_from, whole_to)) + numeral(
        text.subrange(part_from, part_to),
    );
    if digits.len() == 0 {
        None
    } else if part_to == text.len() {
        Some(
            Decimal {
                negative: has_minus(text, 0),
                mantissa: value(digits),
                exponent: -(part_to - part_from),
            },
        )
    } else if text[part_to] == 'e' || text[part_to] == 'E' {
        let power_from = if has_sign(text, part_to + 1) { part_to + 2 } else { part_to + 1 };
        let power_to = digits_end(text, power_from);
        let power = value(numeral(text.subrange(power_from, power_to)));
        if power_to == power_from || power_to != text.len() {
            None
        } else {
            Some(
                Decimal {
                    negative: has_minus(text, 0),
                    mantissa: value(digits),
                    exponent: (if has_minus(text, part_to + 1) { -power } else { power as int })
                        - (part_to - part_from),
                },
            )
        }
    } else {
        None
    }
}

/// Ten to the power of `n`.
pub open spec fn pow10(n: nat) -> nat
    decreases n,
{
    if n == 0 {
        1
    } else {
        10 * pow10((n - 1) as nat)
    }
}

impl Decimal {
    /// The magnitude of the number is `numerator() / denominator()`.
    pub open spec fn numerator(self) -> nat {
        if self.exponent >= 0 {
            self.mantissa * pow10(self.exponent as nat)
        } else {
            self.mantissa
        }
    }

    /// The magnitude of the number is `numerator() / denominator()`.
    pub open spec fn denominator(self) -> nat {
        if self.exponent >= 0 {
            1
        } else {
            pow10((-self.exponent) as nat)
        }
    }
}

/// Powers of ten are positive, and their exponents add up.
pub proof fn lemma_pow10_adds(a: nat, b: nat)
    ensures
        pow10(a + b) == pow10(a) * pow10(b),
        pow10(a) >= 1,
    decreases a,
{
    if a == 0 {
        assert(a + b == b);
        assert(pow10(a) == 1);
    } else {
        let less = (a - 1) as nat;
        lemma_pow10_adds(less, b);
        let x = pow10(less) as int;
        let y = pow10(b) as int;
        assert(pow10(a) == 10 * x);
        assert((a + b - 1) as nat == less + b);
        assert(pow10(a + b) == 10 * pow10(less + b));
        assert(10 * (x * y) == (10 * x) * y) by (nonlinear_arith);
    }
}

/// A larger exponent gives no smaller power of ten.
pub proof fn lemma_pow10_grows(a: nat, b: nat)
    requires
        a <= b,
    ensures
        pow10(a) <= pow10(b),
{
    lemma_pow10_adds(a, (b - a) as nat);
    lemma_pow10_adds((b - a) as nat, 0);
    assert(pow10(a) * pow10((b - a) as nat) >= pow10(a)) by (nonlinear_arith)
        requires
            pow10((b - a) as nat) >= 1,
    ;
}

/// Digits written behind other digits: the front ones weigh a power of ten
/// more for each digit that follows.
pub proof fn lemma_value_concat(front: Seq<u8>, back: Seq<u8>)
    ensures
        value(front + back) == value(front) * pow10(back.len()) + value(back),
    decreases back.len(),
{
    if back.len() == 0 {
        assert(front + back =~= front);
        assert(pow10(0) == 1);
        assert(value(back) == 0);
    } else {
        let whole = front + back;
        let shorter = back.drop_last();
        assert(whole.drop_last() =~= front + shorter);
        assert(whole.last() == back.last());
        lemma_value_concat(front, shorter);
        let v = value(front) as int;
        let p = pow10(shorter.len()) as int;
        assert(pow10(back.len()) == 10 * p);
        assert(value(whole) == 10 * value(front + shorter) + back.last());
        assert(value(back) == 10 * value(shorter) + back.last());
        assert(10 * (v * p) == v * (10 * p)) by (nonlinear_arith);
    }
}

/// A single digit spells its own value.
pub proof fn lemma_value_single(digit: u8)
    ensures
        value(seq![digit]) == digit,
{
    assert(seq![digit].drop_last() =~= Seq::<u8>::empty());
    assert(value(Seq::<u8>::empty()) == 0);
}

/// A numeral of `n` digits spells a number below the `n`-th power of ten.
pub proof fn lemma_value_bound(digits: Seq<u8>)
    requires
        all_digits(digits),
    ensures
        value(digits) < pow10(digits.len()),
    decreases digits.len(),
{
    if digits.len() > 0 {
        lemma_value_bound(digits.drop_last());
    }
}

/// Whether every element is a digit value.
pub open spec fn all_digits(digits: Seq<u8>) -> bool {
    forall|i: int| 0 <= i < digits.len() ==> digits[i] <= 9
}

/// A decimal literal as it was read: its digits, not yet a number of any fixed
/// width, so that no literal is too long or too small to be held exactly.
#[derive(Debug)]
pub struct Literal {
    pub(crate) negative: bool,
    /// The digits in front of and behind the point, the first weighing most.
    pub(crate) digits: Vec<u8>,
    /// How many of the digits stand behind the point.
    pub(crate) scale: usize,
    pub(crate) exponent_negative: bool,
    /// The digits of the exponent; none where the literal has no exponent.
    pub(crate) exponent_digits: Vec<u8>,
}

impl View for Literal {
    type V = Decimal;

    /// The number that the literal stands for.
    closed spec fn view(&self) -> Decimal {
        Decimal {
            negative: self.negative,
            mantissa: value(self.digits@),
            exponent: self.written_exponent() - self.scale,
        }
    }
}

impl Literal {
    #[verifier::type_invariant]
    pub(crate) closed spec fn valid(self) -> bool {
        &&& all_digits(self.digits@)
        &&& all_digits(self.exponent_digits@)
        &&& self.scale <= self.digits.len()
    }

    /// The exponent as the literal spells it.
    pub(crate) open spec fn written_exponent(self) -> int {
        if self.exponent_negative {
            -(value(self.exponent_digits@) as int)
        } else {
            value(self.exponent_digits@) as int
        }
    }

    /// Whether the literal has a minus sign.
    pub fn is_negative(&self) -> (negative: bool)
        ensures
            negative == self@.negative,
    {
        self.negative
    }

    /// How the number that a literal stands for is made of its parts.
    pub(crate) proof fn lemma_parts(self)
        requires
            self.valid(),
        ensures
            all_digits(self.digits@),
            all_digits(self.exponent_digits@),
            self.scale <= self.digits.len(),
            self@.negative == self.negative,
            self@.mantissa == value(self.digits@),
            self@.exponent == self.written_exponent() - self.scale,
    {
    }
}

/// The characters of a string.
fn chars_of(text: &str) -> (chars: Vec<char>)
    ensures
        chars@ == text@,
{
    let mut chars: Vec<char> = Vec::new();
    for c in it: text.chars()
        invariant
            it.seq() == text@,
            chars@ == text@.take(it.index() as int),
    {
        chars.push(c);
        assert(text@.take(it.index() + 1) =~= text@.take(it.index() as int).push(c));
    }
    assert(text@.take(text@.len() as int) =~= text@);
    chars
}

/// Reads the run of digits that begins at `from`, appends their values to
/// `into`, and returns where the run ends.
fn read_digits(chars: &Vec<char>, from: usize, into: &mut Vec<u8>) -> (end: usize)
    requires
        from <= chars.len(),
        all_digits(old(into)@),
    ensures
        end == digits_end(chars@, from as int),
        end == digits_end(chars@, end as int),
        from <= end <= chars.len(),
        final(into)@ == old(into)@ + numeral(chars@.subrange(from as int, end as int)),
        all_digits(final(into)@),
{
    let mut at = from;
    assert(numeral(chars@.subrange(from as int, from as int)) =~= Seq::empty());
    assert(into@ + Seq::<u8>::empty() =~= into@);
    while at < chars.len() && '0' <= chars[at] && chars[at] <= '9'
        invariant
            from <= at <= chars.len(),
            digits_end(chars@, from as int) == digits_end(chars@, at as int),
            into@ == old(into)@ + numeral(chars@.subrange(from as int, at as int)),
            all_digits(into@),
        decreases chars.len() - at,
    {
        let c = chars[at];
        let digit = (c as u32 - '0' as u32) as u8;
        proof {
            let seen = numeral(chars@.subrange(from as int, at as int));
            assert(numeral(chars@.subrange(from as int, at + 1)) =~= seen.push(digit));
            assert((old(into)@ + seen).push(digit) =~= old(into)@ + seen.push(digit));
        }
        into.push(digit);
        at += 1;
    }
    at
}

/// Reads a decimal literal. Returns `None` where the text is none.
pub fn parse_decimal(text: &str) -> (literal: Option<Literal>)
    ensures
        match literal {
            Some(literal) => decimal_of(text@) == Some(literal@),
            None => decimal_of(text@) is None,
        },
{
    let chars = chars_of(text);
    let len = chars.len();
    let mut at: usize = 0;
    let mut negative = false;
    if at < len && (chars[at] == '+' || chars[at] == '-') {
        negative = chars[at] == '-';
        at += 1;
    }
    let mut digits: Vec<u8> = Vec::new();
    at = read_digits(&chars, at, &mut digits);
    let whole = digits.len();
    if at < len && chars[at] == '.' {
        at += 1;
        at = read_digits(&chars, at, &mut digits);
    }
    let scale = digits.len() - whole;
    if digits.len() == 0 {
        return None;
    }
    let mut exponent_negative = false;
    let mut exponent_digits: Vec<u8> = Vec::new();
    if at < len {
        if chars[at] != 'e' && chars[at] != 'E' {
            return None;
        }
        at += 1;
        if at < len && (chars[at] == '+' || chars[at] == '-') {
            exponent_negative = chars[at] == '-';
            at += 1;
        }
        at = read_digits(&chars, at, &mut exponent_digits);
        if exponent_digits.len() == 0 || at < len {
            return None;
        }
    }
    Some(Literal { negative, digits, scale, exponent_negative, exponent_digits })
}

} // verus!
