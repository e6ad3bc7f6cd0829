//! Amounts of money as decimal text: reading a decimal numeral into whole
//! sub-units, and writing an integer out in decimal.

use vstd::prelude::*;
use vstd::arithmetic::div_mod::lemma_div_denominator;

verus! {

/// Decimal places of the base unit that a sub-unit stands for.
pub const SUB_UNIT_DIGITS: u64 = 9;

/// Whether a byte is an ASCII decimal digit.
pub open spec fn is_digit(byte: u8) -> bool {
    0x30 <= byte <= 0x39
}

/// Whether every byte of `digits` is a decimal digit.
pub open spec fn all_digits(digits: Seq<u8>) -> bool {
    forall|i: int| 0 <= i < digits.len() ==> is_digit(#[trigger] digits[i])
}

/// Ten to the power `exponent`.
pub open spec fn pow10(exponent: nat) -> nat
    decreases exponent,
{
    if exponent == 0 {
        1
    } else {
        10 * pow10((exponent - 1) as nat)
    }
}

/// The number that a run of decimal digits denotes; the empty run denotes 0.
pub open spec fn digits_value(digits: Seq<u8>) -> nat
    decreases digits.len(),
{
    if digits.len() == 0 {
        0
    } else {
        digits_value(digits.drop_last()) * 10 + (digits.last() - 0x30) as nat
    }
}

/// Where the run of digits that starts at `from` ends: the position of the
/// first byte at or after `from` that is no digit, or the end of the text.
pub open spec fn digit_run(text: Seq<u8>, from: int) -> int
    decreases text.len() - from,
{
    if 0 <= from < text.len() && is_digit(text[from]) {
        digit_run(text, from + 1)
    } else {
        from
    }
}

/// The parts of a decimal numeral.
pub struct Numeral {
    /// Whether a minus sign leads.
    pub negative: bool,
    /// The digits before and after the decimal point, in one run.
    pub digits: Seq<u8>,
    /// How many of `digits` stand after the decimal point.
    pub fraction_len: nat,
    /// The power of ten that follows `e`, or 0 where there is none.
    pub exponent: int,
}

/// The parts of `text` read as a decimal numeral, where it is one: an optional
/// minus sign, one or more digits, optionally a point and one or more digits,
/// optionally `e` or `E`, an optional sign and one or more digits.
pub open spec fn numeral(text: Seq<u8>) -> Option<Numeral> {
    let negative = text.len() > 0 && text[0] == 0x2d;
    let whole_from: int = if negative {
        1
    } else {
        0
    };
    let whole_to = digit_run(text, whole_from);
    let pointed = whole_to < text.len() && text[whole_to] == 0x2e;
    let fraction_from = if pointed {
        whole_to + 1
    } else {
        whole_to
    };
    let fraction_to = digit_run(text, fraction_from);
    let powered = fraction_to < text.len() && (text[fraction_to] == 0x65 || text[fraction_to]
        == 0x45);
    let sign_at = fraction_to + 1;
    let signed = powered && sign_at < text.len() && (text[sign_at] == 0x2d || text[sign_at]
        == 0x2b);
    let power_from = if !powered {
        fraction_to
    } else if signed {
        sign_at + 1
    } else {
        sign_at
    };
    let power_to = digit_run(text, power_from);
    let power = digits_value(text.subrange(power_from, power_to)) as int;
    if whole_to > whole_from && (pointed ==> fraction_to > fraction_from) && (powered ==> power_to
        > power_from) && power_to == text.len() {
        Some(
            Numeral {
                negative,
                digits: text.subrange(whole_from, whole_to) + text.subrange(
                    fraction_from,
                    fraction_to,
                ),
                fraction_len: (fraction_to - fraction_from) as nat,
                exponent: if signed && text[sign_at] == 0x2d {
                    -power
                } else {
                    power
                },
            },
        )
    } else {
        None
    }
}

/// The number that `digits` denote, times ten to the power `shift`, rounded
/// down to a whole number.
pub open spec fn scaled(digits: Seq<u8>, shift: int) -> nat {
    if shift >= 0 {
        digits_value(digits) * pow10(shift as nat)
    } else {
        digits_value(digits) / pow10((-shift) as nat)
    }
}

/// The size of a numeral in sub-units, rounded down, whatever its sign.
pub open spec fn magnitude(parts: Numeral) -> nat {
    scaled(parts.digits, parts.exponent - parts.fraction_len + SUB_UNIT_DIGITS)
}

/// What a piece of text says as an amount of money.
#[derive(PartialEq, Eq, Structural, Clone, Copy, Debug)]
pub enum Reading {
    /// The amount in sub-units, rounded down.
    Amount(u64),
    /// The text denotes a number below zero.
    Negative,
    /// The amount does not fit in 64 bits of sub-units.
    TooLarge,
    /// The text is no decimal numeral.
    Malformed,
}

/// What `text` says as an amount of money in base units.
pub open spec fn reading(text: Seq<u8>) -> Reading {
    match numeral(text) {
        None => Reading::Malformed,
        Some(parts) => if parts.negative && digits_value(parts.digits) > 0 {
            Reading::Negative
        } else if magnitude(parts) > u64::MAX {
            Reading::TooLarge
        } else {
            Reading::Amount(magnitude(parts) as u64)
        },
    }
}

/// The first `count` digits of `digits`, with zeros where `digits` has run
/// out; nothing where `count` is not positive.
spec fn padded(digits: Seq<u8>, count: int) -> Seq<u8> {
    Seq::new(
        if count > 0 {
            count as nat
        } else {
            0
        },
        |i: int|
            if i < digits.len() {
                digits[i]
            } else {
                0x30u8
            },
    )
}

proof fn lemma_pow10_positive(exponent: nat)
    ensures
        pow10(exponent) > 0,
    decreases exponent,
{
    if exponent > 0 {
        lemma_pow10_positive((exponent - 1) as nat);
    }
}

proof fn lemma_pow10_grows(low: nat, high: nat)
    requires
        low <= high,
    ensures
        pow10(low) <= pow10(high),
    decreases high,
{
    if low < high {
        lemma_pow10_grows(low, (high - 1) as nat);
    }
}

proof fn lemma_padded_step(digits: Seq<u8>, count: int)
    requires
        count >= 0,
    ensures
        digits_value(padded(digits, count + 1)) == digits_value(padded(digits, count)) * 10 + (
        padded(digits, count + 1)[count] - 0x30) as nat,
        padded(digits, count + 1)[count] == if count < digits.len() {
            digits[count]
        } else {
            0x30u8
        },
{
    assert(padded(digits, count + 1).drop_last() =~= padded(digits, count));
}

proof fn lemma_padded_grows(digits: Seq<u8>, low: int, high: int)
    requires
        0 <= low <= high,
        all_digits(digits),
    ensures
        digits_value(padded(digits, low)) <= digits_value(padded(digits, high)),
    decreases high,
{
    if low < high {
        lemma_padded_grows(digits, low, high - 1);
        lemma_padded_step(digits, high - 1);
    }
}

proof fn lemma_scaled_is_padded(digits: Seq<u8>, shift: int)
    requires
        all_digits(digits),
    ensures
        scaled(digits, shift) == digits_value(padded(digits, digits.len() + shift)),
    decreases
            if shift >= 0 {
                shift
            } else {
                -shift
            },
{
    let n = digits.len() as int;
    if shift == 0 {
        assert(padded(digits, n) =~= digits);
        assert(pow10(0) == 1);
        assert(scaled(digits, shift) == digits_value(digits));
    } else if shift > 0 {
        lemma_scaled_is_padded(digits, shift - 1);
        lemma_padded_step(digits, n + shift - 1);
        let v = digits_value(digits);
        let p = pow10((shift - 1) as nat);
        assert(pow10(shift as nat) == 10 * p);
        assert(v * (10 * p) == (v * p) * 10) by (nonlinear_arith);
        assert(scaled(digits, shift) == scaled(digits, shift - 1) * 10);
    } else {
        let j = -shift;
        lemma_scaled_is_padded(digits, shift + 1);
        let v = digits_value(digits) as int;
        let p = pow10((j - 1) as nat) as int;
        lemma_pow10_positive((j - 1) as nat);
        lemma_div_denominator(v, p, 10);
        assert(pow10(j as nat) == 10 * p);
        assert(p * 10 == 10 * p);
        assert(v / (10 * p) == (v / p) / 10);
        assert(scaled(digits, shift) == v / (10 * p));
        if j == 1 {
            assert(pow10(0) == 1);
            assert(p == 1);
            assert(v / 1 == v);
            assert(v * 1 == v);
            assert(scaled(digits, 0) == digits_value(digits) * pow10(0));
            assert(scaled(digits, shift + 1) == v);
        } else {
            assert(scaled(digits, shift + 1) == v / p);
        }
        assert(scaled(digits, shift) == scaled(digits, shift + 1) / 10);
        if n - j >= 0 {
            lemma_padded_step(digits, n - j);
            assert(is_digit(digits[n - j]));
        } else {
            assert(padded(digits, n - j + 1) =~= padded(digits, n - j));
        }
    }
}

proof fn lemma_zero_value(digits: Seq<u8>)
    requires
        all_digits(digits),
    ensures
        digits_value(digits) == 0 <==> (forall|i: int|
            0 <= i < digits.len() ==> #[trigger] digits[i] == 0x30),
    decreases digits.len(),
{
    if digits.len() > 0 {
        let front = digits.drop_last();
        lemma_zero_value(front);
        assert(is_digit(digits.last()));
        if digits_value(digits) == 0 {
            assert forall|i: int| 0 <= i < digits.len() implies #[trigger] digits[i] == 0x30 by {
                if i < front.len() {
                    assert(front[i] == digits[i]);
                }
            }
        } else {
            if forall|i: int| 0 <= i < digits.len() ==> #[trigger] digits[i] == 0x30 {
                assert forall|i: int| 0 <= i < front.len() implies #[trigger] front[i] == 0x30 by {
                    assert(front[i] == digits[i]);
                }
                assert(digits[digits.len() - 1] == 0x30);
            }
        }
    }
}

/// Where the run of digits that starts at `from` ends.
fn scan_digits(text: &[u8], from: usize) -> (to: usize)
    requires
        from <= text.len(),
    ensures
        to == digit_run(text@, from as int),
        from <= to <= text.len(),
        all_digits(text@.subrange(from as int, to as int)),
{
    let mut to: usize = from;
    while to < text.len() && 0x30 <= text[to] && text[to] <= 0x39
        invariant
            from <= to <= text.len(),
            digit_run(text@, from as int) == digit_run(text@, to as int),
            forall|i: int| from <= i < to ==> is_digit(#[trigger] text@[i]),
        decreases text.len() - to,
    {
        to = to + 1;
    }
    to
}

/// The number that the digits of `text` between `from` and `to` denote, or
/// `limit` if that is less.
fn bounded_value(text: &[u8], from: usize, to: usize, limit: u128) -> (value: u128)
    requires
        from <= to <= text.len(),
        all_digits(text@.subrange(from as int, to as int)),
        limit <= 1_000_000_000_000_000_000_000_000_000_000,
    ensures
        value == if digits_value(text@.subrange(from as int, to as int)) < limit {
            digits_value(text@.subrange(from as int, to as int))
        } else {
            limit as nat
        },
{
    let mut value: u128 = 0;
    let mut at: usize = from;
    while at < to
        invariant
            from <= at <= to <= text.len(),
            all_digits(text@.subrange(from as int, to as int)),
            limit <= 1_000_000_000_000_000_000_000_000_000_000,
            value <= limit,
            value == if digits_value(text@.subrange(from as int, at as int)) < limit {
                digits_value(text@.subrange(from as int, at as int))
            } else {
                limit as nat
            },
        decreases to - at,
    {
        proof {
            let run = text@.subrange(from as int, at + 1);
            assert(run.drop_last() =~= text@.subrange(from as int, at as int));
            assert(run.last() == text@[at as int]);
            assert(text@.subrange(from as int, to as int)[at - from] == text@[at as int]);
        }
        let digit: u128 = (text[at] - 0x30) as u128;
        let next: u128 = value * 10 + digit;
        value = if next < limit {
            next
        } else {
            limit
        };
        at = at + 1;
    }
    value
}

/// Where the parts of a numeral stand in its text.
struct Layout {
    negative: bool,
    whole_from: usize,
    whole_to: usize,
    fraction_from: usize,
    fraction_to: usize,
    power_negative: bool,
    power_from: usize,
    power_to: usize,
}

impl Layout {
    spec fn fits(self, text: Seq<u8>) -> bool {
        &&& self.whole_from <= self.whole_to <= self.fraction_from <= self.fraction_to
            <= self.power_from <= self.power_to <= text.len()
        &&& all_digits(self.digits(text))
        &&& all_digits(text.subrange(self.power_from as int, self.power_to as int))
    }

    spec fn digits(self, text: Seq<u8>) -> Seq<u8> {
        text.subrange(self.whole_from as int, self.whole_to as int) + text.subrange(
            self.fraction_from as int,
            self.fraction_to as int,
        )
    }

    spec fn power(self, text: Seq<u8>) -> nat {
        digits_value(text.subrange(self.power_from as int, self.power_to as int))
    }

    spec fn parts(self, text: Seq<u8>) -> Numeral {
        Numeral {
            negative: self.negative,
            digits: self.digits(text),
            fraction_len: (self.fraction_to - self.fraction_from) as nat,
            exponent: if self.power_negative {
                -(self.power(text) as int)
            } else {
                self.power(text) as int
            },
        }
    }
}

/// Finds the parts of a numeral in `text`.
fn lay_out(text: &[u8]) -> (found: Option<Layout>)
    ensures
        match found {
            Some(layout) => layout.fits(text@) && numeral(text@) == Some(layout.parts(text@)),
            None => numeral(text@) is None,
        },
{
    let len: usize = text.len();
    let negative = len > 0 && text[0] == 0x2d;
    let whole_from: usize = if negative {
        1
    } else {
        0
    };
    let whole_to: usize = scan_digits(text, whole_from);
    if whole_to == whole_from {
        return None;
    }
    let pointed = whole_to < len && text[whole_to] == 0x2e;
    let fraction_from: usize = if pointed {
        whole_to + 1
    } else {
        whole_to
    };
    let fraction_to: usize = scan_digits(text, fraction_from);
    if pointed && fraction_to == fraction_from {
        return None;
    }
    let powered = fraction_to < len && (text[fraction_to] == 0x65 || text[fraction_to] == 0x45);
    let mut power_from: usize = fraction_to;
    let mut power_negative = false;
    if powered {
        let sign_at: usize = fraction_to + 1;
        if sign_at < len && (text[sign_at] == 0x2d || text[sign_at] == 0x2b) {
            power_negative = text[sign_at] == 0x2d;
            power_from = sign_at + 1;
        } else {
            power_from = sign_at;
        }
    }
    let power_to: usize = scan_digits(text, power_from);
    if (powered && power_to == power_from) || power_to != len {
        return None;
    }
    let layout = Layout {
        negative,
        whole_from,
        whole_to,
        fraction_from,
        fraction_to,
        power_negative,
        power_from,
        power_to,
    };
    proof {
        let whole = text@.subrange(whole_from as int, whole_to as int);
        let fraction = text@.subrange(fraction_from as int, fraction_to as int);
        let digits = layout.digits(text@);
        assert forall|i: int| 0 <= i < digits.len() implies is_digit(#[trigger] digits[i]) by {
            if i < whole.len() {
                assert(digits[i] == whole[i]);
            } else {
                assert(digits[i] == fraction[i - whole.len()]);
            }
        }
    }
    Some(layout)
}

/// The digit at position `at` of the digits before and after the point,
/// taken as one run.
fn mantissa_digit(text: &[u8], layout: &Layout, at: usize) -> (digit: u8)
    requires
        layout.fits(text@),
        at < layout.digits(text@).len(),
    ensures
        digit == layout.digits(text@)[at as int],
        is_digit(digit),
{
    let whole_len: usize = layout.whole_to - layout.whole_from;
    if at < whole_len {
        text[layout.whole_from + at]
    } else {
        text[layout.fraction_from + (at - whole_len)]
    }
}

/// Whether any digit before or after the point is other than zero.
fn has_value(text: &[u8], layout: &Layout) -> (nonzero: bool)
    requires
        layout.fits(text@),
    ensures
        nonzero == (digits_value(layout.digits(text@)) > 0),
{
    let ghost digits = layout.digits(text@);
    let digit_count: usize = (layout.whole_to - layout.whole_from) + (layout.fraction_to
        - layout.fraction_from);
    proof {
        lemma_zero_value(digits);
    }
    let mut at: usize = 0;
    while at < digit_count
        invariant
            at <= digit_count,
            digit_count == digits.len(),
            digits == layout.digits(text@),
            layout.fits(text@),
            forall|i: int| 0 <= i < at ==> #[trigger] digits[i] == 0x30,
            digits_value(digits) == 0 <==> (forall|i: int|
                0 <= i < digits.len() ==> #[trigger] digits[i] == 0x30),
        decreases digit_count - at,
    {
        if mantissa_digit(text, layout, at) != 0x30 {
            return true;
        }
        at = at + 1;
    }
    false
}

/// The number that the first `count` digits denote, with zeros where the
/// digits have run out, if it fits in 64 bits.
fn padded_value(text: &[u8], layout: &Layout, count: i128) -> (value: Option<u64>)
    requires
        layout.fits(text@),
    ensures
        match value {
            Some(v) => v == digits_value(padded(layout.digits(text@), count as int)),
            None => digits_value(padded(layout.digits(text@), count as int)) > u64::MAX,
        },
{
    let ghost digits = layout.digits(text@);
    let digit_count: usize = (layout.whole_to - layout.whole_from) + (layout.fraction_to
        - layout.fraction_from);
    let mut value: u64 = 0;
    let mut place: i128 = 0;
    while place < count
        invariant
            0 <= place,
            place <= count || place == 0,
            value == digits_value(padded(digits, place as int)),
            digit_count == digits.len(),
            digits == layout.digits(text@),
            layout.fits(text@),
        decreases count - place,
    {
        let digit: u8 = if place < digit_count as i128 {
            mantissa_digit(text, layout, place as usize)
        } else {
            0x30
        };
        proof {
            lemma_padded_step(digits, place as int);
        }
        let next: u128 = (value as u128) * 10 + ((digit - 0x30) as u128);
        if next > 0xffff_ffff_ffff_ffff {
            proof {
                lemma_padded_grows(digits, place + 1, count as int);
            }
            return None;
        }
        value = next as u64;
        place = place + 1;
    }
    proof {
        assert(padded(digits, place as int) =~= padded(digits, count as int));
    }
    Some(value)
}

proof fn lemma_nothing_scales_to_nothing(digits: Seq<u8>, shift: int)
    requires
        digits_value(digits) == 0,
    ensures
        scaled(digits, shift) == 0,
{
    if shift >= 0 {
        assert(0nat * pow10(shift as nat) == 0) by (nonlinear_arith);
    } else {
        lemma_pow10_positive((-shift) as nat);
        assert(0nat / pow10((-shift) as nat) == 0) by (nonlinear_arith)
            requires
                pow10((-shift) as nat) > 0,
        ;
    }
}

proof fn lemma_far_shift_overflows(digits: Seq<u8>, shift: int)
    requires
        digits_value(digits) > 0,
        shift >= 20,
    ensures
        scaled(digits, shift) > u64::MAX,
{
    lemma_pow10_grows(20, shift as nat);
    assert(pow10(20) == 100_000_000_000_000_000_000) by {
        reveal_with_fuel(pow10, 21);
    }
    assert(digits_value(digits) * pow10(shift as nat) >= pow10(shift as nat)) by (nonlinear_arith)
        requires
            digits_value(digits) >= 1,
    ;
}

/// Reads a decimal numeral as an amount of money: the number it denotes in
/// base units, in whole sub-units, rounded down.
pub fn read_amount(text: &[u8]) -> (result: Reading)
    ensures
        result == reading(text@),
{
    let layout = match lay_out(text) {
        Some(layout) => layout,
        None => {
            return Reading::Malformed;
        },
    };
    let ghost digits = layout.digits(text@);
    let ghost shift = layout.parts(text@).exponent - (layout.fraction_to - layout.fraction_from)
        + SUB_UNIT_DIGITS;
    proof {
        lemma_scaled_is_padded(digits, shift);
    }
    if !has_value(text, &layout) {
        proof {
            lemma_nothing_scales_to_nothing(digits, shift);
        }
        return Reading::Amount(0);
    }
    if layout.negative {
        return Reading::Negative;
    }
    let limit: u128 = 1_000_000_000_000_000_000_000_000_000_000;
    let power: u128 = bounded_value(text, layout.power_from, layout.power_to, limit);
    if power >= limit {
        if layout.power_negative {
            proof {
                assert(padded(digits, digits.len() + shift) =~= Seq::<u8>::empty());
            }
            return Reading::Amount(0);
        } else {
            proof {
                lemma_far_shift_overflows(digits, shift);
            }
            return Reading::TooLarge;
        }
    }
    let exponent: i128 = if layout.power_negative {
        -(power as i128)
    } else {
        power as i128
    };
    let whole_len: usize = layout.whole_to - layout.whole_from;
    let count: i128 = whole_len as i128 + exponent + 9;
    assert(count == digits.len() + shift);
    match padded_value(text, &layout, count) {
        Some(value) => Reading::Amount(value),
        None => Reading::TooLarge,
    }
}

/// The amount that a bid offers, where its text names one: a well-formed
/// numeral that is not below zero and fits in 64 bits of sub-units.
pub open spec fn offered_amount(text: Seq<u8>) -> Option<u64> {
    match reading(text) {
        Reading::Amount(sub_units) => Some(sub_units),
        _ => None,
    }
}

/// The cap that a request sets, where its text names one. A cap below zero
/// leaves room for nothing and counts as zero.
pub open spec fn cap_amount(text: Seq<u8>) -> Option<u64> {
    match reading(text) {
        Reading::Amount(sub_units) => Some(sub_units),
        Reading::Negative => Some(0u64),
        _ => None,
    }
}

/// Reads the amount of a bid.
pub fn read_offer(text: &[u8]) -> (amount: Option<u64>)
    ensures
        amount == offered_amount(text@),
{
    match read_amount(text) {
        Reading::Amount(sub_units) => Some(sub_units),
        _ => None,
    }
}

/// Reads the cap of a request.
pub fn read_cap(text: &[u8]) -> (cap: Option<u64>)
    ensures
        cap == cap_amount(text@),
{
    match read_amount(text) {
        Reading::Amount(sub_units) => Some(sub_units),
        Reading::Negative => Some(0),
        _ => None,
    }
}

/// The character that writes a digit.
pub open spec fn digit_char(digit: nat) -> char {
    if digit == 0 {
        '0'
    } else if digit == 1 {
        '1'
    } else if digit == 2 {
        '2'
    } else if digit == 3 {
        '3'
    } else if digit == 4 {
        '4'
    } else if digit == 5 {
        '5'
    } else if digit == 6 {
        '6'
    } else if digit == 7 {
        '7'
    } else if digit == 8 {
        '8'
    } else {
        '9'
    }
}

/// A number written in decimal, without sign or leading zeros.
pub open spec fn decimal_text(number: nat) -> Seq<char>
    decreases number,
{
    if number < 10 {
        seq![digit_char(number)]
    } else {
        decimal_text(number / 10).push(digit_char(number % 10))
    }
}

fn digit_text(digit: u64) -> (text: &'static str)
    requires
        digit < 10,
    ensures
        text@ == seq![digit_char(digit as nat)],
{
    proof {
        reveal_strlit("0");
        reveal_strlit("1");
        reveal_strlit("2");
        reveal_strlit("3");
        reveal_strlit("4");
        reveal_strlit("5");
        reveal_strlit("6");
        reveal_strlit("7");
        reveal_strlit("8");
        reveal_strlit("9");
    }
    let text = if digit == 0 {
        "0"
    } else if digit == 1 {
        "1"
    } else if digit == 2 {
        "2"
    } else if digit == 3 {
        "3"
    } else if digit == 4 {
        "4"
    } else if digit == 5 {
        "5"
    } else if digit == 6 {
        "6"
    } else if digit == 7 {
        "7"
    } else if digit == 8 {
        "8"
    } else {
        "9"
    };
    assert(text@ =~= seq![digit_char(digit as nat)]);
    text
}

/// Writes a number in decimal.
pub fn write_decimal(number: u64) -> (text: String)
    ensures
        text@ == decimal_text(number as nat),
    decreases number,
{
    if number < 10 {
        digit_text(number).to_owned()
    } else {
        let mut text = write_decimal(number / 10);
        text.append(digit_text(number % 10));
        assert(text@ =~= decimal_text(number as nat));
        text
    }
}

} // verus!
