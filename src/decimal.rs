use vstd::prelude::*;

use crate::text::{self, digit_to_char, push_char, push_nat};

verus! {

/// An exact decimal number: `digits * 10^-scale`, negated when `negative` holds.
///
/// Numeric arguments and replies of the protocol are carried in this form, so that
/// the text of every value is fixed by the value alone.
#[derive(Debug, Clone, Copy, PartialEq, Eq, Structural, Hash)]
pub struct Decimal {
    pub negative: bool,
    pub digits: u128,
    pub scale: u32,
}

/// The digits and scale left once trailing zeros of the fraction are dropped.
pub open spec fn trimmed(digits: nat, scale: nat) -> (nat, nat)
    decreases scale,
{
    if scale > 0 && digits % 10 == 0 {
        trimmed(digits / 10, (scale - 1) as nat)
    } else {
        (digits, scale)
    }
}

/// The text of `digits * 10^-scale` with exactly `scale` digits after the point
/// (and no point when `scale` is zero).
pub open spec fn fixed_text(digits: nat, scale: nat) -> Seq<char>
    decreases scale,
{
    if scale == 0 {
        text::nat_text(digits)
    } else if scale == 1 {
        text::nat_text(digits / 10).push('.').push(text::digit_char(digits % 10))
    } else {
        fixed_text(digits / 10, (scale - 1) as nat).push(text::digit_char(digits % 10))
    }
}

/// The natural decimal text of a number: a `-` for a negative one, no trailing zeros
/// after the point, and no point for a whole number (`24`, `12.5`, `-0.25`).
pub open spec fn decimal_text(d: Decimal) -> Seq<char> {
    let t = trimmed(d.digits as nat, d.scale as nat);
    if d.negative {
        seq!['-'] + fixed_text(t.0, t.1)
    } else {
        fixed_text(t.0, t.1)
    }
}

/// The magnitude of a signed integer.
pub open spec fn magnitude(v: int) -> nat {
    if v < 0 {
        (-v) as nat
    } else {
        v as nat
    }
}

fn push_fixed(out: &mut String, digits: u128, scale: u32)
    ensures
        final(out)@ == old(out)@ + fixed_text(digits as nat, scale as nat),
    decreases scale,
{
    if scale == 0 {
        push_nat(out, digits);
    } else if scale == 1 {
        push_nat(out, digits / 10);
        push_char(out, '.');
        push_char(out, digit_to_char(digits % 10));
    } else {
        push_fixed(out, digits / 10, scale - 1);
        push_char(out, digit_to_char(digits % 10));
    }
    assert(final(out)@ =~= old(out)@ + fixed_text(digits as nat, scale as nat));
}

/// Appends the natural decimal text of `d`.
pub(crate) fn push_decimal(out: &mut String, d: Decimal)
    ensures
        final(out)@ == old(out)@ + decimal_text(d),
{
    let mut digits = d.digits;
    let mut scale = d.scale;
    while scale > 0 && digits % 10 == 0
        invariant
            trimmed(digits as nat, scale as nat) == trimmed(d.digits as nat, d.scale as nat),
        decreases scale,
    {
        digits = digits / 10;
        scale = scale - 1;
    }
    if d.negative {
        push_char(out, '-');
    }
    push_fixed(out, digits, scale);
    assert(final(out)@ =~= old(out)@ + decimal_text(d));
}

impl Decimal {
    /// The whole number `value`.
    pub fn integer(value: i64) -> (r: Decimal)
        ensures
            r.negative == (value < 0),
            r.digits == magnitude(value as int),
            r.scale == 0,
    {
        Decimal::new(value, 0)
    }

    /// The number `units * 10^-scale` (`Decimal::new(125, 1)` is 12.5).
    pub fn new(units: i64, scale: u32) -> (r: Decimal)
        ensures
            r.negative == (units < 0),
            r.digits == magnitude(units as int),
            r.scale == scale,
    {
        let digits: u128 = if units < 0 {
            (0i128 - units as i128) as u128
        } else {
            units as u128
        };
        Decimal { negative: units < 0, digits, scale }
    }

    /// Zero, the value that an unreadable reply stands for.
    pub fn zero() -> (r: Decimal)
        ensures
            r == (Decimal { negative: false, digits: 0, scale: 0 }),
    {
        Decimal { negative: false, digits: 0, scale: 0 }
    }

    /// The natural decimal text of the number.
    pub fn to_text(&self) -> (r: String)
        ensures
            r@ == decimal_text(*self),
    {
        let mut r = String::new();
        push_decimal(&mut r, *self);
        assert(r@ =~= decimal_text(*self));
        r
    }
}

} // verus!
