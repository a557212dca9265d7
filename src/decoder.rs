use vstd::prelude::*;

use crate::decimal::Decimal;
use crate::text::push_char;

verus! {

/// The bytes that `str::trim` removes from a reply, whose characters are single bytes:
/// the ASCII whitespace, NEL and the no-break space.
pub open spec fn is_space(b: u8) -> bool {
    (9 <= b && b <= 13) || b == 32 || b == 0x85 || b == 0xA0
}

pub open spec fn trim_start(s: Seq<u8>) -> Seq<u8>
    decreases s.len(),
{
    if s.len() > 0 && is_space(s[0]) {
        trim_start(s.drop_first())
    } else {
        s
    }
}

pub open spec fn trim_end(s: Seq<u8>) -> Seq<u8>
    decreases s.len(),
{
    if s.len() > 0 && is_space(s.last()) {
        trim_end(s.drop_last())
    } else {
        s
    }
}

/// The bytes with the whitespace at both ends removed.
pub open spec fn trim(s: Seq<u8>) -> Seq<u8> {
    trim_end(trim_start(s))
}

/// The text whose characters are the given bytes, one each.
pub open spec fn latin1(s: Seq<u8>) -> Seq<char> {
    s.map_values(|b: u8| b as char)
}

pub open spec fn is_digit(b: u8) -> bool {
    48 <= b && b <= 57
}

pub open spec fn all_digits(s: Seq<u8>) -> bool {
    forall|i: int| 0 <= i < s.len() ==> is_digit(#[trigger] s[i])
}

/// The number that a run of decimal digits spells.
pub open spec fn digits_value(s: Seq<u8>) -> nat
    decreases s.len(),
{
    if s.len() == 0 {
        0
    } else {
        digits_value(s.drop_last()) * 10 + (s.last() - 48) as nat
    }
}

/// Whether the text starts with a minus sign, and the text after an optional sign.
pub open spec fn split_sign(s: Seq<u8>) -> (bool, Seq<u8>) {
    if s.len() > 0 && s[0] == 45 {
        (true, s.drop_first())
    } else if s.len() > 0 && s[0] == 43 {
        (false, s.drop_first())
    } else {
        (false, s)
    }
}

/// The integer that the text spells: an optional sign and one or more digits.
pub open spec fn int_value(s: Seq<u8>) -> Option<int> {
    let (negative, body) = split_sign(s);
    if body.len() > 0 && all_digits(body) {
        if negative {
            Some(-(digits_value(body) as int))
        } else {
            Some(digits_value(body) as int)
        }
    } else {
        None
    }
}

/// The integer reply policy: the value of the text when it is an `i32`, else zero.
pub open spec fn int_or_zero(s: Seq<u8>) -> i32 {
    match int_value(s) {
        Some(v) => if i32::MIN <= v && v <= i32::MAX {
            v as i32
        } else {
            0
        },
        None => 0,
    }
}

/// The index of the first byte of the text that is `x` or `y`, or its length when there is
/// none.
pub open spec fn index_of(s: Seq<u8>, x: u8, y: u8) -> nat
    decreases s.len(),
{
    if s.len() == 0 {
        0
    } else if s[0] == x || s[0] == y {
        0
    } else {
        1 + index_of(s.drop_first(), x, y)
    }
}

/// The index of the first `.` in the text, or its length when there is none.
pub open spec fn dot_index(s: Seq<u8>) -> nat {
    index_of(s, 46, 46)
}

/// The index of the first `e` or `E` in the text, or its length when there is none.
pub open spec fn exponent_index(s: Seq<u8>) -> nat {
    index_of(s, 101, 69)
}

/// Ten to the power `k`.
pub open spec fn pow10(k: nat) -> nat
    decreases k,
{
    if k == 0 {
        1
    } else {
        10 * pow10((k - 1) as nat)
    }
}

/// The digits before the point.
pub open spec fn whole_part(body: Seq<u8>) -> Seq<u8> {
    body.subrange(0, dot_index(body) as int)
}

/// The digits after the point (none when there is no point).
pub open spec fn fraction_part(body: Seq<u8>) -> Seq<u8> {
    if dot_index(body) < body.len() {
        body.subrange(dot_index(body) as int + 1, body.len() as int)
    } else {
        seq![]
    }
}

/// Whether the text after an `e` is an exponent: an optional sign and digits, whose value
/// is at most `u32::MAX`.
pub open spec fn exponent_ok(t: Seq<u8>) -> bool {
    let digits = split_sign(t).1;
    digits.len() > 0 && all_digits(digits) && digits_value(digits) <= u32::MAX
}

/// The value of an exponent.
pub open spec fn exponent_value(t: Seq<u8>) -> int {
    let (negative, digits) = split_sign(t);
    if negative {
        -(digits_value(digits) as int)
    } else {
        digits_value(digits) as int
    }
}

/// The decimal number that the text spells: an optional sign, digits with an optional point
/// (at least one digit in all), and optionally `e` or `E` with a signed exponent; `None` for
/// any other text and for a number that `Decimal` cannot hold.
pub open spec fn decimal_value(s: Seq<u8>) -> Option<Decimal> {
    let (negative, body) = split_sign(s);
    let e = exponent_index(body);
    let mantissa = body.subrange(0, e as int);
    let w = whole_part(mantissa);
    let f = fraction_part(mantissa);
    let has_exponent = e < body.len();
    let exponent = body.subrange(e as int + 1, body.len() as int);
    let x = if has_exponent {
        exponent_value(exponent)
    } else {
        0
    };
    if w.len() + f.len() > 0 && all_digits(w) && all_digits(f) && (!has_exponent || exponent_ok(
        exponent,
    )) && digits_value(w + f) <= u128::MAX {
        scaled_decimal(negative, digits_value(w + f), f.len() - x)
    } else {
        None
    }
}

/// The number `digits * 10^-scale` as a `Decimal` with no negative scale, when it can be one.
pub open spec fn scaled_decimal(negative: bool, digits: nat, scale: int) -> Option<Decimal> {
    if scale >= 0 {
        if scale <= u32::MAX && digits <= u128::MAX {
            Some(Decimal { negative, digits: digits as u128, scale: scale as u32 })
        } else {
            None
        }
    } else if digits * pow10((-scale) as nat) <= u128::MAX {
        Some(Decimal { negative, digits: (digits * pow10((-scale) as nat)) as u128, scale: 0 })
    } else {
        None
    }
}

/// The decimal reply policy: the value of the text when it spells one, else zero.
pub open spec fn decimal_or_zero(s: Seq<u8>) -> Decimal {
    match decimal_value(s) {
        Some(d) => d,
        None => Decimal { negative: false, digits: 0, scale: 0 },
    }
}

proof fn lemma_digits_value_step(s: Seq<u8>, i: int)
    requires
        0 <= i < s.len(),
    ensures
        digits_value(s.subrange(0, i + 1)) == digits_value(s.subrange(0, i)) * 10 + (s[i]
            - 48) as nat,
{
    assert(s.subrange(0, i + 1).drop_last() =~= s.subrange(0, i));
}

/// A longer run of digits spells a number at least as large.
proof fn lemma_digits_value_prefix(s: Seq<u8>, k: int)
    requires
        0 <= k <= s.len(),
        all_digits(s),
    ensures
        digits_value(s.subrange(0, k)) <= digits_value(s),
    decreases s.len() - k,
{
    if k < s.len() {
        lemma_digits_value_prefix(s, k + 1);
        lemma_digits_value_step(s, k);
    } else {
        assert(s.subrange(0, k) =~= s);
    }
}

/// Adds the digits `text[lo..hi]` to `acc`, the value of the digits `prefix` before them.
/// `None` when one of them is not a digit, or when the whole value would pass `limit`.
fn accumulate(text: &[u8], lo: usize, hi: usize, acc: u128, limit: u128, Ghost(prefix): Ghost<
    Seq<u8>,
>) -> (r: Option<u128>)
    requires
        lo <= hi <= text@.len(),
        acc == digits_value(prefix),
        acc <= limit,
        all_digits(prefix),
    ensures
        ({
            let seg = text@.subrange(lo as int, hi as int);
            &&& r matches Some(v) ==> all_digits(seg) && v == digits_value(prefix + seg) && v
                <= limit
            &&& r is None ==> !all_digits(seg) || digits_value(prefix + seg) > limit
        }),
{
    let ghost seg = text@.subrange(lo as int, hi as int);
    let mut acc = acc;
    let mut i = lo;
    while i < hi
        invariant
            lo <= i <= hi <= text@.len(),
            seg == text@.subrange(lo as int, hi as int),
            acc == digits_value(prefix + seg.subrange(0, i - lo)),
            acc <= limit,
            all_digits(prefix),
            all_digits(prefix + seg.subrange(0, i - lo)),
        decreases hi - i,
    {
        let b = text[i];
        let ghost before = prefix + seg.subrange(0, i - lo);
        let ghost after = prefix + seg.subrange(0, i - lo + 1);
        assert(after =~= before.push(b));
        assert(after.drop_last() =~= before);
        if b < 48 || b > 57 {
            assert(!is_digit(seg[i - lo]));
            return None;
        }
        let d = (b - 48) as u128;
        if limit < d || acc > (limit - d) / 10 {
            assert(acc * 10 + d > limit) by (nonlinear_arith)
                requires
                    limit < d || acc > (limit - d) / 10,
            ;
            proof {
                let whole = prefix + seg;
                if all_digits(seg) {
                    assert forall|j: int| 0 <= j < whole.len() implies is_digit(
                        #[trigger] whole[j],
                    ) by {
                        if j >= prefix.len() {
                            assert(whole[j] == seg[j - prefix.len()]);
                        } else {
                            assert(whole[j] == prefix[j]);
                        }
                    }
                    assert(whole.subrange(0, after.len() as int) =~= after);
                    lemma_digits_value_prefix(whole, after.len() as int);
                }
            }
            return None;
        }
        assert(acc * 10 + d <= limit) by (nonlinear_arith)
            requires
                d <= limit,
                acc <= (limit - d) / 10,
        ;
        acc = acc * 10 + d;
        i = i + 1;
        assert(all_digits(after)) by {
            assert forall|j: int| 0 <= j < after.len() implies is_digit(#[trigger] after[j]) by {
                if j < before.len() {
                    assert(after[j] == before[j]);
                }
            }
        }
    }
    assert(prefix + seg.subrange(0, i - lo) =~= prefix + seg);
    assert forall|j: int| 0 <= j < seg.len() implies is_digit(#[trigger] seg[j]) by {
        assert((prefix + seg)[prefix.len() + j] == seg[j]);
    }
    Some(acc)
}

/// Where the text after an optional sign at `lo` begins, and whether the sign is a minus.
fn sign_at(text: &[u8], lo: usize) -> (r: (bool, usize))
    requires
        lo <= text@.len(),
    ensures
        lo <= r.1 <= text@.len(),
        split_sign(text@.subrange(lo as int, text@.len() as int)) == (r.0, text@.subrange(
            r.1 as int,
            text@.len() as int,
        )),
{
    let ghost t = text@.subrange(lo as int, text@.len() as int);
    if lo < text.len() && text[lo] == 45 {
        assert(t.drop_first() =~= text@.subrange(lo + 1, text@.len() as int));
        (true, lo + 1)
    } else if lo < text.len() && text[lo] == 43 {
        assert(t.drop_first() =~= text@.subrange(lo + 1, text@.len() as int));
        (false, lo + 1)
    } else {
        (false, lo)
    }
}

/// The length of an optional sign at the start of the text.
fn sign_length(text: &[u8]) -> (r: (bool, usize))
    ensures
        r.1 <= text@.len(),
        split_sign(text@) == (r.0, text@.subrange(r.1 as int, text@.len() as int)),
{
    assert(text@.subrange(0, text@.len() as int) =~= text@);
    sign_at(text, 0)
}

/// The integer that the text spells, or zero when it spells no `i32`.
pub fn parse_int_or_zero(text: &[u8]) -> (r: i32)
    ensures
        r == int_or_zero(text@),
{
    let (negative, start) = sign_length(text);
    let ghost body = text@.subrange(start as int, text@.len() as int);
    if start == text.len() {
        return 0;
    }
    let limit: u128 = 0x8000_0000;
    match accumulate(text, start, text.len(), 0, limit, Ghost(Seq::empty())) {
        Some(v) => {
            assert(Seq::<u8>::empty() + body =~= body);
            if negative {
                (0 - v as i64) as i32
            } else if v <= 0x7fff_ffff {
                v as i32
            } else {
                0
            }
        },
        None => {
            assert(Seq::<u8>::empty() + body =~= body);
            0
        },
    }
}

/// The index of the first byte of `text[lo..hi]` that is `x` or `y`, or `hi`.
fn find_byte(text: &[u8], lo: usize, hi: usize, x: u8, y: u8) -> (r: usize)
    requires
        lo <= hi <= text@.len(),
    ensures
        lo <= r <= hi,
        r - lo == index_of(text@.subrange(lo as int, hi as int), x, y),
{
    let mut i = lo;
    while i < hi && text[i] != x && text[i] != y
        invariant
            lo <= i <= hi <= text@.len(),
            index_of(text@.subrange(lo as int, hi as int), x, y) == (i - lo) + index_of(
                text@.subrange(i as int, hi as int),
                x,
                y,
            ),
        decreases hi - i,
    {
        assert(text@.subrange(i as int, hi as int).drop_first() =~= text@.subrange(
            i + 1,
            hi as int,
        ));
        i = i + 1;
    }
    i
}

proof fn lemma_pow10_step(d: nat, i: nat)
    ensures
        d * pow10(i + 1) == (d * pow10(i)) * 10,
{
    assert(pow10(i + 1) == 10 * pow10(i));
    assert(d * (10 * pow10(i)) == (d * pow10(i)) * 10) by (nonlinear_arith);
}

proof fn lemma_pow10_grows(d: nat, i: nat, k: nat)
    requires
        i <= k,
    ensures
        d * pow10(i) <= d * pow10(k),
    decreases k - i,
{
    if i < k {
        lemma_pow10_grows(d, i + 1, k);
        lemma_pow10_step(d, i);
    }
}

/// `digits * 10^k`, when it fits.
fn shift_digits(digits: u128, k: u128) -> (r: Option<u128>)
    ensures
        r matches Some(v) ==> v == digits * pow10(k as nat),
        r is None ==> digits * pow10(k as nat) > u128::MAX,
{
    if digits == 0 {
        assert(0 * pow10(k as nat) == 0);
        return Some(0);
    }
    let mut m = digits;
    let mut i: u128 = 0;
    assert(pow10(0) == 1);
    assert(digits * 1 == digits);
    while i < k
        invariant
            i <= k,
            m == digits * pow10(i as nat),
        decreases k - i,
    {
        proof {
            lemma_pow10_step(digits as nat, i as nat);
        }
        if m > u128::MAX / 10 {
            proof {
                lemma_pow10_grows(digits as nat, (i + 1) as nat, k as nat);
            }
            return None;
        }
        m = m * 10;
        i = i + 1;
    }
    Some(m)
}

/// The decimal number that the text spells, or zero when it spells none.
pub fn parse_decimal_or_zero(text: &[u8]) -> (r: Decimal)
    ensures
        r == decimal_or_zero(text@),
{
    let n = text.len();
    let (negative, start) = sign_length(text);
    let ghost body = text@.subrange(start as int, n as int);
    let e = find_byte(text, start, n, 101, 69);
    let ghost mantissa = body.subrange(0, (e - start) as int);
    assert(mantissa =~= text@.subrange(start as int, e as int));
    let dot = find_byte(text, start, e, 46, 46);
    let frac_start = if dot < e {
        dot + 1
    } else {
        dot
    };
    let ghost w = whole_part(mantissa);
    let ghost f = fraction_part(mantissa);
    assert(w =~= text@.subrange(start as int, dot as int));
    assert(f =~= text@.subrange(frac_start as int, e as int));
    if dot == start && frac_start == e {
        return Decimal::zero();
    }
    let ghost exponent = body.subrange((e - start) + 1, body.len() as int);
    let mut exponent_negative = false;
    let mut x: u128 = 0;
    if e < n {
        assert(exponent =~= text@.subrange(e + 1, n as int));
        match parse_exponent(text, e + 1) {
            None => return Decimal::zero(),
            Some((en, v)) => {
                exponent_negative = en;
                x = v;
            },
        }
    }
    let whole = accumulate(text, start, dot, 0, u128::MAX, Ghost(Seq::empty()));
    assert(Seq::<u8>::empty() + w =~= w);
    let digits = match whole {
        None => {
            proof {
                if all_digits(w) && all_digits(f) {
                    let wf = w + f;
                    assert forall|j: int| 0 <= j < wf.len() implies is_digit(#[trigger] wf[j]) by {
                        if j >= w.len() {
                            assert(wf[j] == f[j - w.len()]);
                        } else {
                            assert(wf[j] == w[j]);
                        }
                    }
                    assert(wf.subrange(0, w.len() as int) =~= w);
                    lemma_digits_value_prefix(wf, w.len() as int);
                }
            }
            return Decimal::zero();
        },
        Some(v) => {
            match accumulate(text, frac_start, e, v, u128::MAX, Ghost(w)) {
                None => {
                    return Decimal::zero();
                },
                Some(d) => d,
            }
        },
    };
    let frac_len = e - frac_start;
    assert(frac_len == f.len());
    match scale_decimal(negative, digits, frac_len, exponent_negative, x) {
        Some(d) => d,
        None => Decimal::zero(),
    }
}

/// The sign and value of the exponent `text[lo..]`, when it is one.
fn parse_exponent(text: &[u8], lo: usize) -> (r: Option<(bool, u128)>)
    requires
        lo <= text@.len(),
    ensures
        r is Some <==> exponent_ok(text@.subrange(lo as int, text@.len() as int)),
        r matches Some((negative, v)) ==> v <= u32::MAX && exponent_value(
            text@.subrange(lo as int, text@.len() as int),
        ) == if negative {
            -(v as int)
        } else {
            v as int
        },
{
    let n = text.len();
    let (negative, start) = sign_at(text, lo);
    if start == n {
        return None;
    }
    let r = accumulate(text, start, n, 0, 0xffff_ffff, Ghost(Seq::empty()));
    assert(Seq::<u8>::empty() + text@.subrange(start as int, n as int) =~= text@.subrange(
        start as int,
        n as int,
    ));
    match r {
        None => None,
        Some(v) => Some((negative, v)),
    }
}

/// `digits * 10^-(frac_len - exponent)` as a `Decimal`, when it can be one.
fn scale_decimal(negative: bool, digits: u128, frac_len: usize, exponent_negative: bool, x: u128) -> (r:
    Option<Decimal>)
    requires
        x <= u32::MAX,
    ensures
        r == scaled_decimal(
            negative,
            digits as nat,
            frac_len - if exponent_negative {
                -(x as int)
            } else {
                x as int
            },
        ),
{
    if exponent_negative {
        if frac_len as u128 + x > 0xffff_ffff {
            None
        } else {
            Some(Decimal { negative, digits, scale: (frac_len as u128 + x) as u32 })
        }
    } else if x <= frac_len as u128 {
        if frac_len as u128 - x > 0xffff_ffff {
            None
        } else {
            Some(Decimal { negative, digits, scale: (frac_len as u128 - x) as u32 })
        }
    } else {
        match shift_digits(digits, x - frac_len as u128) {
            None => None,
            Some(m) => Some(Decimal { negative, digits: m, scale: 0 }),
        }
    }
}

/// The bytes of the text without the whitespace at its ends.
pub fn trim_bytes(text: &[u8]) -> (r: Vec<u8>)
    ensures
        r@ == trim(text@),
{
    let n = text.len();
    let mut lo: usize = 0;
    assert(text@.subrange(0, n as int) =~= text@);
    while lo < n && (9 <= text[lo] && text[lo] <= 13 || text[lo] == 32 || text[lo] == 0x85
        || text[lo] == 0xA0)
        invariant
            lo <= n == text@.len(),
            trim_start(text@.subrange(lo as int, n as int)) == trim_start(text@),
        decreases n - lo,
    {
        assert(text@.subrange(lo as int, n as int).drop_first() =~= text@.subrange(
            lo + 1,
            n as int,
        ));
        lo = lo + 1;
    }
    let mut hi: usize = n;
    assert(text@.subrange(0, n as int) =~= text@);
    assert(trim_start(text@.subrange(lo as int, n as int)) == text@.subrange(lo as int, n as int));
    while hi > lo && (9 <= text[hi - 1] && text[hi - 1] <= 13 || text[hi - 1] == 32 || text[hi
        - 1] == 0x85 || text[hi - 1] == 0xA0)
        invariant
            lo <= hi <= n == text@.len(),
            trim_end(text@.subrange(lo as int, hi as int)) == trim(text@),
        decreases hi,
    {
        assert(text@.subrange(lo as int, hi as int).drop_last() =~= text@.subrange(
            lo as int,
            hi - 1,
        ));
        hi = hi - 1;
    }
    let mut r: Vec<u8> = Vec::new();
    let mut i = lo;
    while i < hi
        invariant
            lo <= i <= hi <= n == text@.len(),
            r@ == text@.subrange(lo as int, i as int),
        decreases hi - i,
    {
        r.push(text[i]);
        i = i + 1;
        assert(r@ =~= text@.subrange(lo as int, i as int));
    }
    r
}

/// The text whose characters are the given bytes, one each.
pub fn latin1_text(bytes: &[u8]) -> (r: String)
    ensures
        r@ == latin1(bytes@),
{
    let mut r = String::new();
    let mut i: usize = 0;
    while i < bytes.len()
        invariant
            i <= bytes@.len(),
            r@ == latin1(bytes@.subrange(0, i as int)),
        decreases bytes@.len() - i,
    {
        push_char(&mut r, bytes[i] as char);
        i = i + 1;
        assert(r@ =~= latin1(bytes@.subrange(0, i as int)));
    }
    assert(bytes@.subrange(0, i as int) =~= bytes@);
    r
}

} // verus!
