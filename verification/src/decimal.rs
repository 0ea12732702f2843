//! Exact decimal numbers for the fractional parameters of image requests
//! (percentages and rotation angles): a sign, a mantissa and a count of
//! fractional digits, compared and scaled with exact integer arithmetic.
use vstd::prelude::*;

use crate::text::{
    all_digits, decimal, digit_char, digit_to_char, digits_value, find_char_from, index_of_from,
    is_digit, parse_unsigned_exec, pow10, push_char, push_decimal, slice_chars, unsigned_digits,
};

verus! {

/// `mantissa / 10^scale`, negated when `negative` (a negative zero is zero).
#[derive(Debug, Clone, Copy, PartialEq, Eq)]
pub struct Decimal {
    pub negative: bool,
    pub mantissa: u64,
    pub scale: u32,
}

impl Decimal {
    /// At most 19 fractional digits and a mantissa below `10^19`.
    pub open spec fn wf(self) -> bool {
        self.scale <= 19 && self.mantissa < pow10(19)
    }

    /// The signed numerator over `10^scale`.
    pub open spec fn num(self) -> int {
        if self.negative {
            -(self.mantissa as int)
        } else {
            self.mantissa as int
        }
    }

    /// The denominator `10^scale`.
    pub open spec fn den(self) -> nat {
        pow10(self.scale as nat)
    }

    /// Whether the value is below zero (a negative zero is not).
    pub open spec fn is_below_zero(self) -> bool {
        self.negative && self.mantissa > 0
    }
}

/// The sign and the body of a number's text.
pub open spec fn sign_split(s: Seq<char>) -> (bool, Seq<char>) {
    if s.len() > 0 && s[0] == '-' {
        (true, s.drop_first())
    } else if s.len() > 0 && s[0] == '+' {
        (false, s.drop_first())
    } else {
        (false, s)
    }
}

/// The integer digits of a number's body (before the first `.`).
pub open spec fn int_part(body: Seq<char>) -> Seq<char> {
    body.subrange(0, index_of_from(body, '.', 0))
}

/// The fractional digits of a number's body (after the first `.`).
pub open spec fn frac_part(body: Seq<char>) -> Seq<char> {
    let k = index_of_from(body, '.', 0);
    if k < body.len() {
        body.subrange(k + 1, body.len() as int)
    } else {
        Seq::empty()
    }
}

/// The decimal a text stands for: an optional sign, then digits with an
/// optional `.` and fractional digits, at least one digit and at most 19.
pub open spec fn parse_decimal(s: Seq<char>) -> Option<Decimal> {
    let (neg, body) = sign_split(s);
    let ip = int_part(body);
    let fp = frac_part(body);
    if all_digits(ip) && all_digits(fp) && ip.len() + fp.len() > 0 && ip.len() + fp.len() <= 19 {
        Some(
            Decimal {
                negative: neg,
                mantissa: digits_value(ip + fp) as u64,
                scale: fp.len() as u32,
            },
        )
    } else {
        None
    }
}

pub proof fn lemma_pow10_19()
    ensures
        pow10(19) == 10_000_000_000_000_000_000nat,
{
    reveal_with_fuel(pow10, 20);
}

pub proof fn lemma_pow10_monotone(a: nat, b: nat)
    requires
        a <= b,
    ensures
        1 <= pow10(a) <= pow10(b),
    decreases b,
{
    if a < b {
        lemma_pow10_monotone(a, (b - 1) as nat);
    } else if a > 0 {
        lemma_pow10_monotone((a - 1) as nat, (a - 1) as nat);
    }
}

pub proof fn lemma_digits_bound(s: Seq<char>)
    requires
        all_digits(s),
    ensures
        digits_value(s) < pow10(s.len()),
    decreases s.len(),
{
    if s.len() > 0 {
        lemma_digits_bound(s.drop_last());
        assert(is_digit(s[s.len() - 1]));
        assert(all_digits(s.drop_last()));
    }
}

/// `10^k` (executable), for `k` at most 19.
pub fn pow10_exec(k: u32) -> (r: u64)
    requires
        k <= 19,
    ensures
        r == pow10(k as nat),
        1 <= r <= 10_000_000_000_000_000_000u64,
{
    let mut r: u64 = 1;
    let mut i: u32 = 0;
    while i < k
        invariant
            i <= k <= 19,
            r == pow10(i as nat),
        decreases k - i,
    {
        proof {
            lemma_pow10_monotone((i + 1) as nat, 19);
            lemma_pow10_19();
            assert(pow10((i + 1) as nat) == 10 * pow10(i as nat));
        }
        r = r * 10;
        i = i + 1;
    }
    proof {
        lemma_pow10_monotone(k as nat, 19);
        lemma_pow10_monotone(0, k as nat);
        lemma_pow10_19();
    }
    r
}

pub proof fn lemma_mul_le(a: nat, b: nat, amax: nat, bmax: nat)
    requires
        a <= amax,
        b <= bmax,
    ensures
        a * b <= amax * bmax,
{
    assert(a * b <= amax * bmax) by (nonlinear_arith)
        requires
            a <= amax,
            b <= bmax,
    ;
}

/// Parses a decimal number (see `parse_decimal`).
#[verifier::loop_isolation(false)]
pub fn parse_decimal_exec(s: &[char]) -> (r: Option<Decimal>)
    ensures
        r == parse_decimal(s@),
        r matches Some(d) ==> d.wf(),
{
    let (neg, start): (bool, usize) = if s.len() > 0 && s[0] == '-' {
        (true, 1)
    } else if s.len() > 0 && s[0] == '+' {
        (false, 1)
    } else {
        (false, 0)
    };
    let body = slice_chars(s, start, s.len());
    assert(body@ == sign_split(s@).1);
    let k = find_char_from(&body, '.', 0);
    let ip = slice_chars(&body, 0, k);
    let fp: Vec<char> = if k < body.len() {
        slice_chars(&body, k + 1, body.len())
    } else {
        Vec::new()
    };
    assert(ip@ == int_part(body@));
    assert(fp@ == frac_part(body@));
    if ip.len() + fp.len() == 0 || ip.len() + fp.len() > 19 {
        return None;
    }
    let mut digits = ip.clone();
    let mut fpc = fp.clone();
    digits.append(&mut fpc);
    assert(digits@ == ip@ + fp@);
    let mut i: usize = 0;
    while i < digits.len()
        invariant
            i <= digits@.len(),
            digits@ == ip@ + fp@,
            forall|j: int| 0 <= j < i ==> is_digit(#[trigger] digits@[j]),
        decreases digits@.len() - i,
    {
        let c = digits[i];
        if !('0' <= c && c <= '9') {
            proof {
                if i < ip@.len() {
                    assert(ip@[i as int] == c);
                    assert(!all_digits(ip@));
                } else {
                    assert(fp@[i - ip@.len()] == c);
                    assert(!all_digits(fp@));
                }
            }
            return None;
        }
        i = i + 1;
    }
    assert(all_digits(ip@)) by {
        assert forall|j: int| 0 <= j < ip@.len() implies is_digit(#[trigger] ip@[j]) by {
            assert(digits@[j] == ip@[j]);
        }
    }
    assert(all_digits(fp@)) by {
        assert forall|j: int| 0 <= j < fp@.len() implies is_digit(#[trigger] fp@[j]) by {
            assert(digits@[ip@.len() + j] == fp@[j]);
        }
    }
    proof {
        lemma_digits_bound(digits@);
        lemma_pow10_monotone(digits@.len(), 19);
        lemma_pow10_19();
        assert(unsigned_digits(digits@) == digits@) by {
            assert(is_digit(digits@[0]));
        }
    }
    let m = match parse_unsigned_exec(&digits, 0xffff_ffff_ffff_ffff) {
        Some(m) => m,
        None => {
            return None;
        },
    };
    proof {
        lemma_pow10_monotone(fp@.len(), 19);
    }
    Some(Decimal { negative: neg, mantissa: m, scale: fp.len() as u32 })
}

/// `a / b` rounded to the nearest integer, halves away from zero.
pub open spec fn round_div(a: nat, b: nat) -> nat {
    ((2 * a + b) / (2 * b)) as nat
}

/// `n` clamped into `u32`.
pub open spec fn sat_u32(n: nat) -> u32 {
    if n > u32::MAX {
        u32::MAX
    } else {
        n as u32
    }
}

/// `round(d * num / den)` clamped into `u32`, as a float computation followed
/// by a saturating cast gives it; a negative value gives 0.
pub open spec fn scaled_round(d: Decimal, num: nat, den: nat) -> u32 {
    if d.is_below_zero() {
        0
    } else {
        sat_u32(round_div((d.mantissa * num) as nat, den * d.den()))
    }
}

impl Decimal {
    /// Whether the value is below zero (executable).
    pub fn below_zero(&self) -> (r: bool)
        ensures
            r == self.is_below_zero(),
    {
        self.negative && self.mantissa > 0
    }

    /// Whether the value is greater than the integer `k`.
    pub fn greater_than(&self, k: u64) -> (r: bool)
        requires
            self.wf(),
        ensures
            r == (self.num() > k * self.den()),
    {
        if self.negative {
            return false;
        }
        let p = pow10_exec(self.scale);
        proof {
            lemma_mul_le(k as nat, p as nat, u64::MAX as nat, u64::MAX as nat);
        }
        (self.mantissa as u128) > (k as u128) * (p as u128)
    }

    /// Whether the value equals the integer `k`.
    pub fn equals_int(&self, k: u64) -> (r: bool)
        requires
            self.wf(),
        ensures
            r == (self.num() == k * self.den()),
    {
        let p = pow10_exec(self.scale);
        proof {
            lemma_mul_le(k as nat, p as nat, u64::MAX as nat, u64::MAX as nat);
            assert(k * p == 0 <==> k == 0) by (nonlinear_arith)
                requires p >= 1;
        }
        if self.negative {
            return self.mantissa == 0 && k == 0;
        }
        (self.mantissa as u128) == (k as u128) * (p as u128)
    }

    /// Whether the value is at most zero.
    pub fn at_most_zero(&self) -> (r: bool)
        ensures
            r == (self.num() <= 0),
    {
        self.negative || self.mantissa == 0
    }

    /// `round(self * num / den)` clamped into `u32` (0 for a negative value).
    pub fn scaled_round(&self, num: u32, den: u32) -> (r: u32)
        requires
            self.wf(),
            den > 0,
        ensures
            r == scaled_round(*self, num as nat, den as nat),
    {
        if self.below_zero() {
            return 0;
        }
        let p = pow10_exec(self.scale);
        proof {
            lemma_mul_le(self.mantissa as nat, num as nat, u64::MAX as nat, u32::MAX as nat);
            lemma_mul_le(den as nat, p as nat, u32::MAX as nat, u64::MAX as nat);
            assert(den * p >= 1) by (nonlinear_arith)
                requires den >= 1, p >= 1;
        }
        let a: u128 = (self.mantissa as u128) * (num as u128);
        let b: u128 = (den as u128) * (p as u128);
        let q: u128 = (2 * a + b) / (2 * b);
        if q > 0xffff_ffff {
            0xffff_ffff
        } else {
            q as u32
        }
    }
}

/// Digits `d_{w-1} .. d_0` of `n`, zero-padded to width `w`.
pub open spec fn decimal_fixed(n: nat, w: nat) -> Seq<char>
    decreases w,
{
    if w == 0 {
        Seq::empty()
    } else {
        decimal_fixed(n / 10, (w - 1) as nat).push(digit_char(n % 10))
    }
}

/// The fractional digits `n` of width `w` without trailing zeros.
pub open spec fn trimmed_fraction(n: nat, w: nat) -> Seq<char>
    decreases w,
{
    if w > 0 && n % 10 == 0 {
        trimmed_fraction(n / 10, (w - 1) as nat)
    } else {
        decimal_fixed(n, w)
    }
}

/// The shortest text of a decimal, as a float's `Display` writes it: a `-`
/// for a negative (even zero) value, the integer part, and the fractional
/// digits without trailing zeros after a `.` when any remain.
pub open spec fn decimal_text(d: Decimal) -> Seq<char> {
    let sign: Seq<char> = if d.negative {
        "-"@
    } else {
        Seq::empty()
    };
    let ip = (d.mantissa as nat) / d.den();
    let fp = (d.mantissa as nat) % d.den();
    if fp == 0 {
        sign + decimal(ip)
    } else {
        sign + decimal(ip) + "."@ + trimmed_fraction(fp, d.scale as nat)
    }
}

/// Appends `decimal_fixed(n, w)`.
pub fn push_decimal_fixed(s: &mut String, n: u64, w: u32)
    ensures
        final(s)@ == old(s)@ + decimal_fixed(n as nat, w as nat),
    decreases w,
{
    if w > 0 {
        push_decimal_fixed(s, n / 10, w - 1);
        push_char(s, digit_to_char(n % 10));
    }
}

/// Appends `decimal_text(d)`.
pub fn push_decimal_text(s: &mut String, d: &Decimal)
    requires
        d.wf(),
    ensures
        final(s)@ == old(s)@ + decimal_text(*d),
{
    let p = pow10_exec(d.scale);
    let ip = d.mantissa / p;
    let fp = d.mantissa % p;
    if d.negative {
        push_char(s, '-');
    }
    push_decimal(s, ip);
    if fp != 0 {
        push_char(s, '.');
        let mut n = fp;
        let mut w = d.scale;
        while w > 0 && n % 10 == 0
            invariant
                trimmed_fraction(fp as nat, d.scale as nat) == trimmed_fraction(n as nat, w as nat),
            decreases w,
        {
            n = n / 10;
            w = w - 1;
        }
        push_decimal_fixed(s, n, w);
    }
    proof {
        reveal_strlit("-");
        reveal_strlit(".");
    }
}

/// The largest `r` with `r * r <= x`.
pub open spec fn is_isqrt(x: nat, r: nat) -> bool {
    r * r <= x && x < (r + 1) * (r + 1)
}

/// Every natural number has an integer square root.
pub proof fn lemma_isqrt_exists(x: nat)
    ensures
        exists|r: nat| is_isqrt(x, r),
    decreases x,
{
    if x == 0 {
        assert(0nat * 0nat <= 0nat && 0nat < 1nat * 1nat) by (nonlinear_arith);
        assert(is_isqrt(0, 0));
    } else {
        let prev = (x - 1) as nat;
        lemma_isqrt_exists(prev);
        let r = choose|r: nat| is_isqrt(prev, r);
        if (r + 1) * (r + 1) <= x {
            assert(x < (r + 2) * (r + 2)) by (nonlinear_arith)
                requires
                    x - 1 < (r + 1) * (r + 1),
            ;
            assert(is_isqrt(x, r + 1));
        } else {
            assert(is_isqrt(x, r));
        }
    }
}

/// Integer square root of a value below `2^96`.
pub fn isqrt(x: u128) -> (r: u64)
    requires
        x < 0x1_0000_0000_0000_0000_0000_0000,
    ensures
        is_isqrt(x as nat, r as nat),
{
    let mut lo: u128 = 0;
    let mut hi: u128 = 0x1_0000_0000_0000;
    assert(hi * hi > x) by (nonlinear_arith)
        requires hi == 0x1_0000_0000_0000u128, x < 0x1_0000_0000_0000_0000_0000_0000u128;
    while hi - lo > 1
        invariant
            lo < hi <= 0x1_0000_0000_0000,
            lo * lo <= x,
            hi * hi > x,
        decreases hi - lo,
    {
        let mid = lo + (hi - lo) / 2;
        assert(mid * mid <= 0x1_0000_0000_0000 * 0x1_0000_0000_0000) by (nonlinear_arith)
            requires mid <= 0x1_0000_0000_0000u128;
        if mid * mid <= x {
            lo = mid;
        } else {
            hi = mid;
        }
    }
    assert(hi == lo + 1);
    lo as u64
}

} // verus!
