//! Quantized numbers: a value is an integer count of steps of one ten-thousandth.
use vstd::prelude::*;
use vstd::string::StringExecFns;
use crate::text::{chars_of, digit_char, digit_run, digit_str, digit_val, digits_value, is_delim, is_digit, lemma_digit_char, lemma_digit_run_bounds, lemma_digit_run_end, lemma_nat_text, nat_text, push_nat};

verus! {

/// Number of steps in one whole unit: one step is `1 / SCALE`.
pub const SCALE: i64 = 10000;

/// A concentration or a volume, held as a whole number of steps of `1 / SCALE`.
#[derive(Debug, Clone, Copy, PartialEq, Eq, Structural, Hash, PartialOrd, Ord)]
pub struct LimitedFloat {
    pub wrapped: i64,
}

pub type Concentration = LimitedFloat;

pub type Volume = LimitedFloat;

/// Why a text is not a number.
#[derive(Debug, Clone, Copy, PartialEq, Eq, Structural)]
pub enum NumberParseError {
    /// The text is not a decimal literal.
    Malformed,
    /// The literal is well formed but its magnitude does not fit in the representation.
    OutOfRange,
}

/// Clamps an integer into the range of `i64`.
pub open spec fn clamp_i64(x: int) -> int {
    if x < i64::MIN {
        i64::MIN as int
    } else if x > i64::MAX {
        i64::MAX as int
    } else {
        x
    }
}

/// `n / d` rounded to the nearest integer, halves away from zero (`d > 0`).
pub open spec fn round_div(n: int, d: int) -> int {
    if n >= 0 {
        n / d + if 2 * (n % d) >= d { 1int } else { 0int }
    } else {
        -((-n) / d + if 2 * ((-n) % d) >= d { 1int } else { 0int })
    }
}

pub open spec fn q_add(a: int, b: int) -> int {
    clamp_i64(a + b)
}

pub open spec fn q_sub(a: int, b: int) -> int {
    clamp_i64(a - b)
}

/// Product of two quantized values, re-quantized.
pub open spec fn q_mul(a: int, b: int) -> int {
    clamp_i64(round_div(a * b, SCALE as int))
}

/// Quotient of two quantized values, re-quantized. Division by zero saturates
/// toward the sign of the dividend, and zero divided by zero is zero.
pub open spec fn q_div(a: int, b: int) -> int {
    if b == 0 {
        if a > 0 {
            i64::MAX as int
        } else if a < 0 {
            i64::MIN as int
        } else {
            0
        }
    } else if b > 0 {
        clamp_i64(round_div(a * SCALE, b))
    } else {
        clamp_i64(round_div(-a * SCALE, -b))
    }
}

/// The operations are functions of the values alone: equal operands give
/// equal results.
pub proof fn lemma_ops_congruent(a1: LimitedFloat, a2: LimitedFloat, b1: LimitedFloat, b2: LimitedFloat)
    requires
        a1 == a2,
        b1 == b2,
    ensures
        q_add(a1.wrapped as int, b1.wrapped as int) == q_add(a2.wrapped as int, b2.wrapped as int),
        q_sub(a1.wrapped as int, b1.wrapped as int) == q_sub(a2.wrapped as int, b2.wrapped as int),
        q_mul(a1.wrapped as int, b1.wrapped as int) == q_mul(a2.wrapped as int, b2.wrapped as int),
        q_div(a1.wrapped as int, b1.wrapped as int) == q_div(a2.wrapped as int, b2.wrapped as int),
{
}

/// A valid concentration lies in `[0, 1]`.
pub open spec fn spec_valid(w: int) -> bool {
    0 <= w <= SCALE
}

/// Steps contributed by the digits after the decimal point: the first four
/// digits, plus one when the fifth rounds up.
pub open spec fn frac_digit(fp: Seq<char>, i: int) -> nat {
    if i < fp.len() {
        digit_val(fp[i])
    } else {
        0
    }
}

pub open spec fn frac_units(fp: Seq<char>) -> nat {
    frac_digit(fp, 0) * 1000 + frac_digit(fp, 1) * 100 + frac_digit(fp, 2) * 10 + frac_digit(fp, 3)
        + if frac_digit(fp, 4) >= 5 { 1nat } else { 0nat }
}

pub open spec fn sign_start(s: Seq<char>) -> int {
    if s.len() > 0 && (s[0] == '-' || s[0] == '+') {
        1
    } else {
        0
    }
}

pub open spec fn signed(neg: bool, m: nat) -> int {
    if neg {
        -(m as int)
    } else {
        m as int
    }
}

/// The value, in steps, of a decimal literal `[+-]digits[.digits]` rounded to
/// the nearest step (halves away from zero); `None` when `s` is no such literal.
/// One side of the point may be empty, not both.
pub open spec fn decimal_steps(s: Seq<char>) -> Option<int> {
    let start = sign_start(s);
    let neg = s.len() > 0 && s[0] == '-';
    let k = digit_run(s, start);
    let ip = s.subrange(start, k);
    if k == s.len() {
        if ip.len() > 0 {
            Some(signed(neg, digits_value(ip) * 10000))
        } else {
            None
        }
    } else if s[k] == '.' {
        let e = digit_run(s, k + 1);
        let fp = s.subrange(k + 1, e);
        if e == s.len() && ip.len() + fp.len() > 0 {
            Some(signed(neg, digits_value(ip) * 10000 + frac_units(fp)))
        } else {
            None
        }
    } else {
        None
    }
}

pub open spec fn fits_steps(v: int) -> bool {
    -(i64::MAX as int) <= v <= i64::MAX
}

/// Most digits of either side of a fraction.
pub const FRACTION_DIGITS: usize = 18;

/// The value, in steps, of the fraction `a / b` (with a sign), rounded to the
/// nearest step, halves away from zero.
pub open spec fn fraction_steps(neg: bool, a: nat, b: nat) -> int {
    signed(neg, round_div((a * 10000) as int, b as int) as nat)
}

/// Reading a fraction `[+-]digits/digits`: malformed unless both sides are
/// digits and the denominator is not zero; out of range when a side has more
/// than `FRACTION_DIGITS` digits or the value does not fit.
pub open spec fn fraction_result(s: Seq<char>) -> Result<LimitedFloat, NumberParseError> {
    let start = sign_start(s);
    let neg = s.len() > 0 && s[0] == '-';
    let k = digit_run(s, start);
    let e = digit_run(s, k + 1);
    let num = s.subrange(start, k);
    let den = s.subrange(k + 1, e);
    if e != s.len() || num.len() == 0 || den.len() == 0 || digits_value(den) == 0 {
        Err(NumberParseError::Malformed)
    } else if num.len() > FRACTION_DIGITS || den.len() > FRACTION_DIGITS {
        Err(NumberParseError::OutOfRange)
    } else {
        let v = fraction_steps(neg, digits_value(num), digits_value(den));
        if fits_steps(v) {
            Ok(LimitedFloat { wrapped: v as i64 })
        } else {
            Err(NumberParseError::OutOfRange)
        }
    }
}

/// Whether the whole part of `s` is followed by a `/`.
pub open spec fn is_fraction(s: Seq<char>) -> bool {
    let k = digit_run(s, sign_start(s));
    k < s.len() && s[k] == '/'
}

/// What reading `s` as a number yields: a decimal literal or a fraction.
pub open spec fn parse_result(s: Seq<char>) -> Result<LimitedFloat, NumberParseError> {
    if is_fraction(s) {
        fraction_result(s)
    } else {
        decimal_result(s)
    }
}

/// What reading `s` as a decimal literal yields.
pub open spec fn decimal_result(s: Seq<char>) -> Result<LimitedFloat, NumberParseError> {
    match decimal_steps(s) {
        None => Err(NumberParseError::Malformed),
        Some(v) => if fits_steps(v) {
            Ok(LimitedFloat { wrapped: v as i64 })
        } else {
            Err(NumberParseError::OutOfRange)
        },
    }
}

/// Drops trailing zeros.
pub open spec fn trim_zeros(s: Seq<char>) -> Seq<char>
    decreases s.len(),
{
    if s.len() > 0 && s.last() == '0' {
        trim_zeros(s.drop_last())
    } else {
        s
    }
}

/// The four digits of a fraction of a unit, `0 <= f < SCALE`.
pub open spec fn four_digits(f: nat) -> Seq<char> {
    seq![
        digit_char(f / 1000),
        digit_char((f / 100) % 10),
        digit_char((f / 10) % 10),
        digit_char(f % 10),
    ]
}

/// Text after the decimal point: `0` for a whole number, else the digits
/// without trailing zeros.
pub open spec fn frac_text(f: nat) -> Seq<char> {
    if f == 0 {
        seq!['0']
    } else {
        trim_zeros(four_digits(f))
    }
}

pub open spec fn abs_steps(w: int) -> nat {
    if w < 0 {
        (-w) as nat
    } else {
        w as nat
    }
}

/// Decimal text of a quantized value: sign, whole part, point, fraction.
pub open spec fn number_text(w: int) -> Seq<char> {
    let m = abs_steps(w);
    let sign = if w < 0 { seq!['-'] } else { Seq::<char>::empty() };
    sign + nat_text(m / 10000) + seq!['.'] + frac_text(m % 10000)
}

proof fn lemma_four_digits(f: nat)
    requires
        0 < f < 10000,
    ensures
        f / 1000 < 10,
        (f / 100) % 10 < 10,
        (f / 10) % 10 < 10,
        f % 10 < 10,
        f == (f / 1000) * 1000 + ((f / 100) % 10) * 100 + ((f / 10) % 10) * 10 + f % 10,
        f / 1000 == 0 ==> ((f / 100) % 10 != 0 || (f / 10) % 10 != 0 || f % 10 != 0),
{
    assert(f == (f / 1000) * 1000 + ((f / 100) % 10) * 100 + ((f / 10) % 10) * 10 + f % 10)
        by (nonlinear_arith)
        requires 0 < f < 10000;
}

/// The text after the point is made of digits and gives back the fraction.
#[verifier::rlimit(40)]
proof fn lemma_frac_text(f: nat)
    requires
        f < 10000,
    ensures
        1 <= frac_text(f).len() <= 4,
        forall|t: int| 0 <= t < frac_text(f).len() ==> is_digit(#[trigger] frac_text(f)[t]),
        frac_units(frac_text(f)) == f,
{
    if f == 0 {
        assert(frac_digit(seq!['0'], 0) == 0);
    } else {
        lemma_four_digits(f);
        let d0 = f / 1000;
        let d1 = (f / 100) % 10;
        let d2 = (f / 10) % 10;
        let d3 = f % 10;
        lemma_digit_char(d0);
        lemma_digit_char(d1);
        lemma_digit_char(d2);
        lemma_digit_char(d3);
        let (c0, c1, c2, c3) = (digit_char(d0), digit_char(d1), digit_char(d2), digit_char(d3));
        let fd = four_digits(f);
        assert(fd =~= seq![c0, c1, c2, c3]);
        let fp = frac_text(f);
        if d3 != 0 {
            assert(trim_zeros(fd) == fd);
            assert(fp =~= seq![c0, c1, c2, c3]);
        } else if d2 != 0 {
            assert(fd.drop_last() =~= seq![c0, c1, c2]);
            assert(trim_zeros(fd) == trim_zeros(fd.drop_last()));
            assert(trim_zeros(fd.drop_last()) == fd.drop_last());
            assert(fp =~= seq![c0, c1, c2]);
        } else if d1 != 0 {
            assert(fd.drop_last() =~= seq![c0, c1, c2]);
            assert(fd.drop_last().drop_last() =~= seq![c0, c1]);
            assert(trim_zeros(fd) == trim_zeros(fd.drop_last()));
            assert(trim_zeros(fd.drop_last()) == trim_zeros(fd.drop_last().drop_last()));
            assert(trim_zeros(fd.drop_last().drop_last()) == fd.drop_last().drop_last());
            assert(fp =~= seq![c0, c1]);
        } else {
            assert(fd.drop_last() =~= seq![c0, c1, c2]);
            assert(fd.drop_last().drop_last() =~= seq![c0, c1]);
            assert(fd.drop_last().drop_last().drop_last() =~= seq![c0]);
            assert(trim_zeros(fd) == trim_zeros(fd.drop_last()));
            assert(trim_zeros(fd.drop_last()) == trim_zeros(fd.drop_last().drop_last()));
            assert(trim_zeros(fd.drop_last().drop_last()) == trim_zeros(
                fd.drop_last().drop_last().drop_last(),
            ));
            assert(trim_zeros(fd.drop_last().drop_last().drop_last())
                == fd.drop_last().drop_last().drop_last());
            assert(fp =~= seq![c0]);
        }
    }
}

/// No character of a number's text is a delimiter, and the text reads back as
/// the number.
pub proof fn lemma_number_text(w: int)
    requires
        fits_steps(w),
    ensures
        number_text(w).len() >= 3,
        forall|t: int| 0 <= t < number_text(w).len() ==> !is_delim(#[trigger] number_text(w)[t]),
        parse_result(number_text(w)) == Ok::<LimitedFloat, NumberParseError>(
            LimitedFloat { wrapped: w as i64 },
        ),
{
    let m = abs_steps(w);
    let ip = nat_text(m / 10000);
    let fp = frac_text(m % 10000);
    let sign = if w < 0 { seq!['-'] } else { Seq::<char>::empty() };
    let s = number_text(w);
    lemma_nat_text(m / 10000);
    lemma_frac_text(m % 10000);
    assert(s =~= sign + ip + seq!['.'] + fp);
    let start = sign.len() as int;
    assert(sign_start(s) == start);
    assert forall|t: int| start <= t < start + ip.len() implies is_digit(#[trigger] s[t]) by {
        assert(s[t] == ip[t - start]);
    }
    lemma_digit_run_end(s, start, start + ip.len());
    let k = start + ip.len();
    assert(s[k] == '.');
    assert(s.subrange(start, k) =~= ip);
    assert forall|t: int| k + 1 <= t < s.len() implies is_digit(#[trigger] s[t]) by {
        assert(s[t] == fp[t - k - 1]);
    }
    lemma_digit_run_end(s, k + 1, s.len() as int);
    assert(s.subrange(k + 1, s.len() as int) =~= fp);
    assert(m / 10000 * 10000 + m % 10000 == m);
    assert forall|t: int| 0 <= t < s.len() implies !is_delim(#[trigger] s[t]) by {
        if t < start {
        } else if t < k {
            assert(is_digit(s[t]));
        } else if t > k {
            assert(is_digit(s[t]));
        }
    }
}

/// Reading back the text of a number gives the number.
pub proof fn lemma_number_round_trip(q: LimitedFloat)
    requires
        q.wrapped != i64::MIN,
    ensures
        parse_result(number_text(q.wrapped as int)) == Ok::<LimitedFloat, NumberParseError>(q),
{
    lemma_number_text(q.wrapped as int);
}

fn clamp_to_i64(x: i128) -> (r: i64)
    ensures
        r as int == clamp_i64(x as int),
{
    if x < i64::MIN as i128 {
        i64::MIN
    } else if x > i64::MAX as i128 {
        i64::MAX
    } else {
        x as i64
    }
}

/// `n / d` rounded half away from zero.
fn round_div_exec(n: i128, d: i128) -> (r: i128)
    requires
        d > 0,
        -0x4000_0000_0000_0000_0000_0000_0000_0000 <= n <= 0x4000_0000_0000_0000_0000_0000_0000_0000,
    ensures
        r as int == round_div(n as int, d as int),
{
    if n >= 0 {
        let q = n / d;
        let m = n % d;
        assert(q <= n) by (nonlinear_arith)
            requires n >= 0, d > 0, q == n / d;
        if m >= d - m {
            q + 1
        } else {
            q
        }
    } else {
        let p = -n;
        let q = p / d;
        let m = p % d;
        assert(q <= p) by (nonlinear_arith)
            requires p >= 0, d > 0, q == p / d;
        if m >= d - m {
            -(q + 1)
        } else {
            -q
        }
    }
}

impl LimitedFloat {
    pub fn new(wrapped: i64) -> (r: Self)
        ensures
            r.wrapped == wrapped,
    {
        Self { wrapped }
    }

    /// Whether the value is a concentration in `[0, 1]`.
    pub fn valid(&self) -> (r: bool)
        ensures
            r == spec_valid(self.wrapped as int),
    {
        self.wrapped >= 0 && self.wrapped <= SCALE
    }

    /// Reads a decimal literal, rounding to the nearest step.
    pub fn parse(s: &str) -> (r: Result<Self, NumberParseError>)
        ensures
            r == parse_result(s@),
    {
        let cs = chars_of(s);
        assert(cs@.subrange(0, cs@.len() as int) =~= s@);
        parse_number_chars(&cs, 0, cs.len())
    }

    /// Decimal text of the value.
    pub fn to_string(&self) -> (r: String)
        ensures
            r@ == number_text(self.wrapped as int),
    {
        let mut out = String::new();
        write_number(&mut out, *self);
        out
    }
}

impl std::ops::Add for LimitedFloat {
    type Output = Self;

    fn add(self, rhs: Self) -> (r: Self) {
        Self { wrapped: clamp_to_i64(self.wrapped as i128 + rhs.wrapped as i128) }
    }
}

impl vstd::std_specs::ops::AddSpecImpl for LimitedFloat {
    open spec fn obeys_add_spec() -> bool {
        true
    }

    open spec fn add_req(self, rhs: Self) -> bool {
        true
    }

    open spec fn add_spec(self, rhs: Self) -> Self {
        LimitedFloat { wrapped: q_add(self.wrapped as int, rhs.wrapped as int) as i64 }
    }
}

impl std::ops::Sub for LimitedFloat {
    type Output = Self;

    fn sub(self, rhs: Self) -> (r: Self) {
        Self { wrapped: clamp_to_i64(self.wrapped as i128 - rhs.wrapped as i128) }
    }
}

impl vstd::std_specs::ops::SubSpecImpl for LimitedFloat {
    open spec fn obeys_sub_spec() -> bool {
        true
    }

    open spec fn sub_req(self, rhs: Self) -> bool {
        true
    }

    open spec fn sub_spec(self, rhs: Self) -> Self {
        LimitedFloat { wrapped: q_sub(self.wrapped as int, rhs.wrapped as int) as i64 }
    }
}

impl std::ops::Mul for LimitedFloat {
    type Output = Self;

    fn mul(self, rhs: Self) -> (r: Self) {
        let a = self.wrapped as i128;
        let b = rhs.wrapped as i128;
        assert(-0x4000_0000_0000_0000_0000_0000_0000_0000 <= a * b
            <= 0x4000_0000_0000_0000_0000_0000_0000_0000) by (nonlinear_arith)
            requires
                -0x8000_0000_0000_0000 <= a <= 0x7fff_ffff_ffff_ffff,
                -0x8000_0000_0000_0000 <= b <= 0x7fff_ffff_ffff_ffff,
        ;
        let p = a * b;
        Self { wrapped: clamp_to_i64(round_div_exec(p, SCALE as i128)) }
    }
}

impl vstd::std_specs::ops::MulSpecImpl for LimitedFloat {
    open spec fn obeys_mul_spec() -> bool {
        true
    }

    open spec fn mul_req(self, rhs: Self) -> bool {
        true
    }

    open spec fn mul_spec(self, rhs: Self) -> Self {
        LimitedFloat { wrapped: q_mul(self.wrapped as int, rhs.wrapped as int) as i64 }
    }
}

impl std::ops::Div for LimitedFloat {
    type Output = Self;

    fn div(self, rhs: Self) -> (r: Self) {
        let a = self.wrapped as i128;
        let b = rhs.wrapped as i128;
        if b == 0 {
            if a > 0 {
                Self { wrapped: i64::MAX }
            } else if a < 0 {
                Self { wrapped: i64::MIN }
            } else {
                Self { wrapped: 0 }
            }
        } else if b > 0 {
            Self { wrapped: clamp_to_i64(round_div_exec(a * 10000, b)) }
        } else {
            Self { wrapped: clamp_to_i64(round_div_exec(-a * 10000, -b)) }
        }
    }
}

impl vstd::std_specs::ops::DivSpecImpl for LimitedFloat {
    open spec fn obeys_div_spec() -> bool {
        true
    }

    open spec fn div_req(self, rhs: Self) -> bool {
        true
    }

    open spec fn div_spec(self, rhs: Self) -> Self {
        LimitedFloat { wrapped: q_div(self.wrapped as int, rhs.wrapped as int) as i64 }
    }
}

/// Reads the characters `cs[lo..hi]` as a number.
pub fn parse_number_chars(cs: &Vec<char>, lo: usize, hi: usize) -> (r: Result<
    LimitedFloat,
    NumberParseError,
>)
    requires
        lo <= hi <= cs@.len(),
    ensures
        r == parse_result(cs@.subrange(lo as int, hi as int)),
{
    let ghost s = cs@.subrange(lo as int, hi as int);
    let mut i = lo;
    let mut neg = false;
    if i < hi && (cs[i] == '-' || cs[i] == '+') {
        neg = cs[i] == '-';
        i = i + 1;
    }
    let start = i;
    assert(start - lo == sign_start(s));
    assert(neg == (s.len() > 0 && s[0] == '-'));
    // Whole part, capped so that it cannot overflow.
    let cap: u128 = 10_000_000_000_000_000_000;
    let mut acc: u128 = 0;
    let ghost mut whole: nat = 0;
    while i < hi && '0' <= cs[i] && cs[i] <= '9'
        invariant
            lo <= start <= i <= hi <= cs@.len(),
            s == cs@.subrange(lo as int, hi as int),
            forall|t: int| start - lo <= t < i - lo ==> is_digit(#[trigger] s[t]),
            whole == digits_value(s.subrange(start - lo, i - lo)),
            cap == 10_000_000_000_000_000_000,
            acc == if whole <= cap { whole } else { cap as nat },
        decreases hi - i,
    {
        let d = (cs[i] as u32 - '0' as u32) as u128;
        let ghost prev = whole;
        proof {
            let sub = s.subrange(start - lo, i - lo + 1);
            assert(sub.drop_last() =~= s.subrange(start - lo, i - lo));
            assert(sub.last() == cs@[i as int]);
            whole = (whole * 10 + d) as nat;
            assert(whole == digits_value(sub));
        }
        if acc < cap {
            acc = acc * 10 + d;
            if acc > cap {
                acc = cap;
            }
        } else {
            assert(whole >= cap) by (nonlinear_arith)
                requires whole == prev * 10 + d, prev >= cap, cap > 0, d >= 0;
        }
        i = i + 1;
    }
    proof {
        lemma_digit_run_end(s, start - lo, i - lo);
    }
    let k = i;
    if k == hi {
        if k == start {
            return Err(NumberParseError::Malformed);
        }
        if acc >= cap {
            return Err(NumberParseError::OutOfRange);
        }
        let v = acc * 10000;
        if v > i64::MAX as u128 {
            return Err(NumberParseError::OutOfRange);
        }
        let w: i64 = if neg { -(v as i64) } else { v as i64 };
        return Ok(LimitedFloat { wrapped: w });
    }
    if cs[k] == '/' {
        proof {
            assert(s.subrange(start - lo, k - lo) =~= cs@.subrange(start as int, k as int));
        }
        return parse_fraction_tail(cs, lo, hi, start, k, neg, acc, Ghost(whole));
    }
    if cs[k] != '.' {
        return Err(NumberParseError::Malformed);
    }
    i = k + 1;
    while i < hi && '0' <= cs[i] && cs[i] <= '9'
        invariant
            lo <= k,
            k + 1 <= i <= hi <= cs@.len(),
            s == cs@.subrange(lo as int, hi as int),
            forall|t: int| k + 1 - lo <= t < i - lo ==> is_digit(#[trigger] s[t]),
        decreases hi - i,
    {
        assert(s[i - lo] == cs@[i as int]);
        i = i + 1;
    }
    proof {
        lemma_digit_run_end(s, k + 1 - lo, i - lo);
    }
    if i != hi {
        return Err(NumberParseError::Malformed);
    }
    if k == start && i == k + 1 {
        return Err(NumberParseError::Malformed);
    }
    let ghost fp = s.subrange(k + 1 - lo, i - lo);
    assert forall|t: int| k + 1 <= t < hi implies is_digit(#[trigger] cs@[t]) by {
        assert(s[t - lo] == cs@[t]);
    }
    let f0 = frac_digit_at(cs, k + 1, hi, 0);
    let f1 = frac_digit_at(cs, k + 1, hi, 1);
    let f2 = frac_digit_at(cs, k + 1, hi, 2);
    let f3 = frac_digit_at(cs, k + 1, hi, 3);
    let f4 = frac_digit_at(cs, k + 1, hi, 4);
    proof {
        assert(forall|j: int| 0 <= j < fp.len() ==> fp[j] == cs@[k + 1 + j]);
    }
    let frac = f0 * 1000 + f1 * 100 + f2 * 10 + f3 + if f4 >= 5 { 1 } else { 0 };
    assert(frac == frac_units(fp));
    if acc >= cap {
        return Err(NumberParseError::OutOfRange);
    }
    let v: u128 = acc * 10000 + frac as u128;
    if v > i64::MAX as u128 {
        return Err(NumberParseError::OutOfRange);
    }
    let w: i64 = if neg { -(v as i64) } else { v as i64 };
    Ok(LimitedFloat { wrapped: w })
}

/// Reads the denominator of a fraction whose numerator `cs[start..k]` has been
/// read (`num`, capped), and the fraction's value.
fn parse_fraction_tail(
    cs: &Vec<char>,
    lo: usize,
    hi: usize,
    start: usize,
    k: usize,
    neg: bool,
    num: u128,
    Ghost(whole): Ghost<nat>,
) -> (r: Result<LimitedFloat, NumberParseError>)
    requires
        lo <= start <= k < hi <= cs@.len(),
        cs@[k as int] == '/',
        start - lo == sign_start(cs@.subrange(lo as int, hi as int)),
        neg == (hi > lo && cs@[lo as int] == '-'),
        k - lo == digit_run(cs@.subrange(lo as int, hi as int), start - lo),
        whole == digits_value(cs@.subrange(start as int, k as int)),
        num == if whole <= 10_000_000_000_000_000_000 { whole } else {
            10_000_000_000_000_000_000nat
        },
    ensures
        r == fraction_result(cs@.subrange(lo as int, hi as int)),
{
    let ghost s = cs@.subrange(lo as int, hi as int);
    assert(s.subrange(start - lo, k - lo) =~= cs@.subrange(start as int, k as int));
    let cap: u128 = 10_000_000_000_000_000_000;
    let mut den: u128 = 0;
    let ghost mut dval: nat = 0;
    let mut i = k + 1;
    while i < hi && '0' <= cs[i] && cs[i] <= '9'
        invariant
            lo <= k,
            k + 1 <= i <= hi <= cs@.len(),
            s == cs@.subrange(lo as int, hi as int),
            forall|t: int| k + 1 - lo <= t < i - lo ==> is_digit(#[trigger] s[t]),
            dval == digits_value(s.subrange(k + 1 - lo, i - lo)),
            cap == 10_000_000_000_000_000_000,
            den == if dval <= cap { dval } else { cap as nat },
        decreases hi - i,
    {
        let d = (cs[i] as u32 - '0' as u32) as u128;
        let ghost prev = dval;
        proof {
            let sub = s.subrange(k + 1 - lo, i - lo + 1);
            assert(sub.drop_last() =~= s.subrange(k + 1 - lo, i - lo));
            assert(sub.last() == cs@[i as int]);
            dval = (dval * 10 + d) as nat;
            assert(dval == digits_value(sub));
        }
        if den < cap {
            den = den * 10 + d;
            if den > cap {
                den = cap;
            }
        } else {
            assert(dval >= cap) by (nonlinear_arith)
                requires dval == prev * 10 + d, prev >= cap, cap > 0, d >= 0;
        }
        i = i + 1;
    }
    proof {
        lemma_digit_run_end(s, k + 1 - lo, i - lo);
    }
    if i != hi || k == start || i == k + 1 || den == 0 {
        return Err(NumberParseError::Malformed);
    }
    if k - start > FRACTION_DIGITS || i - (k + 1) > FRACTION_DIGITS {
        return Err(NumberParseError::OutOfRange);
    }
    proof {
        let nums = cs@.subrange(start as int, k as int);
        lemma_digit_run_bounds(s, start - lo);
        assert forall|t: int| 0 <= t < nums.len() implies is_digit(#[trigger] nums[t]) by {
            assert(nums[t] == s[start - lo + t]);
        }
        lemma_eighteen_digits(nums);
        let dens = s.subrange(k + 1 - lo, i - lo);
        assert forall|t: int| 0 <= t < dens.len() implies is_digit(#[trigger] dens[t]) by {
            assert(dens[t] == s[k + 1 - lo + t]);
        }
        lemma_eighteen_digits(dens);
    }
    let n: u128 = num * 10000;
    let q = n / den;
    let m = n % den;
    let steps: u128 = if m >= den - m { q + 1 } else { q };
    if steps > i64::MAX as u128 {
        return Err(NumberParseError::OutOfRange);
    }
    let w: i64 = if neg { -(steps as i64) } else { steps as i64 };
    Ok(LimitedFloat { wrapped: w })
}

pub open spec fn pow10(n: nat) -> nat
    decreases n,
{
    if n == 0 {
        1
    } else {
        10 * pow10((n - 1) as nat)
    }
}

/// A run of `n` digits is below ten to the `n`.
proof fn lemma_digits_value_bound(s: Seq<char>)
    requires
        forall|t: int| 0 <= t < s.len() ==> is_digit(#[trigger] s[t]),
    ensures
        digits_value(s) < pow10(s.len()),
    decreases s.len(),
{
    if s.len() > 0 {
        let rest = s.drop_last();
        assert forall|t: int| 0 <= t < rest.len() implies is_digit(#[trigger] rest[t]) by {
            assert(rest[t] == s[t]);
        }
        lemma_digits_value_bound(rest);
        let (a, d, p) = (digits_value(rest), digit_val(s.last()), pow10(rest.len()));
        assert(is_digit(s[s.len() - 1]));
        assert(a * 10 + d < 10 * p) by (nonlinear_arith)
            requires a < p, d < 10;
    }
}

proof fn lemma_pow10_mono(n: nat, m: nat)
    requires
        n <= m,
    ensures
        pow10(n) <= pow10(m),
    decreases m,
{
    if n < m {
        lemma_pow10_mono(n, (m - 1) as nat);
    }
}

proof fn lemma_eighteen_digits(s: Seq<char>)
    requires
        forall|t: int| 0 <= t < s.len() ==> is_digit(#[trigger] s[t]),
        s.len() <= 18,
    ensures
        digits_value(s) < 1_000_000_000_000_000_000,
{
    lemma_digits_value_bound(s);
    lemma_pow10_mono(s.len(), 18);
    reveal_with_fuel(pow10, 19);
}

/// Value of the digit at `from + j` when it lies before `hi`, else zero.
fn frac_digit_at(cs: &Vec<char>, from: usize, hi: usize, j: usize) -> (r: u64)
    requires
        from <= hi <= cs@.len(),
        j < 5,
        forall|t: int| from <= t < hi ==> is_digit(#[trigger] cs@[t]),
    ensures
        r == frac_digit(cs@.subrange(from as int, hi as int), j as int),
        r < 10,
{
    if j < hi - from {
        (cs[from + j] as u32 - '0' as u32) as u64
    } else {
        0
    }
}

/// Appends the text of `q` to `out`.
pub fn write_number(out: &mut String, q: LimitedFloat)
    ensures
        final(out)@ == old(out)@ + number_text(q.wrapped as int),
{
    let w = q.wrapped;
    let m: u64 = if w < 0 { (-(w as i128)) as u64 } else { w as u64 };
    if w < 0 {
        proof { reveal_strlit("-"); }
        out.append("-");
    }
    let ghost before_int = out@;
    push_nat(out, m / 10000);
    proof { reveal_strlit("."); }
    out.append(".");
    let f = m % 10000;
    let ghost before_frac = out@;
    if f == 0 {
        proof { reveal_strlit("0"); }
        out.append("0");
    } else {
        let d0 = f / 1000;
        let d1 = (f / 100) % 10;
        let d2 = (f / 10) % 10;
        let d3 = f % 10;
        let ghost fd = four_digits(f as nat);
        out.append(digit_str(d0));
        if d1 != 0 || d2 != 0 || d3 != 0 {
            out.append(digit_str(d1));
            if d2 != 0 || d3 != 0 {
                out.append(digit_str(d2));
                if d3 != 0 {
                    out.append(digit_str(d3));
                    assert(trim_zeros(fd) == fd);
                } else {
                    assert(trim_zeros(fd) == trim_zeros(fd.drop_last()));
                    assert(trim_zeros(fd.drop_last()) == fd.drop_last());
                }
            } else {
                assert(trim_zeros(fd) == trim_zeros(fd.drop_last()));
                assert(trim_zeros(fd.drop_last()) == trim_zeros(fd.drop_last().drop_last()));
                assert(trim_zeros(fd.drop_last().drop_last()) == fd.drop_last().drop_last());
            }
        } else {
            assert(d0 != 0);
            assert(trim_zeros(fd) == trim_zeros(fd.drop_last()));
            assert(trim_zeros(fd.drop_last()) == trim_zeros(fd.drop_last().drop_last()));
            assert(trim_zeros(fd.drop_last().drop_last()) == trim_zeros(
                fd.drop_last().drop_last().drop_last(),
            ));
            assert(trim_zeros(fd.drop_last().drop_last().drop_last())
                == fd.drop_last().drop_last().drop_last());
        }
        assert(out@ =~= before_frac + frac_text(f as nat));
    }
    assert(out@ =~= old(out)@ + number_text(q.wrapped as int));
}

} // verus!
