//! Parsing and formatting helpers shared across modules, and the plain values
//! that stand for file metadata, durations and instants.

use crate::binary64::{
    half_even, keeps, lemma_power_monotone, lemma_power_positive, lemma_power_sum, lemma_powers,
    lemma_product_close, lemma_product_exact, lemma_product_large, lemma_product_small, multiply_kept, power_of_two,
    rounded_integer, two_to, whole_product, LOW,
};
use crate::errors::{quote, quoted, ParseError};
use crate::text::{
    ascii_digit, ascii_letter, chars_of, decimal, digit_char, digit_char_exec, digits,
    is_ascii_digit, is_ascii_letter, law_trimmed_padding, lower_char, lowered, same_text, string_of, to_lowered, trim,
    trimmed, two_decimals, white,
};
use vstd::arithmetic::div_mod::{lemma_div_denominator, lemma_hoist_over_denominator};
use vstd::arithmetic::power::{lemma_pow_adds, lemma_pow_positive, pow};
use vstd::prelude::*;
use vstd::string::*;

verus! {

// ---------------------------------------------------------------------------
// Plain values
// ---------------------------------------------------------------------------
/// What is read of a file's metadata.
#[derive(Debug, Clone, Copy, PartialEq, Eq, Structural)]
pub struct Metadata {
    /// Logical length in bytes.
    pub len: u64,
    /// Allocated 512-byte blocks, where the platform reports them.
    pub blocks: Option<u64>,
    /// Device identifier, where the platform has the concept.
    pub device: Option<u64>,
}

impl Metadata {
    /// Whether the allocated bytes fit in 64 bits.
    pub open spec fn wf(self) -> bool {
        self.blocks matches Some(blocks) ==> blocks * 512 <= u64::MAX
    }

    /// Bytes allocated on disk.
    pub open spec fn physical(self) -> nat {
        match self.blocks {
            Some(blocks) => (blocks * 512) as nat,
            None => self.len as nat,
        }
    }
}

/// A signed span of whole seconds.
#[derive(Debug, Clone, Copy, PartialEq, Eq, Structural)]
pub struct Duration {
    pub seconds: i64,
}

/// An instant: seconds since the Unix epoch and nanoseconds within the second.
#[derive(Debug, Clone, Copy, PartialEq, Eq, Structural)]
pub struct Timestamp {
    pub secs: i64,
    pub nanos: u32,
}

impl Timestamp {
    /// Whether this instant is `other` or earlier.
    pub open spec fn at_or_before(self, other: Timestamp) -> bool {
        self.secs < other.secs || (self.secs == other.secs && self.nanos <= other.nanos)
    }

    pub fn is_at_or_before(self, other: Timestamp) -> (yes: bool)
        ensures
            yes == self.at_or_before(other),
    {
        self.secs < other.secs || (self.secs == other.secs && self.nanos <= other.nanos)
    }
}

/// Bytes physically allocated on disk for this entry: its blocks where the
/// platform counts them, its length elsewhere.
pub fn physical_disk_size(metadata: &Metadata) -> (bytes: u64)
    requires
        metadata.wf(),
    ensures
        bytes == metadata.physical(),
{
    match metadata.blocks {
        Some(blocks) => blocks * 512,
        None => metadata.len,
    }
}

/// Platform device identifier used to detect mount-point crossings.
pub fn device_id(metadata: &Metadata) -> (device: Option<u64>)
    ensures
        device == metadata.device,
{
    metadata.device
}

// ---------------------------------------------------------------------------
// Decimal numbers
// ---------------------------------------------------------------------------
/// The value of a digit string, most significant digit first.
pub open spec fn digits_value(s: Seq<char>) -> nat
    decreases s.len(),
{
    if s.len() == 0 {
        0
    } else {
        digits_value(s.drop_last()) * 10 + (s.last() as nat - '0' as nat) as nat
    }
}

/// Whether every character is an ASCII digit.
pub open spec fn all_digits(s: Seq<char>) -> bool {
    forall|i: int| 0 <= i < s.len() ==> ascii_digit(#[trigger] s[i])
}

/// Position of the first `.`, or the length.
pub open spec fn dot_position(s: Seq<char>) -> int
    decreases s.len(),
{
    if s.len() == 0 || s[0] == '.' {
        0
    } else {
        1 + dot_position(s.skip(1))
    }
}

/// A number as written: sign, digits before the point, digits after it.
pub struct NumberText {
    pub negative: bool,
    pub whole: Seq<char>,
    pub frac: Seq<char>,
}

/// How a number text is taken apart.
pub open spec fn number_text(s: Seq<char>) -> NumberText {
    let signed = s.len() > 0 && (s[0] == '+' || s[0] == '-');
    let body = if signed {
        s.skip(1)
    } else {
        s
    };
    let dot = dot_position(body);
    NumberText {
        negative: s.len() > 0 && s[0] == '-',
        whole: body.take(dot),
        frac: if dot < body.len() {
            body.skip(dot + 1)
        } else {
            Seq::empty()
        },
    }
}

impl NumberText {
    /// A number has at least one digit and nothing but digits around its point.
    pub open spec fn valid(self) -> bool {
        &&& all_digits(self.whole)
        &&& all_digits(self.frac)
        &&& self.whole.len() + self.frac.len() > 0
    }

    /// The digits before and after the point, read as one integer.
    pub open spec fn mantissa(self) -> nat {
        digits_value(self.whole + self.frac)
    }

    /// The number times `factor`, rounded down to an integer.
    pub open spec fn scaled(self, factor: nat) -> nat {
        (self.mantissa() * factor) / (pow(10, self.frac.len()) as nat)
    }

    /// The number times `factor` in double precision, rounded down to an
    /// integer.
    pub open spec fn multiplied(self, factor: nat) -> nat {
        whole_product(self.mantissa(), pow(10, self.frac.len()) as nat, factor)
    }

    /// Whether the number is so small that double precision rounds it to zero.
    pub open spec fn vanishing(self) -> bool {
        self.mantissa() * power_of_two(1075) <= pow(10, self.frac.len())
    }

    /// Whether the number is too large for double precision.
    pub open spec fn infinite(self) -> bool {
        digits_value(self.whole) >= INFINITE_SIGNIFICAND * power_of_two(970)
    }
}

/// `2^54 - 1`: from this times `2^970` on, double precision rounds to infinity.
pub const INFINITE_SIGNIFICAND: u64 = 0x3f_ffff_ffff_ffff;

/// Why a number text is refused, or the number it stands for.
pub open spec fn parsed_number(s: Seq<char>) -> Result<NumberText, Seq<char>> {
    let number = number_text(trimmed(s));
    if !number.valid() {
        Err("expected a leading number"@)
    } else if number.infinite() || (number.negative && !number.vanishing()) {
        Err("must be a non-negative finite number"@)
    } else {
        Ok(NumberText { negative: false, ..number })
    }
}

/// A non-negative decimal number, digit by digit.
pub struct Number {
    whole: Vec<char>,
    frac: Vec<char>,
}

impl Number {
    pub closed spec fn value(&self) -> NumberText {
        NumberText { negative: false, whole: self.whole@, frac: self.frac@ }
    }
}

/// Digits after the point, times `factor`, rounded down: the carry that a
/// digit-by-digit multiplication hands to the digits before the point.
spec fn carried(frac: Seq<char>, factor: nat) -> nat
    decreases frac.len(),
{
    if frac.len() == 0 {
        0
    } else {
        ((frac[0] as nat - '0' as nat) as nat * factor + carried(frac.skip(1), factor)) / 10
    }
}

/// Whether rounding down lost anything in [`carried`].
spec fn inexact(frac: Seq<char>, factor: nat) -> bool
    decreases frac.len(),
{
    frac.len() > 0 && (inexact(frac.skip(1), factor) || ((frac[0] as nat - '0' as nat) as nat
        * factor + carried(frac.skip(1), factor)) % 10 != 0)
}

proof fn lemma_digits_value_concat(a: Seq<char>, b: Seq<char>)
    ensures
        digits_value(a + b) == digits_value(a) * pow(10, b.len()) + digits_value(b),
    decreases b.len(),
{
    if b.len() == 0 {
        assert(a + b =~= a);
        vstd::arithmetic::power::lemma_pow0(10);
    } else {
        assert((a + b).drop_last() =~= a + b.drop_last());
        lemma_digits_value_concat(a, b.drop_last());
        let k = (b.len() - 1) as nat;
        lemma_pow_adds(10, k, 1);
        vstd::arithmetic::power::lemma_pow1(10);
        let va = digits_value(a) as int;
        let p = pow(10, k);
        assert(va * p * 10 == va * (p * 10)) by (nonlinear_arith);
        assert((va * p + digits_value(b.drop_last())) * 10 == va * p * 10 + digits_value(
            b.drop_last(),
        ) * 10) by (nonlinear_arith);
    }
}

proof fn lemma_digit_range(s: Seq<char>, i: int)
    requires
        all_digits(s),
        0 <= i < s.len(),
    ensures
        0 <= s[i] as nat - '0' as nat <= 9,
{
    assert(ascii_digit(s[i]));
}

proof fn lemma_carried(frac: Seq<char>, factor: nat)
    requires
        all_digits(frac),
    ensures
        carried(frac, factor) == (digits_value(frac) * factor) / (pow(10, frac.len()) as nat),
        factor > 0 ==> carried(frac, factor) < factor,
    decreases frac.len(),
{
    if frac.len() == 0 {
        vstd::arithmetic::power::lemma_pow0(10);
        assert((0 * factor) / 1 == 0) by (nonlinear_arith);
    } else {
        let rest = frac.skip(1);
        let first = frac.take(1);
        let k = rest.len();
        assert(all_digits(rest)) by {
            assert forall|i: int| 0 <= i < rest.len() implies ascii_digit(#[trigger] rest[i]) by {
                assert(ascii_digit(frac[i + 1]));
            }
        }
        lemma_carried(rest, factor);
        lemma_digit_range(frac, 0);
        let d = (frac[0] as nat - '0' as nat) as nat;
        assert(first + rest =~= frac);
        lemma_digits_value_concat(first, rest);
        assert(first.drop_last() =~= Seq::<char>::empty());
        assert(digits_value(first.drop_last()) == 0);
        assert(digits_value(first) == d);
        let p = pow(10, k);
        lemma_pow_positive(10, k);
        lemma_pow_adds(10, k, 1);
        vstd::arithmetic::power::lemma_pow1(10);
        let v = digits_value(rest) as int;
        let f = factor as int;
        assert((d * p + v) * f == (d * f) * p + v * f) by (nonlinear_arith);
        // floor(((d*f)*p + v*f) / (p*10)) == floor((d*f + floor(v*f/p)) / 10)
        assert(0 <= v * f) by (nonlinear_arith)
            requires
                v >= 0,
                f >= 0,
        ;
        assert(0 <= (d * f) * p) by (nonlinear_arith)
            requires
                d >= 0,
                f >= 0,
                p > 0,
        ;
        lemma_div_denominator((d * f) * p + v * f, p, 10);
        lemma_hoist_over_denominator(v * f, d * f, p as nat);
        assert(p * 10 == pow(10, k + 1));
        if factor > 0 {
            assert(d * f + carried(rest, factor) < 10 * f) by (nonlinear_arith)
                requires
                    d <= 9,
                    carried(rest, factor) < f,
                    f > 0,
            ;
        }
    }
}

proof fn lemma_inexact(frac: Seq<char>, factor: nat)
    requires
        all_digits(frac),
    ensures
        carried(frac, factor) * pow(10, frac.len()) <= digits_value(frac) * factor,
        digits_value(frac) * factor < (carried(frac, factor) + 1) * pow(10, frac.len()),
        inexact(frac, factor) <==> digits_value(frac) * factor != carried(frac, factor) * pow(
            10,
            frac.len(),
        ),
    decreases frac.len(),
{
    if frac.len() == 0 {
        vstd::arithmetic::power::lemma_pow0(10);
        assert(0 * factor == 0) by (nonlinear_arith);
    } else {
        let rest = frac.skip(1);
        let first = frac.take(1);
        let k = rest.len();
        assert(all_digits(rest)) by {
            assert forall|i: int| 0 <= i < rest.len() implies ascii_digit(#[trigger] rest[i]) by {
                assert(ascii_digit(frac[i + 1]));
            }
        }
        lemma_inexact(rest, factor);
        lemma_digit_range(frac, 0);
        let d = (frac[0] as nat - '0' as nat) as nat;
        assert(first + rest =~= frac);
        lemma_digits_value_concat(first, rest);
        assert(first.drop_last() =~= Seq::<char>::empty());
        assert(digits_value(first.drop_last()) == 0);
        let p = pow(10, k);
        lemma_pow_positive(10, k);
        lemma_pow_adds(10, k, 1);
        vstd::arithmetic::power::lemma_pow1(10);
        let v = digits_value(rest) as int;
        let f = factor as int;
        let c = carried(rest, factor) as int;
        let whole = d * f + c;
        let out = whole / 10;
        let last = whole % 10;
        assert(whole >= 0) by (nonlinear_arith)
            requires
                whole == d * f + c,
                d >= 0,
                f >= 0,
                c >= 0,
        ;
        assert(digits_value(frac) * f == (d * f) * p + v * f) by (nonlinear_arith)
            requires
                digits_value(frac) == d * p + v,
        ;
        assert(out * (p * 10) == (whole - last) * p) by (nonlinear_arith)
            requires
                whole == 10 * out + last,
        ;
        assert((out + 1) * (p * 10) == (whole - last + 10) * p) by (nonlinear_arith)
            requires
                whole == 10 * out + last,
        ;
        let total = (d * f) * p + v * f;
        assert(whole * p <= total && total < (whole + 1) * p) by (nonlinear_arith)
            requires
                total == (d * f) * p + v * f,
                whole == d * f + c,
                c * p <= v * f,
                v * f < (c + 1) * p,
        ;
        assert(total == whole * p <==> v * f == c * p) by (nonlinear_arith)
            requires
                total == (d * f) * p + v * f,
                whole == d * f + c,
        ;
        assert((whole - last) * p <= whole * p) by (nonlinear_arith)
            requires
                last >= 0,
                p > 0,
        ;
        assert((whole + 1) * p <= (whole - last + 10) * p) by (nonlinear_arith)
            requires
                last <= 9,
                p > 0,
        ;
        assert((whole - last) * p == whole * p <==> last == 0) by (nonlinear_arith)
            requires
                p > 0,
        ;
        assert(p * 10 == pow(10, k + 1));
    }
}

proof fn lemma_scaled(number: NumberText, factor: nat)
    requires
        number.valid(),
    ensures
        number.scaled(factor) == digits_value(number.whole) * factor + carried(
            number.frac,
            factor,
        ),
{
    lemma_digits_value_concat(number.whole, number.frac);
    lemma_carried(number.frac, factor);
    let p = pow(10, number.frac.len());
    lemma_pow_positive(10, number.frac.len());
    let w = digits_value(number.whole) as int;
    let v = digits_value(number.frac) as int;
    let f = factor as int;
    assert((w * p + v) * f == (w * f) * p + v * f) by (nonlinear_arith);
    lemma_hoist_over_denominator(v * f, w * f, p as nat);
}

proof fn lemma_digits_value_prefix(s: Seq<char>, i: int)
    requires
        0 <= i <= s.len(),
    ensures
        digits_value(s.take(i)) <= digits_value(s),
    decreases s.len() - i,
{
    if i == s.len() {
        assert(s.take(i) =~= s);
    } else {
        lemma_digits_value_prefix(s, i + 1);
        assert(s.take(i + 1).drop_last() =~= s.take(i));
    }
}

/// Whether every character of `s` is a digit.
fn only_digits(s: &Vec<char>) -> (yes: bool)
    ensures
        yes == all_digits(s@),
{
    let mut i: usize = 0;
    while i < s.len()
        invariant
            i <= s@.len(),
            forall|j: int| 0 <= j < i ==> ascii_digit(#[trigger] s@[j]),
        decreases s.len() - i,
    {
        if !is_ascii_digit(s[i]) {
            assert(!ascii_digit(s@[i as int]));
            return false;
        }
        i += 1;
    }
    true
}

fn copy_range(s: &Vec<char>, from: usize, to: usize) -> (out: Vec<char>)
    requires
        from <= to <= s@.len(),
    ensures
        out@ == s@.subrange(from as int, to as int),
{
    let mut out: Vec<char> = Vec::new();
    let mut i: usize = from;
    while i < to
        invariant
            from <= i <= to <= s@.len(),
            out@ == s@.subrange(from as int, i as int),
        decreases to - i,
    {
        out.push(s[i]);
        i += 1;
        assert(out@ =~= s@.subrange(from as int, i as int));
    }
    out
}

fn find_dot(s: &Vec<char>, from: usize) -> (at: usize)
    requires
        from <= s@.len(),
    ensures
        from <= at <= s@.len(),
        at - from == dot_position(s@.skip(from as int)),
{
    let mut i: usize = from;
    while i < s.len() && s[i] != '.'
        invariant
            from <= i <= s@.len(),
            dot_position(s@.skip(from as int)) == i - from + dot_position(s@.skip(i as int)),
        decreases s.len() - i,
    {
        assert(s@.skip(i as int).skip(1) =~= s@.skip(i + 1));
        i += 1;
    }
    i
}

/// Parses a non-negative decimal number such as `12`, `1.5` or `.25`.
pub fn parse_number(number: &Vec<char>) -> (out: Result<Number, String>)
    ensures
        match out {
            Ok(n) => n.value().valid() && parsed_number(number@) == Ok::<NumberText, Seq<char>>(
                n.value(),
            ),
            Err(reason) => parsed_number(number@) == Err::<NumberText, Seq<char>>(reason@),
        },
{
    let s = trim(number);
    let ghost parts = number_text(s@);
    let start: usize = if s.len() > 0 && (s[0] == '+' || s[0] == '-') {
        1
    } else {
        0
    };
    let negative = s.len() > 0 && s[0] == '-';
    let dot = find_dot(&s, start);
    let ghost body = s@.skip(start as int);
    assert(start == 0 ==> body =~= s@);
    let whole = copy_range(&s, start, dot);
    assert(whole@ =~= body.take(dot - start));
    let frac = if dot < s.len() {
        let tail = copy_range(&s, dot + 1, s.len());
        assert(tail@ =~= body.skip(dot - start + 1));
        tail
    } else {
        Vec::new()
    };
    assert(frac@ =~= parts.frac);
    if !(only_digits(&whole) && only_digits(&frac) && (whole.len() > 0 || frac.len() > 0)) {
        return Err("expected a leading number".to_owned());
    }
    if is_infinite(&whole) {
        return Err("must be a non-negative finite number".to_owned());
    }
    if negative && !is_vanishing(&whole, &frac) {
        return Err("must be a non-negative finite number".to_owned());
    }
    Ok(Number { whole, frac })
}

fn all_zero(s: &Vec<char>) -> (yes: bool)
    requires
        all_digits(s@),
    ensures
        yes == (digits_value(s@) == 0),
{
    let mut i: usize = 0;
    assert(s@.take(0) =~= Seq::empty());
    while i < s.len()
        invariant
            i <= s@.len(),
            all_digits(s@),
            digits_value(s@.take(i as int)) == 0,
        decreases s.len() - i,
    {
        assert(s@.take(i + 1).drop_last() =~= s@.take(i as int));
        proof {
            lemma_digit_range(s@, i as int);
        }
        if s[i] != '0' {
            proof {
                lemma_digits_value_prefix(s@, i + 1);
            }
            return false;
        }
        i += 1;
    }
    assert(s@.take(s@.len() as int) =~= s@);
    true
}

/// The first digit, and the rest.
proof fn lemma_first_digit(s: Seq<char>)
    requires
        all_digits(s),
        s.len() > 0,
    ensures
        all_digits(s.skip(1)),
        digits_value(s) == (s[0] as nat - '0' as nat) * pow(10, (s.len() - 1) as nat)
            + digits_value(s.skip(1)),
{
    let first = s.take(1);
    let rest = s.skip(1);
    assert forall|i: int| 0 <= i < rest.len() implies ascii_digit(#[trigger] rest[i]) by {
        assert(ascii_digit(s[i + 1]));
    }
    assert(first + rest =~= s);
    lemma_digits_value_concat(first, rest);
    lemma_digit_range(s, 0);
    assert(first.drop_last() =~= Seq::<char>::empty());
    assert(digits_value(first.drop_last()) == 0);
}

proof fn lemma_digits_bound(s: Seq<char>)
    requires
        all_digits(s),
    ensures
        digits_value(s) < pow(10, s.len()),
    decreases s.len(),
{
    if s.len() == 0 {
        vstd::arithmetic::power::lemma_pow0(10);
    } else {
        let short = s.drop_last();
        let k = short.len();
        assert(all_digits(short)) by {
            assert forall|i: int| 0 <= i < short.len() implies ascii_digit(#[trigger] short[i]) by {
                assert(ascii_digit(s[i]));
            }
        }
        lemma_digits_bound(short);
        lemma_digit_range(s, s.len() - 1);
        lemma_pow_adds(10, k, 1);
        vstd::arithmetic::power::lemma_pow1(10);
        assert(k + 1 == s.len());
    }
}

/// Twice a number, digit by digit: the digits of the same width, and whether
/// there is one more.
fn double(s: &Vec<char>) -> (out: (Vec<char>, bool))
    requires
        all_digits(s@),
    ensures
        all_digits(out.0@),
        out.0@.len() == s@.len(),
        digits_value(out.0@) + (if out.1 {
            pow(10, s@.len())
        } else {
            0
        }) == 2 * digits_value(s@),
{
    let mut out = copy_range(s, 0, s.len());
    let mut carry: u8 = 0;
    let mut i: usize = s.len();
    let ghost n = s@.len();
    assert(out@ =~= s@);
    assert(s@.skip(n as int) =~= Seq::empty());
    assert(out@.skip(n as int) =~= Seq::empty());
    while i > 0
        invariant
            i <= n == s@.len() == out@.len(),
            all_digits(s@),
            all_digits(out@),
            carry <= 1,
            forall|j: int| 0 <= j < i ==> out@[j] == s@[j],
            digits_value(out@.skip(i as int)) + carry * pow(10, (n - i) as nat) == 2 * digits_value(
                s@.skip(i as int),
            ),
        decreases i,
    {
        i -= 1;
        proof {
            lemma_digit_range(s@, i as int);
        }
        let d: u8 = (s[i] as u32 - '0' as u32) as u8;
        let sum: u8 = 2 * d + carry;
        let ghost before = out@;
        let ghost carried_in = carry as int;
        out.set(i, digit_char_exec(sum % 10));
        carry = sum / 10;
        proof {
            let k = (n - i - 1) as nat;
            let p = pow(10, k);
            assert(ascii_digit(digit_char(sum as nat % 10)));
            assert(digit_char(sum as nat % 10) as nat - '0' as nat == sum as nat % 10);
            assert(all_digits(out@)) by {
                assert forall|j: int| 0 <= j < out@.len() implies ascii_digit(
                    #[trigger] out@[j],
                ) by {
                    if j != i {
                        assert(ascii_digit(before[j]));
                    }
                }
            }
            let a = s@.skip(i as int);
            let b = out@.skip(i as int);
            assert(a.skip(1) =~= s@.skip(i + 1));
            assert(b.skip(1) =~= before.skip(i + 1));
            assert(all_digits(a) && all_digits(b)) by {
                assert forall|j: int| 0 <= j < a.len() implies ascii_digit(#[trigger] a[j])
                    && ascii_digit(b[j]) by {
                    assert(ascii_digit(s@[i + j]));
                    assert(ascii_digit(out@[i + j]));
                }
            }
            lemma_first_digit(a);
            lemma_first_digit(b);
            lemma_pow_adds(10, k, 1);
            vstd::arithmetic::power::lemma_pow1(10);
            assert(k + 1 == n - i);
            let last = sum as int % 10;
            let up = sum as int / 10;
            assert(last * p + up * (p * 10) == (2 * d + carried_in) * p) by (nonlinear_arith)
                requires
                    10 * up + last == 2 * d + carried_in,
            ;
            assert((2 * d + carried_in) * p == 2 * (d * p) + carried_in * p) by (nonlinear_arith);
        }
    }
    assert(out@.skip(0) =~= out@);
    assert(s@.skip(0) =~= s@);
    assert(1 * pow(10, n) == pow(10, n) && 0 * pow(10, n) == 0) by (nonlinear_arith);
    (out, carry == 1)
}

/// Whether a number with these digits around its point is rounded to zero in
/// double precision.
fn is_vanishing(whole: &Vec<char>, frac: &Vec<char>) -> (yes: bool)
    requires
        all_digits(whole@),
        all_digits(frac@),
    ensures
        yes == (digits_value(whole@ + frac@) * power_of_two(1075) <= pow(10, frac@.len())),
{
    let ghost k = frac@.len();
    let ghost p = pow(10, k);
    let ghost value = digits_value(frac@);
    proof {
        lemma_digits_value_concat(whole@, frac@);
        lemma_pow_positive(10, k);
        lemma_power_monotone(1, 1075);
        assert(power_of_two(0) == 1);
        assert(power_of_two(1) == 2);
    }
    if !all_zero(whole) {
        proof {
            let w = digits_value(whole@);
            let big = power_of_two(1075);
            assert((w * p + value) * big > p) by (nonlinear_arith)
                requires
                    w >= 1,
                    p > 0,
                    value >= 0,
                    big >= 2,
            ;
        }
        return false;
    }
    assert(0 * p == 0) by (nonlinear_arith);
    assert(digits_value(whole@ + frac@) == value);
    let mut rest = copy_range(frac, 0, frac.len());
    assert(rest@ =~= frac@);
    let mut i: u64 = 0;
    assert(value * 1 == value);
    while i < 1075
        invariant
            i <= 1075,
            all_digits(rest@),
            rest@.len() == k,
            p == pow(10, k),
            p > 0,
            k == frac@.len(),
            value == digits_value(whole@ + frac@),
            digits_value(rest@) == value * power_of_two(i as nat),
        decreases 1075 - i,
    {
        let (next, more) = double(&rest);
        proof {
            let q = power_of_two(i as nat);
            assert(2 * (value * q) == value * (2 * q)) by (nonlinear_arith);
            assert(2 * q == power_of_two((i + 1) as nat));
        }
        i += 1;
        if more {
            if i == 1075 {
                return all_zero(&next);
            }
            proof {
                let q = power_of_two(i as nat);
                let left = power_of_two((1075 - i) as nat);
                lemma_power_sum(i as nat, (1075 - i) as nat);
                lemma_power_monotone(1, (1075 - i) as nat);
                assert(power_of_two(1) == 2 * power_of_two(0));
                assert(value * (q * left) == (value * q) * left) by (nonlinear_arith);
                assert((value * q) * left > p) by (nonlinear_arith)
                    requires
                        value * q >= p,
                        left >= 2,
                        p > 0,
                ;
            }
            return false;
        }
        rest = next;
    }
    proof {
        lemma_digits_bound(rest@);
    }
    true
}

/// Half of a number, rounded down, digit by digit.
fn halve(s: &Vec<char>) -> (out: Vec<char>)
    requires
        all_digits(s@),
    ensures
        all_digits(out@),
        digits_value(out@) == digits_value(s@) / 2,
{
    let mut out: Vec<char> = Vec::new();
    let mut carry: u8 = 0;
    let mut i: usize = 0;
    assert(s@.take(0) =~= Seq::empty());
    while i < s.len()
        invariant
            i <= s@.len(),
            all_digits(s@),
            all_digits(out@),
            carry <= 1,
            digits_value(s@.take(i as int)) == 2 * digits_value(out@) + carry,
        decreases s.len() - i,
    {
        proof {
            lemma_digit_range(s@, i as int);
        }
        assert(s@.take(i + 1).drop_last() =~= s@.take(i as int));
        let d: u8 = (s[i] as u32 - '0' as u32) as u8;
        let current: u8 = 10 * carry + d;
        let ghost before = out@;
        out.push(digit_char_exec(current / 2));
        assert(out@.drop_last() =~= before);
        assert(ascii_digit(digit_char(current as nat / 2)));
        assert(digit_char(current as nat / 2) as nat - '0' as nat == current as nat / 2);
        carry = current % 2;
        i += 1;
    }
    assert(s@.take(s@.len() as int) =~= s@);
    out
}

/// The number that digits stand for, or `None` beyond `limit`.
fn bounded_value(s: &Vec<char>, limit: u64) -> (out: Option<u64>)
    requires
        all_digits(s@),
    ensures
        match out {
            Some(n) => n == digits_value(s@) && n <= limit,
            None => digits_value(s@) > limit,
        },
{
    let mut value: u128 = 0;
    let mut i: usize = 0;
    assert(s@.take(0) =~= Seq::empty());
    while i < s.len()
        invariant
            i <= s@.len(),
            all_digits(s@),
            value == digits_value(s@.take(i as int)),
            value <= limit,
        decreases s.len() - i,
    {
        proof {
            lemma_digit_range(s@, i as int);
        }
        assert(s@.take(i + 1).drop_last() =~= s@.take(i as int));
        let d: u128 = (s[i] as u32 - '0' as u32) as u128;
        value = value * 10 + d;
        if value > limit as u128 {
            proof {
                lemma_digits_value_prefix(s@, i + 1);
            }
            return None;
        }
        i += 1;
    }
    assert(s@.take(s@.len() as int) =~= s@);
    Some(value as u64)
}

/// Whether a number with these digits before its point is too large for
/// double precision.
fn is_infinite(whole: &Vec<char>) -> (yes: bool)
    requires
        all_digits(whole@),
    ensures
        yes == (digits_value(whole@) >= INFINITE_SIGNIFICAND * power_of_two(970)),
{
    let ghost value = digits_value(whole@);
    let mut rest = copy_range(whole, 0, whole.len());
    assert(rest@ =~= whole@);
    let mut i: u64 = 0;
    assert(value / 1 == value);
    while i < 970
        invariant
            i <= 970,
            all_digits(rest@),
            digits_value(rest@) == value / power_of_two(i as nat),
        decreases 970 - i,
    {
        let ghost before = digits_value(rest@);
        rest = halve(&rest);
        proof {
            let p = power_of_two(i as nat);
            lemma_power_positive(i as nat);
            lemma_div_denominator(value as int, p as int, 2);
            assert(p * 2 == power_of_two((i + 1) as nat));
        }
        i += 1;
    }
    proof {
        let p = power_of_two(970);
        lemma_power_positive(970);
        let q = value / p;
        assert(value >= INFINITE_SIGNIFICAND * p <==> q >= INFINITE_SIGNIFICAND) by (nonlinear_arith)
            requires
                q == value / p,
                p > 0,
        ;
    }
    bounded_value(&rest, INFINITE_SIGNIFICAND - 1).is_none()
}

impl Number {
    /// This number times `factor`, rounded down; `None` when that exceeds the
    /// 64-bit range.
    pub fn scale(&self, factor: u64) -> (out: Option<u64>)
        requires
            self.value().valid(),
            0 < factor <= 0x4_0000_0000_0000,
        ensures
            match out {
                Some(n) => n == self.value().scaled(factor as nat),
                None => self.value().scaled(factor as nat) > u64::MAX,
            },
    {
        let ghost whole_value = digits_value(self.whole@);
        let w: u128 = match bounded_value(&self.whole, u64::MAX) {
            Some(w) => w as u128,
            None => {
                proof {
                    lemma_scaled(self.value(), factor as nat);
                    assert(whole_value * factor >= whole_value) by (nonlinear_arith)
                        requires
                            factor > 0,
                    ;
                }
                return None;
            },
        };
        let mut carry: u64 = 0;
        let mut j: usize = self.frac.len();
        assert(self.frac@.skip(self.frac@.len() as int) =~= Seq::empty());
        while j > 0
            invariant
                j <= self.frac@.len(),
                self.value().valid(),
                0 < factor <= 0x4_0000_0000_0000,
                carry == carried(self.frac@.skip(j as int), factor as nat),
                carry < factor,
            decreases j,
        {
            j -= 1;
            proof {
                lemma_digit_range(self.frac@, j as int);
                assert(self.frac@.skip(j as int).skip(1) =~= self.frac@.skip(j + 1));
            }
            let d: u64 = (self.frac[j] as u32 - '0' as u32) as u64;
            assert(d * factor <= 9 * factor) by (nonlinear_arith)
                requires
                    d <= 9,
                    factor > 0,
            ;
            carry = (d * factor + carry) / 10;
        }
        assert(self.frac@.skip(0) =~= self.frac@);
        assert(w * factor <= 0xffff_ffff_ffff_ffff * 0x4_0000_0000_0000) by (nonlinear_arith)
            requires
                w <= 0xffff_ffff_ffff_ffff,
                factor <= 0x4_0000_0000_0000,
        ;
        let total: u128 = w * factor as u128 + carry as u128;
        proof {
            lemma_scaled(self.value(), factor as nat);
        }
        if total > u64::MAX as u128 {
            None
        } else {
            Some(total as u64)
        }
    }

    /// The digits after the point, times `2^shift` and rounded down, and
    /// whether that lost anything.
    fn shifted_fraction(&self, shift: u64) -> (out: (u128, bool))
        requires
            self.value().valid(),
            shift <= 84,
        ensures
            out.0 == carried(self.value().frac, power_of_two(shift as nat)),
            out.0 < power_of_two(shift as nat),
            out.1 == inexact(self.value().frac, power_of_two(shift as nat)),
    {
        let factor = two_to(shift);
        proof {
            lemma_shift_bound(shift as nat);
        }
        let mut carry: u128 = 0;
        let mut lost = false;
        let mut j: usize = self.frac.len();
        assert(self.frac@.skip(self.frac@.len() as int) =~= Seq::empty());
        while j > 0
            invariant
                j <= self.frac@.len(),
                self.value().valid(),
                0 < factor <= 0x10_0000_0000_0000_0000_0000,
                carry == carried(self.frac@.skip(j as int), factor as nat),
                lost == inexact(self.frac@.skip(j as int), factor as nat),
                carry < factor,
            decreases j,
        {
            j -= 1;
            proof {
                lemma_digit_range(self.frac@, j as int);
                assert(self.frac@.skip(j as int).skip(1) =~= self.frac@.skip(j + 1));
            }
            let d: u128 = (self.frac[j] as u32 - '0' as u32) as u128;
            assert(d * factor <= 9 * factor) by (nonlinear_arith)
                requires
                    d <= 9,
                    factor > 0,
            ;
            let sum: u128 = d * factor + carry;
            carry = sum / 10;
            lost = lost || sum % 10 != 0;
        }
        assert(self.frac@.skip(0) =~= self.frac@);
        (carry, lost)
    }

    /// This number times `factor` in double precision, rounded down; `None`
    /// from `2^54` on.
    pub fn multiply(&self, factor: u64) -> (out: Option<u64>)
        requires
            self.value().valid(),
            0 < factor <= 31_536_000,
        ensures
            match out {
                Some(n) => n == self.value().multiplied(factor as nat) && n < 0x40_0000_0000_0000,
                None => self.value().multiplied(factor as nat) >= 0x40_0000_0000_0000,
            },
    {
        let ghost number = self.value();
        let ghost p = pow(10, number.frac.len()) as nat;
        let ghost top = number.mantissa();
        proof {
            lemma_pow_positive(10, number.frac.len());
        }
        let w: u128 = match bounded_value(&self.whole, 0xff_ffff_ffff_ffff) {
            Some(w) => w as u128,
            None => {
                proof {
                    lemma_digits_value_concat(number.whole, number.frac);
                    assert(digits_value(number.whole) * p >= 0x100_0000_0000_0000 * p)
                        by (nonlinear_arith)
                        requires
                            digits_value(number.whole) >= 0x100_0000_0000_0000,
                    ;
                    lemma_product_large(top, p, factor as nat);
                }
                return None;
            },
        };
        let shift: u64 = if w > 0 {
            54
        } else {
            84
        };
        let (carry, lost) = self.shifted_fraction(shift);
        let scale = two_to(shift);
        let ghost s = power_of_two(shift as nat);
        proof {
            lemma_shift_bound(shift as nat);
            assert(w * scale <= 0x100_0000_0000_0000 * 0x40_0000_0000_0000) by (nonlinear_arith)
                requires
                    w == 0 || scale == 0x40_0000_0000_0000,
                    w <= 0x100_0000_0000_0000,
            ;
            assert(w > 0 ==> w * scale >= 0x40_0000_0000_0000) by (nonlinear_arith)
                requires
                    w > 0 ==> scale == 0x40_0000_0000_0000,
            ;
        }
        let half: u128 = w * scale + carry;
        let kept: u128 = 2 * half + if lost {
            1
        } else {
            0
        };
        proof {
            lemma_shifted(number, s, w as nat, carry as nat, lost);
            lemma_keeps_shifted(top, p, s, half as nat, lost);
            lemma_power_sum(1, shift as nat);
            reveal_with_fuel(power_of_two, 2);
            assert(power_of_two(1) == 2);
            assert(top * power_of_two((shift + 1) as nat) == top * (2 * s));
        }
        if kept < 0x80_0000_0000_0000 {
            proof {
                assert(w == 0);
                assert(top * s < (half + 1) * p);
                assert((half + 1) * p <= 0x40_0000_0000_0000 * p) by (nonlinear_arith)
                    requires
                        half + 1 <= 0x40_0000_0000_0000,
                ;
                assert(top * 0x4000_0000 < p) by (nonlinear_arith)
                    requires
                        top * s < 0x40_0000_0000_0000 * p,
                        s == 0x10_0000_0000_0000_0000_0000,
                ;
                lemma_product_small(top, p, factor as nat);
            }
            return Some(0);
        }
        proof {
            assert(top <= p * 0x200_0000_0000_0000) by (nonlinear_arith)
                requires
                    top * s < (half + 1) * p,
                    half + 1 <= 0x100_0000_0000_0000 * s + s,
                    s > 0,
            ;
        }
        let out = multiply_kept(kept, shift + 1, factor, Ghost(top), Ghost(p));
        if out < 0x40_0000_0000_0000 {
            Some(out as u64)
        } else {
            None
        }
    }
}

proof fn lemma_shift_bound(shift: nat)
    ensures
        shift <= 84 ==> power_of_two(shift) <= 0x10_0000_0000_0000_0000_0000,
        power_of_two(54) == 0x40_0000_0000_0000,
        power_of_two(84) == 0x10_0000_0000_0000_0000_0000,
{
    lemma_powers();
    if shift <= 84 {
        lemma_power_monotone(shift, 84);
    }
}

/// A number times a power of two: its whole part, and whether that is all.
proof fn lemma_shifted(number: NumberText, s: nat, w: nat, carry: nat, lost: bool)
    requires
        number.valid(),
        w == digits_value(number.whole),
        carry == carried(number.frac, s),
        lost == inexact(number.frac, s),
    ensures
        (w * s + carry) * pow(10, number.frac.len()) <= number.mantissa() * s,
        number.mantissa() * s < (w * s + carry + 1) * pow(10, number.frac.len()),
        lost <==> number.mantissa() * s != (w * s + carry) * pow(10, number.frac.len()),
{
    lemma_digits_value_concat(number.whole, number.frac);
    lemma_inexact(number.frac, s);
    let p = pow(10, number.frac.len());
    let v = digits_value(number.frac) as int;
    assert(number.mantissa() * s == (w * s) * p + v * s) by (nonlinear_arith)
        requires
            number.mantissa() == w * p + v,
    ;
    assert((w * s + carry) * p == (w * s) * p + carry * p) by (nonlinear_arith);
    assert((w * s + carry + 1) * p == (w * s) * p + (carry + 1) * p) by (nonlinear_arith);
}

proof fn lemma_keeps_shifted(top: nat, p: nat, s: nat, half: nat, lost: bool)
    requires
        p > 0,
        half * p <= top * s,
        top * s < (half + 1) * p,
        lost <==> top * s != half * p,
    ensures
        keeps(
            2 * half + (if lost {
                1nat
            } else {
                0nat
            }),
            top * (2 * s),
            p,
        ),
{
    let t = top * (2 * s);
    assert(t == 2 * (top * s)) by (nonlinear_arith)
        requires
            t == top * (2 * s),
    ;
    assert(half * (2 * p) == 2 * (half * p)) by (nonlinear_arith);
    assert((half + 1) * p == half * p + p) by (nonlinear_arith);
    vstd::arithmetic::div_mod::lemma_fundamental_div_mod_converse(
        t as int,
        (2 * p) as int,
        half as int,
        t - half * (2 * p),
    );
}

// ---------------------------------------------------------------------------
// Byte sizes
// ---------------------------------------------------------------------------
/// Position of the first ASCII letter, or the length.
pub open spec fn letter_position(s: Seq<char>) -> int
    decreases s.len(),
{
    if s.len() == 0 || ascii_letter(s[0]) {
        0
    } else {
        1 + letter_position(s.skip(1))
    }
}

/// Position of the first ASCII letter of `s`, or its length.
pub fn first_alphabetic(s: &Vec<char>) -> (at: usize)
    ensures
        at == letter_position(s@),
        at <= s@.len(),
{
    let mut i: usize = 0;
    assert(s@.skip(0) =~= s@);
    while i < s.len() && !is_ascii_letter(s[i])
        invariant
            i <= s@.len(),
            letter_position(s@) == i + letter_position(s@.skip(i as int)),
        decreases s.len() - i,
    {
        assert(s@.skip(i as int).skip(1) =~= s@.skip(i + 1));
        i += 1;
    }
    i
}

/// Bytes per unit: `K` is 1024 bytes, `M` 1024 times that, and so on.
pub open spec fn size_factor(unit: Seq<char>) -> Option<nat> {
    if unit == ""@ || unit == "b"@ {
        Some(1)
    } else if unit == "k"@ || unit == "kb"@ || unit == "kib"@ {
        Some(0x400)
    } else if unit == "m"@ || unit == "mb"@ || unit == "mib"@ {
        Some(0x10_0000)
    } else if unit == "g"@ || unit == "gb"@ || unit == "gib"@ {
        Some(0x4000_0000)
    } else if unit == "t"@ || unit == "tb"@ || unit == "tib"@ {
        Some(0x100_0000_0000)
    } else if unit == "p"@ || unit == "pb"@ || unit == "pib"@ {
        Some(0x4_0000_0000_0000)
    } else {
        None
    }
}

fn size_factor_of(unit: &str) -> (out: Option<u64>)
    ensures
        match out {
            Some(factor) => size_factor(unit@) == Some(factor as nat) && 0 < factor
                <= 0x4_0000_0000_0000,
            None => size_factor(unit@) is None,
        },
{
    if same_text(unit, "") || same_text(unit, "b") {
        Some(1)
    } else if same_text(unit, "k") || same_text(unit, "kb") || same_text(unit, "kib") {
        Some(0x400)
    } else if same_text(unit, "m") || same_text(unit, "mb") || same_text(unit, "mib") {
        Some(0x10_0000)
    } else if same_text(unit, "g") || same_text(unit, "gb") || same_text(unit, "gib") {
        Some(0x4000_0000)
    } else if same_text(unit, "t") || same_text(unit, "tb") || same_text(unit, "tib") {
        Some(0x100_0000_0000)
    } else if same_text(unit, "p") || same_text(unit, "pb") || same_text(unit, "pib") {
        Some(0x4_0000_0000_0000)
    } else {
        None
    }
}

/// The byte count that a size text stands for, or why it stands for none.
pub open spec fn size_value(input: Seq<char>) -> Result<nat, Seq<char>> {
    let body = trimmed(input);
    let at = letter_position(body);
    let unit = lowered(trimmed(body.skip(at)));
    if body.len() == 0 {
        Err("value is empty"@)
    } else {
        match parsed_number(body.take(at)) {
            Err(reason) => Err(reason),
            Ok(number) => match size_factor(unit) {
                None => Err(
                    "unknown unit "@ + quoted(unit)
                        + "; expected B, K, M, G, T or P (optionally KiB/MiB/GiB/TiB/PiB)"@,
                ),
                Some(factor) => if number.scaled(factor) > u64::MAX {
                    Err("value exceeds the 64-bit range"@)
                } else {
                    Ok(number.scaled(factor))
                },
            },
        }
    }
}

fn invalid_size(input: &str, reason: String) -> (out: ParseError)
    ensures
        out matches ParseError::InvalidByteSize { input: i, reason: r } && i@ == input@ && r@
            == reason@,
{
    ParseError::InvalidByteSize { input: input.to_owned(), reason }
}

/// Parses a human-readable byte size such as `512`, `100K` or `1.5G` into an
/// exact byte count, rounded down. Units are binary multiples.
pub fn parse_size(input: &str) -> (out: Result<u64, ParseError>)
    ensures
        match out {
            Ok(bytes) => size_value(input@) == Ok::<nat, Seq<char>>(bytes as nat),
            Err(ParseError::InvalidByteSize { input: i, reason }) => i@ == input@ && size_value(
                input@,
            ) == Err::<nat, Seq<char>>(reason@),
            Err(_) => false,
        },
{
    let body = trim(&chars_of(input));
    if body.len() == 0 {
        return Err(invalid_size(input, "value is empty".to_owned()));
    }
    let at = first_alphabetic(&body);
    let head = copy_range(&body, 0, at);
    assert(head@ =~= body@.take(at as int));
    let tail = copy_range(&body, at, body.len());
    assert(tail@ =~= body@.skip(at as int));
    let number = match parse_number(&head) {
        Ok(number) => number,
        Err(reason) => {
            return Err(invalid_size(input, reason));
        },
    };
    let unit_chars = trim(&tail);
    let unit_text = string_of(&unit_chars, 0, unit_chars.len());
    assert(unit_text@ =~= unit_chars@);
    let unit = to_lowered(unit_text.as_str());
    let factor = match size_factor_of(unit.as_str()) {
        Some(factor) => factor,
        None => {
            let mut reason = "unknown unit ".to_owned();
            reason.append(quote(unit.as_str()).as_str());
            reason.append("; expected B, K, M, G, T or P (optionally KiB/MiB/GiB/TiB/PiB)");
            return Err(invalid_size(input, reason));
        },
    };
    match number.scale(factor) {
        Some(bytes) => Ok(bytes),
        None => Err(invalid_size(input, "value exceeds the 64-bit range".to_owned())),
    }
}

// ---------------------------------------------------------------------------
// Durations
// ---------------------------------------------------------------------------
/// Seconds per unit; a month is 30 days and a year 365.
pub open spec fn duration_factor(unit: Seq<char>) -> Option<nat> {
    if unit == "s"@ || unit == "sec"@ || unit == "secs"@ || unit == "second"@ || unit
        == "seconds"@ {
        Some(1)
    } else if unit == "m"@ || unit == "min"@ || unit == "mins"@ || unit == "minute"@ || unit
        == "minutes"@ {
        Some(60)
    } else if unit == "h"@ || unit == "hr"@ || unit == "hrs"@ || unit == "hour"@ || unit
        == "hours"@ {
        Some(3_600)
    } else if unit == "d"@ || unit == "day"@ || unit == "days"@ {
        Some(86_400)
    } else if unit == "w"@ || unit == "week"@ || unit == "weeks"@ {
        Some(604_800)
    } else if unit == "mo"@ || unit == "month"@ || unit == "months"@ {
        Some(2_592_000)
    } else if unit == "y"@ || unit == "year"@ || unit == "years"@ {
        Some(31_536_000)
    } else {
        None
    }
}

fn duration_factor_of(unit: &str) -> (out: Option<u64>)
    ensures
        match out {
            Some(factor) => duration_factor(unit@) == Some(factor as nat) && 0 < factor
                <= 31_536_000,
            None => duration_factor(unit@) is None,
        },
{
    if same_text(unit, "s") || same_text(unit, "sec") || same_text(unit, "secs") || same_text(
        unit,
        "second",
    ) || same_text(unit, "seconds") {
        Some(1)
    } else if same_text(unit, "m") || same_text(unit, "min") || same_text(unit, "mins")
        || same_text(unit, "minute") || same_text(unit, "minutes") {
        Some(60)
    } else if same_text(unit, "h") || same_text(unit, "hr") || same_text(unit, "hrs") || same_text(
        unit,
        "hour",
    ) || same_text(unit, "hours") {
        Some(3_600)
    } else if same_text(unit, "d") || same_text(unit, "day") || same_text(unit, "days") {
        Some(86_400)
    } else if same_text(unit, "w") || same_text(unit, "week") || same_text(unit, "weeks") {
        Some(604_800)
    } else if same_text(unit, "mo") || same_text(unit, "month") || same_text(unit, "months") {
        Some(2_592_000)
    } else if same_text(unit, "y") || same_text(unit, "year") || same_text(unit, "years") {
        Some(31_536_000)
    } else {
        None
    }
}

/// The longest duration, in seconds, that 64-bit milliseconds can hold.
pub const MAX_DURATION_SECS: u64 = 9_223_372_036_854_775;

/// The seconds that a duration text stands for, or why it stands for none.
pub open spec fn duration_value(input: Seq<char>) -> Result<nat, Seq<char>> {
    let body = lowered(trimmed(input));
    let at = letter_position(body);
    let unit = body.skip(at);
    if body.len() == 0 {
        Err("value is empty"@)
    } else if at == body.len() {
        Err("missing unit; expected e.g. \"30d\", \"12h\" or \"45m\""@)
    } else {
        match parsed_number(body.take(at)) {
            Err(reason) => Err(reason),
            Ok(number) => match duration_factor(unit) {
                None => Err(
                    "unknown unit "@ + quoted(unit) + "; expected s, m, h, d, w, mo or y"@,
                ),
                Some(factor) => if number.multiplied(factor) > MAX_DURATION_SECS {
                    Err("duration must be non-negative and within the supported range"@)
                } else {
                    Ok(number.multiplied(factor))
                },
            },
        }
    }
}

fn invalid_duration(input: &str, reason: String) -> (out: ParseError)
    ensures
        out matches ParseError::InvalidDuration { input: i, reason: r } && i@ == input@ && r@
            == reason@,
{
    ParseError::InvalidDuration { input: input.to_owned(), reason }
}

/// Parses a duration such as `45s`, `12h`, `30d` or `2w`. The number is
/// multiplied in double precision and rounded down to whole seconds.
pub fn parse_duration(input: &str) -> (out: Result<Duration, ParseError>)
    ensures
        match out {
            Ok(duration) => duration_value(input@) == Ok::<nat, Seq<char>>(duration.seconds as nat)
                && duration.seconds >= 0,
            Err(ParseError::InvalidDuration { input: i, reason }) => i@ == input@
                && duration_value(input@) == Err::<nat, Seq<char>>(reason@),
            Err(_) => false,
        },
{
    let stripped = trim(&chars_of(input));
    if stripped.len() == 0 {
        assert(lowered(stripped@).len() == 0);
        return Err(invalid_duration(input, "value is empty".to_owned()));
    }
    let stripped_text = string_of(&stripped, 0, stripped.len());
    assert(stripped_text@ =~= stripped@);
    let body = chars_of(to_lowered(stripped_text.as_str()).as_str());
    let at = first_alphabetic(&body);
    if at == body.len() {
        return Err(
            invalid_duration(
                input,
                "missing unit; expected e.g. \"30d\", \"12h\" or \"45m\"".to_owned(),
            ),
        );
    }
    let head = copy_range(&body, 0, at);
    assert(head@ =~= body@.take(at as int));
    let unit = string_of(&body, at, body.len());
    assert(unit@ =~= body@.skip(at as int));
    let number = match parse_number(&head) {
        Ok(number) => number,
        Err(reason) => {
            return Err(invalid_duration(input, reason));
        },
    };
    let factor = match duration_factor_of(unit.as_str()) {
        Some(factor) => factor,
        None => {
            let mut reason = "unknown unit ".to_owned();
            reason.append(quote(unit.as_str()).as_str());
            reason.append("; expected s, m, h, d, w, mo or y");
            return Err(invalid_duration(input, reason));
        },
    };
    match number.multiply(factor) {
        Some(seconds) if seconds <= MAX_DURATION_SECS => Ok(Duration { seconds: seconds as i64 }),
        _ => Err(
            invalid_duration(
                input,
                "duration must be non-negative and within the supported range".to_owned(),
            ),
        ),
    }
}

// ---------------------------------------------------------------------------
// Whole numbers with units
// ---------------------------------------------------------------------------
/// Whether every character is an ASCII letter.
pub open spec fn all_letters(s: Seq<char>) -> bool {
    forall|i: int| 0 <= i < s.len() ==> ascii_letter(#[trigger] s[i])
}

proof fn lemma_digits(n: nat)
    ensures
        all_digits(digits(n)),
        digits(n).len() > 0,
        digits_value(digits(n)) == n,
    decreases n,
{
    if n < 10 {
        let s = digits(n);
        assert(s.drop_last() =~= Seq::<char>::empty());
        assert(digits_value(s.drop_last()) == 0);
        assert(s.last() == digit_char(n));
    } else {
        lemma_digits(n / 10);
        let s = digits(n);
        assert(s.drop_last() =~= digits(n / 10));
        assert(s.last() == digit_char(n % 10));
    }
}

proof fn lemma_letter_position(number: Seq<char>, unit: Seq<char>)
    requires
        all_digits(number),
        all_letters(unit),
    ensures
        letter_position(number + unit) == number.len(),
    decreases number.len(),
{
    let s = number + unit;
    if number.len() == 0 {
        if unit.len() > 0 {
            assert(ascii_letter(unit[0]));
        }
    } else {
        let rest = number.skip(1);
        assert(all_digits(rest)) by {
            assert forall|i: int| 0 <= i < rest.len() implies ascii_digit(#[trigger] rest[i]) by {
                assert(ascii_digit(number[i + 1]));
            }
        }
        assert(ascii_digit(number[0]));
        assert(s[0] == number[0]);
        assert(s.skip(1) =~= rest + unit);
        lemma_letter_position(rest, unit);
    }
}

proof fn lemma_no_dot(number: Seq<char>)
    requires
        all_digits(number),
    ensures
        dot_position(number) == number.len(),
    decreases number.len(),
{
    if number.len() > 0 {
        let rest = number.skip(1);
        assert(all_digits(rest)) by {
            assert forall|i: int| 0 <= i < rest.len() implies ascii_digit(#[trigger] rest[i]) by {
                assert(ascii_digit(number[i + 1]));
            }
        }
        assert(ascii_digit(number[0]));
        lemma_no_dot(rest);
    }
}

/// The number that the digits of `n` stand for.
proof fn lemma_parsed_digits(n: nat)
    requires
        n <= u64::MAX,
    ensures
        parsed_number(digits(n)) == Ok::<NumberText, Seq<char>>(
            NumberText { negative: false, whole: digits(n), frac: Seq::empty() },
        ),
{
    let s = digits(n);
    lemma_digits(n);
    assert(ascii_digit(s[0]));
    assert(ascii_digit(s[s.len() - 1]));
    assert(trimmed(s) == s);
    lemma_no_dot(s);
    let number = number_text(s);
    assert(number.whole =~= s);
    assert(number.frac =~= Seq::<char>::empty());
    lemma_power_monotone(54, 970);
    lemma_powers();
    let p = power_of_two(970);
    assert(INFINITE_SIGNIFICAND * p >= INFINITE_SIGNIFICAND * 0x40_0000_0000_0000)
        by (nonlinear_arith)
        requires
            p >= 0x40_0000_0000_0000,
    ;
}

/// A whole number with a unit, taken apart.
proof fn lemma_number_and_unit(n: nat, unit: Seq<char>)
    requires
        all_letters(unit),
    ensures
        trimmed(digits(n) + unit) == digits(n) + unit,
        letter_position(digits(n) + unit) == digits(n).len(),
        digits(n).len() > 0,
        trimmed(unit) == unit,
{
    let s = digits(n) + unit;
    lemma_digits(n);
    lemma_letter_position(digits(n), unit);
    assert(ascii_digit(digits(n)[0]));
    if unit.len() == 0 {
        assert(ascii_digit(digits(n)[digits(n).len() - 1]));
    } else {
        assert(ascii_letter(unit[0]));
        assert(ascii_letter(unit[unit.len() - 1]));
    }
    assert(s[0] == digits(n)[0]);
    assert(!white(s.last()));
}

/// A whole number of any size unit is parsed to exactly that many bytes.
pub proof fn law_whole_sizes(n: nat, unit: Seq<char>, factor: nat)
    requires
        all_letters(unit),
        size_factor(lowered(unit)) == Some(factor),
        n * factor <= u64::MAX,
    ensures
        size_value(digits(n) + unit) == Ok::<nat, Seq<char>>(n * factor),
{
    let s = digits(n) + unit;
    lemma_number_and_unit(n, unit);
    assert(s.take(digits(n).len() as int) =~= digits(n));
    assert(s.skip(digits(n).len() as int) =~= unit);
    assert(n <= n * factor) by (nonlinear_arith)
        requires
            factor >= 1,
    ;
    lemma_parsed_digits(n);
    lemma_digits(n);
    let number = NumberText { negative: false, whole: digits(n), frac: Seq::<char>::empty() };
    assert(number.whole + number.frac =~= digits(n));
    vstd::arithmetic::power::lemma_pow0(10);
    vstd::arithmetic::div_mod::lemma_div_basics((n * factor) as int);
}

/// A whole number of any duration unit is parsed to exactly that many
/// seconds, as long as those have at most 53 bits.
pub proof fn law_whole_durations(n: nat, unit: Seq<char>, factor: nat)
    requires
        all_letters(unit),
        duration_factor(lowered(unit)) == Some(factor),
        n * factor < 0x20_0000_0000_0000,
    ensures
        duration_value(digits(n) + unit) == Ok::<nat, Seq<char>>(n * factor),
{
    let s = digits(n) + unit;
    lemma_number_and_unit(n, unit);
    lemma_digits(n);
    let body = lowered(s);
    assert(body =~= digits(n) + lowered(unit)) by {
        assert forall|i: int| 0 <= i < digits(n).len() implies lower_char(digits(n)[i]) == digits(
            n,
        )[i] by {
            assert(ascii_digit(digits(n)[i]));
        }
    }
    assert(all_letters(lowered(unit))) by {
        assert forall|i: int| 0 <= i < unit.len() implies ascii_letter(
            #[trigger] lowered(unit)[i],
        ) by {
            assert(ascii_letter(unit[i]));
        }
    }
    lemma_letter_position(digits(n), lowered(unit));
    assert(body.take(digits(n).len() as int) =~= digits(n));
    assert(body.skip(digits(n).len() as int) =~= lowered(unit));
    assert(n <= n * factor) by (nonlinear_arith)
        requires
            factor >= 1,
    ;
    assert(unit.len() > 0) by {
        if unit.len() == 0 {
            lemma_no_bare_duration(lowered(unit));
        }
    }
    lemma_parsed_digits(n);
    let number = NumberText { negative: false, whole: digits(n), frac: Seq::<char>::empty() };
    assert(number.whole + number.frac =~= digits(n));
    vstd::arithmetic::power::lemma_pow0(10);
    lemma_product_exact(n, factor);
}

/// Letters that are lower-cased come from letters.
proof fn lemma_lowered_letters(unit: Seq<char>)
    requires
        all_letters(lowered(unit)),
    ensures
        all_letters(unit),
{
    assert forall|i: int| 0 <= i < unit.len() implies ascii_letter(#[trigger] unit[i]) by {
        assert(ascii_letter(lowered(unit)[i]));
    }
}

/// What a whole number of a size unit is parsed to.
proof fn lemma_whole_size(n: nat, unit: Seq<char>, factor: nat)
    requires
        n <= u64::MAX,
        factor >= 1,
        all_letters(lowered(unit)),
        size_factor(lowered(unit)) == Some(factor),
    ensures
        n * factor <= u64::MAX ==> size_value(digits(n) + unit) == Ok::<nat, Seq<char>>(n * factor),
        n * factor > u64::MAX ==> size_value(digits(n) + unit) is Err,
{
    lemma_lowered_letters(unit);
    if n * factor <= u64::MAX {
        law_whole_sizes(n, unit, factor);
    } else {
        let s = digits(n) + unit;
        lemma_number_and_unit(n, unit);
        assert(s.take(digits(n).len() as int) =~= digits(n));
        assert(s.skip(digits(n).len() as int) =~= unit);
        lemma_parsed_digits(n);
        lemma_digits(n);
        let number = NumberText { negative: false, whole: digits(n), frac: Seq::<char>::empty() };
        assert(number.whole + number.frac =~= digits(n));
        vstd::arithmetic::power::lemma_pow0(10);
        vstd::arithmetic::div_mod::lemma_div_basics((n * factor) as int);
    }
}

/// What the units of a size are worth, whatever their case: a plain number and
/// `b` count bytes, `k`, `kb` and `kib` 1024 bytes each, and every further
/// letter 1024 times as much. A count beyond 64 bits is refused.
pub proof fn law_size_units(n: nat, unit: Seq<char>)
    requires
        n <= u64::MAX,
    ensures
        ({
            ||| lowered(unit) == ""@
            ||| lowered(unit) == "b"@
        }) ==> if n * 1 <= u64::MAX {
            size_value(digits(n) + unit) == Ok::<nat, Seq<char>>(n * 1)
        } else {
            size_value(digits(n) + unit) is Err
        },
        ({
            ||| lowered(unit) == "k"@
            ||| lowered(unit) == "kb"@
            ||| lowered(unit) == "kib"@
        }) ==> if n * 1024 <= u64::MAX {
            size_value(digits(n) + unit) == Ok::<nat, Seq<char>>(n * 1024)
        } else {
            size_value(digits(n) + unit) is Err
        },
        ({
            ||| lowered(unit) == "m"@
            ||| lowered(unit) == "mb"@
            ||| lowered(unit) == "mib"@
        }) ==> if n * 1048576 <= u64::MAX {
            size_value(digits(n) + unit) == Ok::<nat, Seq<char>>(n * 1048576)
        } else {
            size_value(digits(n) + unit) is Err
        },
        ({
            ||| lowered(unit) == "g"@
            ||| lowered(unit) == "gb"@
            ||| lowered(unit) == "gib"@
        }) ==> if n * 1073741824 <= u64::MAX {
            size_value(digits(n) + unit) == Ok::<nat, Seq<char>>(n * 1073741824)
        } else {
            size_value(digits(n) + unit) is Err
        },
        ({
            ||| lowered(unit) == "t"@
            ||| lowered(unit) == "tb"@
            ||| lowered(unit) == "tib"@
        }) ==> if n * 1099511627776 <= u64::MAX {
            size_value(digits(n) + unit) == Ok::<nat, Seq<char>>(n * 1099511627776)
        } else {
            size_value(digits(n) + unit) is Err
        },
        ({
            ||| lowered(unit) == "p"@
            ||| lowered(unit) == "pb"@
            ||| lowered(unit) == "pib"@
        }) ==> if n * 1125899906842624 <= u64::MAX {
            size_value(digits(n) + unit) == Ok::<nat, Seq<char>>(n * 1125899906842624)
        } else {
            size_value(digits(n) + unit) is Err
        },
{
    lemma_size_words();
    let word = lowered(unit);
    if word == ""@ || word == "b"@ {
        lemma_whole_size(n, unit, 1);
    }
    if word == "k"@ || word == "kb"@ || word == "kib"@ {
        lemma_whole_size(n, unit, 1024);
    }
    if word == "m"@ || word == "mb"@ || word == "mib"@ {
        lemma_whole_size(n, unit, 1048576);
    }
    if word == "g"@ || word == "gb"@ || word == "gib"@ {
        lemma_whole_size(n, unit, 1073741824);
    }
    if word == "t"@ || word == "tb"@ || word == "tib"@ {
        lemma_whole_size(n, unit, 1099511627776);
    }
    if word == "p"@ || word == "pb"@ || word == "pib"@ {
        lemma_whole_size(n, unit, 1125899906842624);
    }
}

/// The words for size units are letters, and no two classes share one.
proof fn lemma_size_words()
    ensures
        all_letters(""@) && size_factor(""@) == Some(1nat),
        all_letters("b"@) && size_factor("b"@) == Some(1nat),
        all_letters("k"@) && size_factor("k"@) == Some(1024nat),
        all_letters("kb"@) && size_factor("kb"@) == Some(1024nat),
        all_letters("kib"@) && size_factor("kib"@) == Some(1024nat),
        all_letters("m"@) && size_factor("m"@) == Some(1048576nat),
        all_letters("mb"@) && size_factor("mb"@) == Some(1048576nat),
        all_letters("mib"@) && size_factor("mib"@) == Some(1048576nat),
        all_letters("g"@) && size_factor("g"@) == Some(1073741824nat),
        all_letters("gb"@) && size_factor("gb"@) == Some(1073741824nat),
        all_letters("gib"@) && size_factor("gib"@) == Some(1073741824nat),
        all_letters("t"@) && size_factor("t"@) == Some(1099511627776nat),
        all_letters("tb"@) && size_factor("tb"@) == Some(1099511627776nat),
        all_letters("tib"@) && size_factor("tib"@) == Some(1099511627776nat),
        all_letters("p"@) && size_factor("p"@) == Some(1125899906842624nat),
        all_letters("pb"@) && size_factor("pb"@) == Some(1125899906842624nat),
        all_letters("pib"@) && size_factor("pib"@) == Some(1125899906842624nat),
{
    reveal_strlit("");
    reveal_strlit("b");
    reveal_strlit("k");
    reveal_strlit("kb");
    reveal_strlit("kib");
    reveal_strlit("m");
    reveal_strlit("mb");
    reveal_strlit("mib");
    reveal_strlit("g");
    reveal_strlit("gb");
    reveal_strlit("gib");
    reveal_strlit("t");
    reveal_strlit("tb");
    reveal_strlit("tib");
    reveal_strlit("p");
    reveal_strlit("pb");
    reveal_strlit("pib");
    assert(""@.len() == 0);
    assert("b"@.len() == 1 && "b"@[0] == 'b');
    assert("k"@.len() == 1 && "k"@[0] == 'k');
    assert("kb"@.len() == 2 && "kb"@[0] == 'k' && "kb"@[1] == 'b');
    assert("kib"@.len() == 3 && "kib"@[0] == 'k' && "kib"@[1] == 'i' && "kib"@[2] == 'b');
    assert("m"@.len() == 1 && "m"@[0] == 'm');
    assert("mb"@.len() == 2 && "mb"@[0] == 'm' && "mb"@[1] == 'b');
    assert("mib"@.len() == 3 && "mib"@[0] == 'm' && "mib"@[1] == 'i' && "mib"@[2] == 'b');
    assert("g"@.len() == 1 && "g"@[0] == 'g');
    assert("gb"@.len() == 2 && "gb"@[0] == 'g' && "gb"@[1] == 'b');
    assert("gib"@.len() == 3 && "gib"@[0] == 'g' && "gib"@[1] == 'i' && "gib"@[2] == 'b');
    assert("t"@.len() == 1 && "t"@[0] == 't');
    assert("tb"@.len() == 2 && "tb"@[0] == 't' && "tb"@[1] == 'b');
    assert("tib"@.len() == 3 && "tib"@[0] == 't' && "tib"@[1] == 'i' && "tib"@[2] == 'b');
    assert("p"@.len() == 1 && "p"@[0] == 'p');
    assert("pb"@.len() == 2 && "pb"@[0] == 'p' && "pb"@[1] == 'b');
    assert("pib"@.len() == 3 && "pib"@[0] == 'p' && "pib"@[1] == 'i' && "pib"@[2] == 'b');
}

/// What a whole number of a duration unit is parsed to.
proof fn lemma_whole_duration(n: nat, unit: Seq<char>, factor: nat)
    requires
        factor >= 1,
        all_letters(lowered(unit)),
        duration_factor(lowered(unit)) == Some(factor),
        n * factor < 0x20_0000_0000_0000,
    ensures
        duration_value(digits(n) + unit) == Ok::<nat, Seq<char>>(n * factor),
{
    lemma_lowered_letters(unit);
    law_whole_durations(n, unit, factor);
}

/// What the units of a duration are worth in seconds, whatever their case. The
/// bound keeps the product within what double precision holds exactly.
pub proof fn law_duration_units(n: nat, unit: Seq<char>)
    ensures
        n * 1 < 0x20_0000_0000_0000 && ({
            ||| lowered(unit) == "s"@
            ||| lowered(unit) == "sec"@
            ||| lowered(unit) == "secs"@
            ||| lowered(unit) == "second"@
            ||| lowered(unit) == "seconds"@
        }) ==> duration_value(digits(n) + unit)
            == Ok::<nat, Seq<char>>(n * 1),
        n * 60 < 0x20_0000_0000_0000 && ({
            ||| lowered(unit) == "m"@
            ||| lowered(unit) == "min"@
            ||| lowered(unit) == "mins"@
            ||| lowered(unit) == "minute"@
            ||| lowered(unit) == "minutes"@
        }) ==> duration_value(digits(n) + unit)
            == Ok::<nat, Seq<char>>(n * 60),
        n * 3600 < 0x20_0000_0000_0000 && ({
            ||| lowered(unit) == "h"@
            ||| lowered(unit) == "hr"@
            ||| lowered(unit) == "hrs"@
            ||| lowered(unit) == "hour"@
            ||| lowered(unit) == "hours"@
        }) ==> duration_value(digits(n) + unit)
            == Ok::<nat, Seq<char>>(n * 3600),
        n * 86400 < 0x20_0000_0000_0000 && ({
            ||| lowered(unit) == "d"@
            ||| lowered(unit) == "day"@
            ||| lowered(unit) == "days"@
        }) ==> duration_value(digits(n) + unit)
            == Ok::<nat, Seq<char>>(n * 86400),
        n * 604800 < 0x20_0000_0000_0000 && ({
            ||| lowered(unit) == "w"@
            ||| lowered(unit) == "week"@
            ||| lowered(unit) == "weeks"@
        }) ==> duration_value(digits(n) + unit)
            == Ok::<nat, Seq<char>>(n * 604800),
        n * 2592000 < 0x20_0000_0000_0000 && ({
            ||| lowered(unit) == "mo"@
            ||| lowered(unit) == "month"@
            ||| lowered(unit) == "months"@
        }) ==> duration_value(digits(n) + unit)
            == Ok::<nat, Seq<char>>(n * 2592000),
        n * 31536000 < 0x20_0000_0000_0000 && ({
            ||| lowered(unit) == "y"@
            ||| lowered(unit) == "year"@
            ||| lowered(unit) == "years"@
        }) ==> duration_value(digits(n) + unit)
            == Ok::<nat, Seq<char>>(n * 31536000),
{
    lemma_duration_words();
    let word = lowered(unit);
    if n * 1 < 0x20_0000_0000_0000 && (word == "s"@ || word == "sec"@ || word == "secs"@ || word == "second"@ || word == "seconds"@) {
        lemma_whole_duration(n, unit, 1);
    }
    if n * 60 < 0x20_0000_0000_0000 && (word == "m"@ || word == "min"@ || word == "mins"@ || word == "minute"@ || word == "minutes"@) {
        lemma_whole_duration(n, unit, 60);
    }
    if n * 3600 < 0x20_0000_0000_0000 && (word == "h"@ || word == "hr"@ || word == "hrs"@ || word == "hour"@ || word == "hours"@) {
        lemma_whole_duration(n, unit, 3600);
    }
    if n * 86400 < 0x20_0000_0000_0000 && (word == "d"@ || word == "day"@ || word == "days"@) {
        lemma_whole_duration(n, unit, 86400);
    }
    if n * 604800 < 0x20_0000_0000_0000 && (word == "w"@ || word == "week"@ || word == "weeks"@) {
        lemma_whole_duration(n, unit, 604800);
    }
    if n * 2592000 < 0x20_0000_0000_0000 && (word == "mo"@ || word == "month"@ || word == "months"@) {
        lemma_whole_duration(n, unit, 2592000);
    }
    if n * 31536000 < 0x20_0000_0000_0000 && (word == "y"@ || word == "year"@ || word == "years"@) {
        lemma_whole_duration(n, unit, 31536000);
    }
}

/// The words for duration units are letters, and no two classes share one.
proof fn lemma_duration_words()
    ensures
        all_letters("s"@) && duration_factor("s"@) == Some(1nat),
        all_letters("sec"@) && duration_factor("sec"@) == Some(1nat),
        all_letters("secs"@) && duration_factor("secs"@) == Some(1nat),
        all_letters("second"@) && duration_factor("second"@) == Some(1nat),
        all_letters("seconds"@) && duration_factor("seconds"@) == Some(1nat),
        all_letters("m"@) && duration_factor("m"@) == Some(60nat),
        all_letters("min"@) && duration_factor("min"@) == Some(60nat),
        all_letters("mins"@) && duration_factor("mins"@) == Some(60nat),
        all_letters("minute"@) && duration_factor("minute"@) == Some(60nat),
        all_letters("minutes"@) && duration_factor("minutes"@) == Some(60nat),
        all_letters("h"@) && duration_factor("h"@) == Some(3600nat),
        all_letters("hr"@) && duration_factor("hr"@) == Some(3600nat),
        all_letters("hrs"@) && duration_factor("hrs"@) == Some(3600nat),
        all_letters("hour"@) && duration_factor("hour"@) == Some(3600nat),
        all_letters("hours"@) && duration_factor("hours"@) == Some(3600nat),
        all_letters("d"@) && duration_factor("d"@) == Some(86400nat),
        all_letters("day"@) && duration_factor("day"@) == Some(86400nat),
        all_letters("days"@) && duration_factor("days"@) == Some(86400nat),
        all_letters("w"@) && duration_factor("w"@) == Some(604800nat),
        all_letters("week"@) && duration_factor("week"@) == Some(604800nat),
        all_letters("weeks"@) && duration_factor("weeks"@) == Some(604800nat),
        all_letters("mo"@) && duration_factor("mo"@) == Some(2592000nat),
        all_letters("month"@) && duration_factor("month"@) == Some(2592000nat),
        all_letters("months"@) && duration_factor("months"@) == Some(2592000nat),
        all_letters("y"@) && duration_factor("y"@) == Some(31536000nat),
        all_letters("year"@) && duration_factor("year"@) == Some(31536000nat),
        all_letters("years"@) && duration_factor("years"@) == Some(31536000nat),
{
    reveal_strlit("s");
    reveal_strlit("sec");
    reveal_strlit("secs");
    reveal_strlit("second");
    reveal_strlit("seconds");
    reveal_strlit("m");
    reveal_strlit("min");
    reveal_strlit("mins");
    reveal_strlit("minute");
    reveal_strlit("minutes");
    reveal_strlit("h");
    reveal_strlit("hr");
    reveal_strlit("hrs");
    reveal_strlit("hour");
    reveal_strlit("hours");
    reveal_strlit("d");
    reveal_strlit("day");
    reveal_strlit("days");
    reveal_strlit("w");
    reveal_strlit("week");
    reveal_strlit("weeks");
    reveal_strlit("mo");
    reveal_strlit("month");
    reveal_strlit("months");
    reveal_strlit("y");
    reveal_strlit("year");
    reveal_strlit("years");
    assert("s"@.len() == 1 && "s"@[0] == 's');
    assert("sec"@.len() == 3 && "sec"@[0] == 's' && "sec"@[1] == 'e' && "sec"@[2] == 'c');
    assert("secs"@.len() == 4 && "secs"@[0] == 's' && "secs"@[1] == 'e' && "secs"@[2] == 'c' && "secs"@[3] == 's');
    assert("second"@.len() == 6 && "second"@[0] == 's' && "second"@[1] == 'e' && "second"@[2] == 'c' && "second"@[3] == 'o' && "second"@[4] == 'n' && "second"@[5] == 'd');
    assert("seconds"@.len() == 7 && "seconds"@[0] == 's' && "seconds"@[1] == 'e' && "seconds"@[2] == 'c' && "seconds"@[3] == 'o' && "seconds"@[4] == 'n' && "seconds"@[5] == 'd' && "seconds"@[6] == 's');
    assert("m"@.len() == 1 && "m"@[0] == 'm');
    assert("min"@.len() == 3 && "min"@[0] == 'm' && "min"@[1] == 'i' && "min"@[2] == 'n');
    assert("mins"@.len() == 4 && "mins"@[0] == 'm' && "mins"@[1] == 'i' && "mins"@[2] == 'n' && "mins"@[3] == 's');
    assert("minute"@.len() == 6 && "minute"@[0] == 'm' && "minute"@[1] == 'i' && "minute"@[2] == 'n' && "minute"@[3] == 'u' && "minute"@[4] == 't' && "minute"@[5] == 'e');
    assert("minutes"@.len() == 7 && "minutes"@[0] == 'm' && "minutes"@[1] == 'i' && "minutes"@[2] == 'n' && "minutes"@[3] == 'u' && "minutes"@[4] == 't' && "minutes"@[5] == 'e' && "minutes"@[6] == 's');
    assert("h"@.len() == 1 && "h"@[0] == 'h');
    assert("hr"@.len() == 2 && "hr"@[0] == 'h' && "hr"@[1] == 'r');
    assert("hrs"@.len() == 3 && "hrs"@[0] == 'h' && "hrs"@[1] == 'r' && "hrs"@[2] == 's');
    assert("hour"@.len() == 4 && "hour"@[0] == 'h' && "hour"@[1] == 'o' && "hour"@[2] == 'u' && "hour"@[3] == 'r');
    assert("hours"@.len() == 5 && "hours"@[0] == 'h' && "hours"@[1] == 'o' && "hours"@[2] == 'u' && "hours"@[3] == 'r' && "hours"@[4] == 's');
    assert("d"@.len() == 1 && "d"@[0] == 'd');
    assert("day"@.len() == 3 && "day"@[0] == 'd' && "day"@[1] == 'a' && "day"@[2] == 'y');
    assert("days"@.len() == 4 && "days"@[0] == 'd' && "days"@[1] == 'a' && "days"@[2] == 'y' && "days"@[3] == 's');
    assert("w"@.len() == 1 && "w"@[0] == 'w');
    assert("week"@.len() == 4 && "week"@[0] == 'w' && "week"@[1] == 'e' && "week"@[2] == 'e' && "week"@[3] == 'k');
    assert("weeks"@.len() == 5 && "weeks"@[0] == 'w' && "weeks"@[1] == 'e' && "weeks"@[2] == 'e' && "weeks"@[3] == 'k' && "weeks"@[4] == 's');
    assert("mo"@.len() == 2 && "mo"@[0] == 'm' && "mo"@[1] == 'o');
    assert("month"@.len() == 5 && "month"@[0] == 'm' && "month"@[1] == 'o' && "month"@[2] == 'n' && "month"@[3] == 't' && "month"@[4] == 'h');
    assert("months"@.len() == 6 && "months"@[0] == 'm' && "months"@[1] == 'o' && "months"@[2] == 'n' && "months"@[3] == 't' && "months"@[4] == 'h' && "months"@[5] == 's');
    assert("y"@.len() == 1 && "y"@[0] == 'y');
    assert("year"@.len() == 4 && "year"@[0] == 'y' && "year"@[1] == 'e' && "year"@[2] == 'a' && "year"@[3] == 'r');
    assert("years"@.len() == 5 && "years"@[0] == 'y' && "years"@[1] == 'e' && "years"@[2] == 'a' && "years"@[3] == 'r' && "years"@[4] == 's');
}

proof fn lemma_letter_free(number: Seq<char>, unit: Seq<char>)
    requires
        forall|i: int| 0 <= i < number.len() ==> !ascii_letter(#[trigger] number[i]),
        all_letters(unit),
    ensures
        letter_position(number + unit) == number.len(),
    decreases number.len(),
{
    let s = number + unit;
    if number.len() == 0 {
        if unit.len() > 0 {
            assert(ascii_letter(unit[0]));
        }
    } else {
        let rest = number.skip(1);
        assert forall|i: int| 0 <= i < rest.len() implies !ascii_letter(#[trigger] rest[i]) by {
            assert(!ascii_letter(number[i + 1]));
        }
        assert(!ascii_letter(number[0]));
        assert(s[0] == number[0]);
        assert(s.skip(1) =~= rest + unit);
        lemma_letter_free(rest, unit);
    }
}

proof fn lemma_first_dot(number: Seq<char>, tail: Seq<char>)
    requires
        all_digits(number),
        tail.len() > 0,
        tail[0] == '.',
    ensures
        dot_position(number + tail) == number.len(),
    decreases number.len(),
{
    let s = number + tail;
    if number.len() > 0 {
        let rest = number.skip(1);
        assert forall|i: int| 0 <= i < rest.len() implies ascii_digit(#[trigger] rest[i]) by {
            assert(ascii_digit(number[i + 1]));
        }
        assert(ascii_digit(number[0]));
        assert(s[0] == number[0]);
        assert(s.skip(1) =~= rest + tail);
        lemma_first_dot(rest, tail);
    }
}

/// A number behind which no white space stands, with a unit: taken apart.
proof fn lemma_head_and_unit(number: Seq<char>, unit: Seq<char>)
    requires
        number.len() > 0,
        !white(number[0]),
        !white(number.last()),
        forall|i: int| 0 <= i < number.len() ==> !ascii_letter(#[trigger] number[i]),
        all_letters(unit),
    ensures
        trimmed(number + unit) == number + unit,
        letter_position(number + unit) == number.len(),
        (number + unit).take(number.len() as int) == number,
        (number + unit).skip(number.len() as int) == unit,
        trimmed(unit) == unit,
        trimmed(number) == number,
{
    let s = number + unit;
    lemma_letter_free(number, unit);
    assert(s[0] == number[0]);
    if unit.len() > 0 {
        assert(ascii_letter(unit[0]));
        assert(ascii_letter(unit[unit.len() - 1]));
        assert(s.last() == unit.last());
    } else {
        assert(s.last() == number.last());
    }
    assert(s.take(number.len() as int) =~= number);
    assert(s.skip(number.len() as int) =~= unit);
}

/// A number with one decimal is worth its tenths: what `1` of a unit stands
/// for tells what `1.5` of it does.
pub proof fn law_size_tenths(w: nat, d: nat, unit: Seq<char>, one: nat)
    requires
        w <= u64::MAX,
        d < 10,
        all_letters(unit),
        size_value(digits(1) + unit) == Ok::<nat, Seq<char>>(one),
        ((10 * w + d) * one) / 10 <= u64::MAX,
    ensures
        size_value(digits(w) + seq!['.', digit_char(d)] + unit) == Ok::<nat, Seq<char>>(
            ((10 * w + d) * one) / 10,
        ),
{
    let head = digits(w);
    let tail = seq!['.', digit_char(d)];
    let s = head + tail;
    lemma_digits(w);
    lemma_digits(1);
    lemma_number_and_unit(1, unit);
    lemma_parsed_digits(1);
    let first = digits(1) + unit;
    assert(first.take(digits(1).len() as int) =~= digits(1));
    assert(first.skip(digits(1).len() as int) =~= unit);
    let unity = NumberText { negative: false, whole: digits(1), frac: Seq::<char>::empty() };
    assert(unity.whole + unity.frac =~= digits(1));
    vstd::arithmetic::power::lemma_pow0(10);
    vstd::arithmetic::power::lemma_pow1(10);
    let factor = size_factor(lowered(unit))->0;
    vstd::arithmetic::div_mod::lemma_div_basics(factor as int);
    let base = unity.mantissa();
    assert(base == 1);
    assert(base * factor == factor) by (nonlinear_arith)
        requires
            base == 1,
    ;
    assert(one == factor);
    assert forall|i: int| 0 <= i < s.len() implies !ascii_letter(#[trigger] s[i]) by {
        if i < head.len() {
            assert(ascii_digit(head[i]));
        }
    }
    assert(ascii_digit(head[0]));
    assert(s[0] == head[0]);
    assert(s.last() == digit_char(d));
    lemma_head_and_unit(s, unit);
    lemma_first_dot(head, tail);
    let number = number_text(s);
    assert(number.whole =~= head);
    assert(number.frac =~= seq![digit_char(d)]);
    assert((head + number.frac).drop_last() =~= head);
    assert(number.mantissa() == 10 * w + d);
    lemma_finite(w);
    assert(all_digits(number.frac));
    assert(pow(10, number.frac.len()) == 10);
    assert((head + tail) + unit =~= s + unit);
}

/// A number of at most 64 bits is finite in double precision.
proof fn lemma_finite(n: nat)
    requires
        n <= u64::MAX,
    ensures
        n < INFINITE_SIGNIFICAND * power_of_two(970),
{
    lemma_power_monotone(54, 970);
    lemma_powers();
    let p = power_of_two(970);
    assert(INFINITE_SIGNIFICAND * p >= INFINITE_SIGNIFICAND * 0x40_0000_0000_0000)
        by (nonlinear_arith)
        requires
            p >= 0x40_0000_0000_0000,
    ;
}

/// Negative sizes and durations are refused, whatever their unit.
#[verifier::spinoff_prover]
#[verifier::rlimit(40)]
pub proof fn law_negative_refused(n: nat, unit: Seq<char>)
    requires
        0 < n <= u64::MAX,
        all_letters(unit),
    ensures
        size_value(seq!['-'] + digits(n) + unit) is Err,
        duration_value(seq!['-'] + digits(n) + unit) is Err,
{
    let s = seq!['-'] + digits(n);
    let low = lowered(unit);
    lemma_digits(n);
    assert forall|i: int| 0 <= i < s.len() implies !ascii_letter(#[trigger] s[i])
        && lower_char(s[i]) == s[i] by {
        if i > 0 {
            assert(ascii_digit(digits(n)[i - 1]));
            assert(s[i] == digits(n)[i - 1]);
        }
    }
    assert(ascii_digit(digits(n)[digits(n).len() - 1]));
    assert(s.last() == digits(n)[digits(n).len() - 1]);
    lemma_head_and_unit(s, unit);
    assert(lowered(s + unit) =~= s + low);
    assert forall|i: int| 0 <= i < low.len() implies ascii_letter(#[trigger] low[i]) by {
        assert(ascii_letter(unit[i]));
    }
    lemma_head_and_unit(s, low);
    assert(s.skip(1) =~= digits(n));
    lemma_no_dot(digits(n));
    let number = number_text(s);
    assert(number.whole =~= digits(n));
    assert(number.frac =~= Seq::<char>::empty());
    assert(number.whole + number.frac =~= digits(n));
    vstd::arithmetic::power::lemma_pow0(10);
    lemma_power_monotone(1, 1075);
    assert(power_of_two(1) == 2) by {
        assert(power_of_two(0) == 1);
    }
    let p = power_of_two(1075);
    assert(n * p >= 2) by (nonlinear_arith)
        requires
            n >= 1,
            p >= 2,
    ;
}

/// A duration needs a unit: a bare number is refused.
pub proof fn law_duration_needs_unit(n: nat)
    ensures
        duration_value(digits(n)) is Err,
{
    let s = digits(n);
    let none = Seq::<char>::empty();
    lemma_number_and_unit(n, none);
    lemma_digits(n);
    assert(s + none =~= s);
    assert forall|i: int| 0 <= i < s.len() implies lower_char(s[i]) == s[i] by {
        assert(ascii_digit(s[i]));
    }
    assert(lowered(s) =~= s);
}

proof fn lemma_no_bare_duration(unit: Seq<char>)
    requires
        unit.len() == 0,
    ensures
        duration_factor(unit) is None,
{
    reveal_strlit("s");
    reveal_strlit("sec");
    reveal_strlit("secs");
    reveal_strlit("second");
    reveal_strlit("seconds");
    reveal_strlit("m");
    reveal_strlit("min");
    reveal_strlit("mins");
    reveal_strlit("minute");
    reveal_strlit("minutes");
    reveal_strlit("h");
    reveal_strlit("hr");
    reveal_strlit("hrs");
    reveal_strlit("hour");
    reveal_strlit("hours");
    reveal_strlit("d");
    reveal_strlit("day");
    reveal_strlit("days");
    reveal_strlit("w");
    reveal_strlit("week");
    reveal_strlit("weeks");
    reveal_strlit("mo");
    reveal_strlit("month");
    reveal_strlit("months");
    reveal_strlit("y");
    reveal_strlit("year");
    reveal_strlit("years");
}

// ---------------------------------------------------------------------------
// Rendering
// ---------------------------------------------------------------------------
/// The power of 1024 that a byte count is shown in, and the number of its
/// unit: the largest that the count reaches.
pub open spec fn binary_scale(n: nat, den: nat, unit: nat) -> (nat, nat)
    decreases 6 - unit,
{
    if unit < 6 && n >= 1024 * den {
        binary_scale(n, 1024 * den, unit + 1)
    } else {
        (den, unit)
    }
}

/// The binary unit of that number.
pub open spec fn binary_unit(unit: nat) -> Seq<char> {
    if unit == 0 {
        "B"@
    } else if unit == 1 {
        "KiB"@
    } else if unit == 2 {
        "MiB"@
    } else if unit == 3 {
        "GiB"@
    } else if unit == 4 {
        "TiB"@
    } else if unit == 5 {
        "PiB"@
    } else {
        "EiB"@
    }
}

/// A byte count in the largest binary unit that it reaches: a whole number
/// without decimals, any other with two. The count is taken as a binary64
/// number, and one that exceeds a whole number by no more than 2^-52 is whole.
pub open spec fn binary_size_text(bytes: u64) -> Seq<char> {
    let n = rounded_integer(bytes as nat);
    let (den, unit) = binary_scale(n, 1, 0);
    let number = if (n % den) * LOW <= den {
        digits(n / den)
    } else {
        two_decimals(half_even(100 * n, den))
    };
    number + " "@ + binary_unit(unit)
}

/// `humansize::format_size` with its `BINARY` options. Claims that it
/// converts the count to binary64, divides it by 1024 as long as it is at
/// least that, and prints the quotient, a space and the unit: without
/// decimals where the fractional part is at most 2^-52, with two decimals,
/// rounded half to even, otherwise.
#[verifier::external_body]
fn binary_size(bytes: u64) -> (out: String)
    ensures
        out@ == binary_size_text(bytes),
{
    humansize::format_size(bytes, humansize::BINARY)
}

/// Renders a byte count in human-readable binary units (e.g. `1.50 MiB`).
pub fn format_bytes(bytes: u64) -> (out: String)
    ensures
        out@ == binary_size_text(bytes),
{
    binary_size(bytes)
}

/// `count` behind which `unit` stands, where the count is not zero.
pub open spec fn duration_part(count: nat, unit: char) -> Seq<Seq<char>> {
    if count > 0 {
        seq![digits(count).push(unit)]
    } else {
        Seq::empty()
    }
}

/// The non-zero parts of a duration: days, hours, minutes, seconds.
pub open spec fn duration_parts(total: nat) -> Seq<Seq<char>> {
    duration_part(total / 86_400, 'd') + duration_part((total % 86_400) / 3_600, 'h')
        + duration_part((total % 3_600) / 60, 'm') + duration_part(total % 60, 's')
}

/// Texts separated by single spaces.
pub open spec fn spaced(parts: Seq<Seq<char>>) -> Seq<char>
    decreases parts.len(),
{
    if parts.len() == 0 {
        Seq::empty()
    } else if parts.len() == 1 {
        parts[0]
    } else {
        spaced(parts.drop_last()).push(' ') + parts.last()
    }
}

/// The compact text of a duration: its non-zero parts, or `0s`.
pub open spec fn duration_text(seconds: int) -> Seq<char> {
    let total = if seconds < 0 {
        0
    } else {
        seconds as nat
    };
    if total == 0 {
        "0s"@
    } else {
        spaced(duration_parts(total))
    }
}

fn append_part(out: &mut String, Ghost(parts): Ghost<Seq<Seq<char>>>, count: u64, unit: char)
    requires
        old(out)@ == spaced(parts),
        (old(out)@.len() == 0) == (parts.len() == 0),
    ensures
        final(out)@ == spaced(parts + duration_part(count as nat, unit)),
        (final(out)@.len() == 0) == ((parts + duration_part(count as nat, unit)).len() == 0),
{
    let ghost part = digits(count as nat).push(unit);
    if count > 0 {
        if !out.as_str().is_empty() {
            out.push(' ');
        }
        out.append(decimal(count as u128).as_str());
        out.push(unit);
        proof {
            let next = parts + duration_part(count as nat, unit);
            assert(next =~= parts.push(part));
            assert(next.drop_last() =~= parts);
            if parts.len() == 0 {
                assert(out@ =~= part);
            } else {
                assert(out@ =~= spaced(parts).push(' ') + part);
            }
        }
    } else {
        assert(parts + duration_part(count as nat, unit) =~= parts);
    }
}

/// Renders a duration compactly (e.g. `1d 2h 30m`).
pub fn format_duration(duration: &Duration) -> (out: String)
    ensures
        out@ == duration_text(duration.seconds as int),
{
    let total: u64 = if duration.seconds < 0 {
        0
    } else {
        duration.seconds as u64
    };
    if total == 0 {
        return "0s".to_owned();
    }
    let mut out = String::new();
    let ghost none = Seq::<Seq<char>>::empty();
    let ghost d = duration_part(total as nat / 86_400, 'd');
    let ghost h = duration_part((total as nat % 86_400) / 3_600, 'h');
    let ghost m = duration_part((total as nat % 3_600) / 60, 'm');
    assert(none + d =~= d);
    append_part(&mut out, Ghost(none), total / 86_400, 'd');
    append_part(&mut out, Ghost(d), (total % 86_400) / 3_600, 'h');
    append_part(&mut out, Ghost(d + h), (total % 3_600) / 60, 'm');
    append_part(&mut out, Ghost(d + h + m), total % 60, 's');
    out
}

proof fn lemma_clock(d: nat, h: nat, m: nat, x: nat)
    requires
        h < 24,
        m < 60,
        x < 60,
    ensures
        ({
            let total = d * 86_400 + h * 3_600 + m * 60 + x;
            &&& total / 86_400 == d
            &&& (total % 86_400) / 3_600 == h
            &&& (total % 3_600) / 60 == m
            &&& total % 60 == x
        }),
{
    let total = (d * 86_400 + h * 3_600 + m * 60 + x) as int;
    let day = (h * 3_600 + m * 60 + x) as int;
    let hour = (m * 60 + x) as int;
    vstd::arithmetic::div_mod::lemma_fundamental_div_mod_converse(total, 86_400, d as int, day);
    vstd::arithmetic::div_mod::lemma_fundamental_div_mod_converse(day, 3_600, h as int, hour);
    vstd::arithmetic::div_mod::lemma_fundamental_div_mod_converse(
        total,
        3_600,
        (24 * d + h) as int,
        hour,
    );
    vstd::arithmetic::div_mod::lemma_fundamental_div_mod_converse(hour, 60, m as int, x as int);
    vstd::arithmetic::div_mod::lemma_fundamental_div_mod_converse(
        total,
        60,
        (1_440 * d + 60 * h + m) as int,
        x as int,
    );
}

/// A duration is told in days, hours, minutes and seconds that add up to it:
/// its text names each count in order.
pub proof fn law_duration_text(d: nat, h: nat, m: nat, x: nat)
    requires
        d > 0,
        0 < h < 24,
        0 < m < 60,
        0 < x < 60,
    ensures
        duration_text((d * 86_400 + h * 3_600 + m * 60 + x) as int) == digits(d) + seq!['d', ' ']
            + digits(h) + seq!['h', ' '] + digits(m) + seq!['m', ' '] + digits(x) + seq!['s'],
{
    let total = d * 86_400 + h * 3_600 + m * 60 + x;
    lemma_clock(d, h, m, x);
    let a = digits(d).push('d');
    let b = digits(h).push('h');
    let c = digits(m).push('m');
    let e = digits(x).push('s');
    let parts = seq![a, b, c, e];
    assert(duration_parts(total) =~= parts);
    let three = seq![a, b, c];
    let two = seq![a, b];
    let one = seq![a];
    assert(parts.drop_last() =~= three);
    assert(three.drop_last() =~= two);
    assert(two.drop_last() =~= one);
    assert(spaced(one) == a);
    assert(spaced(two) == a.push(' ') + b);
    assert(spaced(three) == spaced(two).push(' ') + c);
    assert(spaced(parts) == spaced(three).push(' ') + e);
    assert(spaced(parts) =~= digits(d) + seq!['d', ' '] + digits(h) + seq!['h', ' '] + digits(m)
        + seq!['m', ' '] + digits(x) + seq!['s']);
}

/// A duration that is a whole number of one unit is told in that unit alone,
/// and none at all is `0s`.
pub proof fn law_duration_text_single(d: nat, h: nat, m: nat, x: nat)
    requires
        h < 24,
        m < 60,
        x < 60,
    ensures
        d > 0 ==> duration_text((d * 86_400) as int) == digits(d).push('d'),
        h > 0 ==> duration_text((h * 3_600) as int) == digits(h).push('h'),
        m > 0 ==> duration_text((m * 60) as int) == digits(m).push('m'),
        x > 0 ==> duration_text(x as int) == digits(x).push('s'),
        duration_text(0) == seq!['0', 's'],
{
    reveal_strlit("0s");
    assert("0s"@ =~= seq!['0', 's']);
    lemma_clock(d, 0, 0, 0);
    lemma_clock(0, h, 0, 0);
    lemma_clock(0, 0, m, 0);
    lemma_clock(0, 0, 0, x);
    if d > 0 {
        assert(duration_parts(d * 86_400) =~= seq![digits(d).push('d')]);
    }
    if h > 0 {
        assert(duration_parts(h * 3_600) =~= seq![digits(h).push('h')]);
    }
    if m > 0 {
        assert(duration_parts(m * 60) =~= seq![digits(m).push('m')]);
    }
    if x > 0 {
        assert(duration_parts(x) =~= seq![digits(x).push('s')]);
    }
}

/// Allocated blocks are 512 bytes each; where blocks are not counted, the
/// length stands in for them.
pub proof fn law_blocks(metadata: Metadata, blocks: u64)
    ensures
        metadata.blocks == Some(blocks) ==> metadata.physical() == blocks * 512,
        metadata.blocks is None ==> metadata.physical() == metadata.len,
{
}

/// White space around a size or a duration does not count, and nothing but
/// white space is refused.
pub proof fn law_padding_ignored(a: Seq<char>, s: Seq<char>, b: Seq<char>)
    requires
        forall|i: int| 0 <= i < a.len() ==> white(#[trigger] a[i]),
        forall|i: int| 0 <= i < b.len() ==> white(#[trigger] b[i]),
    ensures
        size_value(a + s + b) == size_value(s),
        duration_value(a + s + b) == duration_value(s),
        size_value(a) is Err,
        duration_value(a) is Err,
{
    let none = Seq::<char>::empty();
    law_trimmed_padding(a, s, b);
    law_trimmed_padding(a, none, none);
    assert(a + none + none =~= a);
    assert(trimmed(none) =~= none);
    assert(lowered(none) =~= none);
}

/// A number and a unit, where the number parses to what the digits of `n` do.
proof fn lemma_same_number(n: nat, number: Seq<char>, unit: Seq<char>)
    requires
        n <= u64::MAX,
        number.len() > 0,
        !white(number[0]),
        unit.len() > 0 || !white(number.last()),
        forall|i: int| 0 <= i < number.len() ==> !ascii_letter(#[trigger] number[i]),
        all_letters(unit),
        parsed_number(number) == parsed_number(digits(n)),
    ensures
        size_value(number + unit) == size_value(digits(n) + unit),
        duration_value(number + unit) == duration_value(digits(n) + unit),
{
    let s = number + unit;
    let t = digits(n) + unit;
    let low = lowered(unit);
    lemma_digits(n);
    lemma_number_and_unit(n, unit);
    lemma_letter_free(number, unit);
    assert(s[0] == number[0]);
    if unit.len() > 0 {
        assert(ascii_letter(unit[unit.len() - 1]));
        assert(s.last() == unit.last());
    } else {
        assert(s.last() == number.last());
    }
    assert(trimmed(s) == s);
    assert(s.take(number.len() as int) =~= number);
    assert(s.skip(number.len() as int) =~= unit);
    assert(t.take(digits(n).len() as int) =~= digits(n));
    assert(t.skip(digits(n).len() as int) =~= unit);
    assert(lowered(s) =~= number + low) by {
        assert forall|i: int| 0 <= i < number.len() implies lower_char(number[i])
            == number[i] by {
            assert(!ascii_letter(number[i]));
        }
    }
    assert(lowered(t) =~= digits(n) + low) by {
        assert forall|i: int| 0 <= i < digits(n).len() implies lower_char(digits(n)[i]) == digits(
            n,
        )[i] by {
            assert(ascii_digit(digits(n)[i]));
        }
    }
    assert forall|i: int| 0 <= i < low.len() implies ascii_letter(#[trigger] low[i]) by {
        assert(ascii_letter(unit[i]));
    }
    lemma_letter_free(number, low);
    lemma_letter_position(digits(n), low);
    assert((number + low).take(number.len() as int) =~= number);
    assert((number + low).skip(number.len() as int) =~= low);
    assert((digits(n) + low).take(digits(n).len() as int) =~= digits(n));
    assert((digits(n) + low).skip(digits(n).len() as int) =~= low);
}

/// White space between a number and its unit does not count, nor does a plus
/// sign before the number.
pub proof fn law_spelling_of_numbers(n: nat, gap: Seq<char>, unit: Seq<char>)
    requires
        n <= u64::MAX,
        all_letters(unit),
        unit.len() > 0,
        forall|i: int| 0 <= i < gap.len() ==> white(#[trigger] gap[i]),
    ensures
        size_value(digits(n) + gap + unit) == size_value(digits(n) + unit),
        duration_value(digits(n) + gap + unit) == duration_value(digits(n) + unit),
        size_value(seq!['+'] + digits(n) + unit) == size_value(digits(n) + unit),
        duration_value(seq!['+'] + digits(n) + unit) == duration_value(digits(n) + unit),
{
    let none = Seq::<char>::empty();
    lemma_digits(n);
    assert(ascii_digit(digits(n)[0]));
    assert(ascii_digit(digits(n)[digits(n).len() - 1]));
    let spaced_out = digits(n) + gap;
    law_trimmed_padding(none, digits(n), gap);
    assert(none + digits(n) + gap =~= spaced_out);
    assert forall|i: int| 0 <= i < spaced_out.len() implies !ascii_letter(
        #[trigger] spaced_out[i],
    ) by {
        if i < digits(n).len() {
            assert(ascii_digit(digits(n)[i]));
        } else {
            assert(white(gap[i - digits(n).len()]));
        }
    }
    assert(spaced_out[0] == digits(n)[0]);
    lemma_same_number(n, spaced_out, unit);
    let signed = seq!['+'] + digits(n);
    assert forall|i: int| 0 <= i < signed.len() implies !ascii_letter(#[trigger] signed[i]) by {
        if i > 0 {
            assert(ascii_digit(digits(n)[i - 1]));
        }
    }
    assert(signed.last() == digits(n).last());
    assert(trimmed(signed) == signed);
    assert(signed.skip(1) =~= digits(n));
    assert(trimmed(digits(n)) == digits(n));
    assert(number_text(signed) == number_text(digits(n)));
    lemma_same_number(n, signed, unit);
}

/// A unit that is none of those known is refused, whatever its number.
pub proof fn law_unknown_units(n: nat, unit: Seq<char>)
    requires
        n <= u64::MAX,
        all_letters(unit),
    ensures
        ({
            let u = lowered(unit);
            &&& !(u == ""@ || u == "b"@ || u == "k"@ || u == "kb"@ || u == "kib"@ || u == "m"@ || u
                == "mb"@ || u == "mib"@ || u == "g"@ || u == "gb"@ || u == "gib"@ || u == "t"@ || u
                == "tb"@ || u == "tib"@ || u == "p"@ || u == "pb"@ || u == "pib"@) ==> size_value(
                digits(n) + unit,
            ) is Err
            &&& !(u == "s"@ || u == "sec"@ || u == "secs"@ || u == "second"@ || u == "seconds"@ || u
                == "m"@ || u == "min"@ || u == "mins"@ || u == "minute"@ || u == "minutes"@ || u
                == "h"@ || u == "hr"@ || u == "hrs"@ || u == "hour"@ || u == "hours"@ || u == "d"@
                || u == "day"@ || u == "days"@ || u == "w"@ || u == "week"@ || u == "weeks"@ || u
                == "mo"@ || u == "month"@ || u == "months"@ || u == "y"@ || u == "year"@ || u
                == "years"@) ==> duration_value(digits(n) + unit) is Err
        }),
{
    let t = digits(n) + unit;
    let low = lowered(unit);
    lemma_digits(n);
    lemma_number_and_unit(n, unit);
    assert(t.skip(digits(n).len() as int) =~= unit);
    assert(lowered(t) =~= digits(n) + low) by {
        assert forall|i: int| 0 <= i < digits(n).len() implies lower_char(digits(n)[i]) == digits(
            n,
        )[i] by {
            assert(ascii_digit(digits(n)[i]));
        }
    }
    assert forall|i: int| 0 <= i < low.len() implies ascii_letter(#[trigger] low[i]) by {
        assert(ascii_letter(unit[i]));
    }
    lemma_letter_position(digits(n), low);
    assert((digits(n) + low).skip(digits(n).len() as int) =~= low);
}

/// A duration with one decimal is worth its tenths, in whole seconds: less
/// than one below, and never above but for three parts in 2^53.
pub proof fn law_duration_tenths(w: nat, d: nat, unit: Seq<char>, one: nat)
    requires
        w <= u64::MAX,
        d < 10,
        all_letters(unit),
        one < 0x20_0000_0000_0000,
        duration_value(digits(1) + unit) == Ok::<nat, Seq<char>>(one),
    ensures
        duration_value(digits(w) + seq!['.', digit_char(d)] + unit) matches Ok(seconds) ==> {
            let exact = (10 * w + d) * one;
            &&& (seconds * 10) * 0x20_0000_0000_0000 <= exact * 0x20_0000_0000_0000 + 3 * exact
            &&& exact * 0x20_0000_0000_0000 - 3 * exact < ((seconds + 1) * 10)
                * 0x20_0000_0000_0000
        },
{
    let head = digits(w);
    let tail = seq!['.', digit_char(d)];
    let s = head + tail;
    let low = lowered(unit);
    lemma_digits(w);
    lemma_digits(1);
    lemma_number_and_unit(1, unit);
    lemma_parsed_digits(1);
    assert forall|i: int| 0 <= i < low.len() implies ascii_letter(#[trigger] low[i]) by {
        assert(ascii_letter(unit[i]));
    }
    let first = digits(1) + low;
    assert(lowered(digits(1) + unit) =~= first) by {
        assert forall|i: int| 0 <= i < digits(1).len() implies lower_char(digits(1)[i]) == digits(
            1,
        )[i] by {
            assert(ascii_digit(digits(1)[i]));
        }
    }
    lemma_letter_position(digits(1), low);
    assert(first.take(digits(1).len() as int) =~= digits(1));
    assert(first.skip(digits(1).len() as int) =~= low);
    let unity = NumberText { negative: false, whole: digits(1), frac: Seq::<char>::empty() };
    assert(unity.whole + unity.frac =~= digits(1));
    vstd::arithmetic::power::lemma_pow0(10);
    vstd::arithmetic::power::lemma_pow1(10);
    let factor = duration_factor(low)->0;
    lemma_product_exact(1, factor);
    assert(one == factor);
    assert forall|i: int| 0 <= i < s.len() implies !ascii_letter(#[trigger] s[i]) by {
        if i < head.len() {
            assert(ascii_digit(head[i]));
        }
    }
    assert(ascii_digit(head[0]));
    assert(s[0] == head[0]);
    assert(s.last() == digit_char(d));
    lemma_head_and_unit(s, unit);
    assert(lowered(s + unit) =~= s + low) by {
        assert forall|i: int| 0 <= i < s.len() implies lower_char(s[i]) == s[i] by {
            assert(!ascii_letter(s[i]));
        }
    }
    lemma_head_and_unit(s, low);
    lemma_first_dot(head, tail);
    let number = number_text(s);
    assert(number.whole =~= head);
    assert(number.frac =~= seq![digit_char(d)]);
    assert((head + number.frac).drop_last() =~= head);
    assert(number.mantissa() == 10 * w + d);
    assert(pow(10, number.frac.len()) == 10);
    assert((head + tail) + unit =~= s + unit);
    lemma_product_close(10 * w + d, 10, factor);
}

} // verus!
