//! Shares and sizes as IEEE 754 double-precision arithmetic gives them.
//!
//! Percentages and scaled sizes are shown with the rounding of binary64
//! numbers. That rounding is computed here on exact fractions of integers:
//! a binary64 number is a fraction whose denominator is a power of two.

use vstd::prelude::*;

verus! {

/// 2^52, the smallest 53-bit significand.
pub const LOW: u128 = 0x10_0000_0000_0000;

/// 2^53, the first number beyond 53-bit significands.
pub const HIGH: u128 = 0x20_0000_0000_0000;

/// 2^44, the parts of a percent that the count of filled blocks is exact to.
pub const BAR_PRECISION: u128 = 0x1000_0000_0000;

/// An exact non-negative fraction.
#[derive(Debug, Clone, Copy, PartialEq, Eq, Structural)]
pub struct Fraction {
    pub num: u128,
    pub den: u128,
}

/// The mathematical value of a [`Fraction`].
pub struct Ratio {
    pub num: nat,
    pub den: nat,
}

impl View for Fraction {
    type V = Ratio;

    open spec fn view(&self) -> Ratio {
        Ratio { num: self.num as nat, den: self.den as nat }
    }
}

/// The integer nearest to `num / den`; of two, the even one.
pub open spec fn half_even(num: nat, den: nat) -> nat {
    let q = num / den;
    let r = num % den;
    if 2 * r > den || (2 * r == den && q % 2 == 1) {
        q + 1
    } else {
        q
    }
}

pub(crate) fn round_half_even(num: u128, den: u128) -> (out: u128)
    requires
        den > 0,
        num < 0x8000_0000_0000_0000_0000_0000_0000_0000,
        den < 0x8000_0000_0000_0000_0000_0000_0000_0000,
    ensures
        out == half_even(num as nat, den as nat),
{
    let q = num / den;
    let r = num % den;
    assert(q <= num) by (nonlinear_arith)
        requires
            q == num / den,
            den > 0,
    ;
    assert(r < den) by (nonlinear_arith)
        requires
            r == num % den,
            den > 0,
    ;
    if 2 * r > den || (2 * r == den && q % 2 == 1) {
        q + 1
    } else {
        q
    }
}

/// How far a quotient is from having 53 bits.
pub open spec fn distance(num: nat, den: nat) -> nat {
    if num >= den * HIGH {
        (num - den) as nat
    } else if num < den * LOW {
        (den * LOW - num) as nat
    } else {
        0
    }
}

/// The binary64 number nearest to `num / den`: the quotient is scaled by
/// powers of two until it has 53 bits, and rounded half to even.
pub open spec fn nearest(num: nat, den: nat) -> Ratio
    decreases distance(num, den),
{
    if den == 0 {
        Ratio { num: 0, den: 1 }
    } else if num >= den * HIGH {
        let half = nearest(num, 2 * den);
        Ratio { num: 2 * half.num, den: half.den }
    } else if 0 < num < den * LOW {
        let twice = nearest(2 * num, den);
        Ratio { num: twice.num, den: 2 * twice.den }
    } else {
        Ratio { num: half_even(num, den), den: 1 }
    }
}

proof fn lemma_half_even_bounds(num: nat, den: nat)
    requires
        den > 0,
    ensures
        half_even(num, den) * den <= num + den,
        num >= den * LOW ==> half_even(num, den) >= LOW,
        num < den * HIGH ==> half_even(num, den) <= HIGH,
{
    let q = num / den;
    let r = num % den;
    assert(num == q * den + r && r < den) by (nonlinear_arith)
        requires
            q == num / den,
            r == num % den,
            den > 0,
    ;
    assert(q * den + den == (q + 1) * den) by (nonlinear_arith);
    assert(num >= den * LOW ==> q >= LOW) by (nonlinear_arith)
        requires
            num == q * den + r,
            r < den,
    ;
    assert(num < den * HIGH ==> q < HIGH) by (nonlinear_arith)
        requires
            num == q * den + r,
    ;
}

/// What rounding to 53 bits makes of the size of numbers.
proof fn lemma_nearest(num: nat, den: nat)
    requires
        den > 0,
    ensures
        nearest(num, den).den > 0,
        num > 0 ==> nearest(num, den).num >= LOW,
        num == 0 ==> nearest(num, den) == (Ratio { num: 0, den: 1 }),
        num < den * HIGH ==> nearest(num, den).num <= HIGH,
        num >= den * LOW ==> nearest(num, den).den == 1 && nearest(num, den).num * den <= 2 * num,
        nearest(num, den).den == 1 || nearest(num, den).den * num < den * HIGH,
    decreases distance(num, den),
{
    let out = nearest(num, den);
    assert(den * HIGH == 2 * (den * LOW));
    if num >= den * HIGH {
        lemma_nearest(num, 2 * den);
        let half = nearest(num, 2 * den);
        assert((2 * den) * LOW == den * HIGH);
        assert((2 * half.num) * den == half.num * (2 * den)) by (nonlinear_arith);
    } else if 0 < num < den * LOW {
        lemma_nearest(2 * num, den);
        let twice = nearest(2 * num, den);
        assert((2 * twice.den) * num == twice.den * (2 * num)) by (nonlinear_arith);
    } else {
        lemma_half_even_bounds(num, den);
        if num == 0 {
            assert(half_even(0, den) == 0) by (nonlinear_arith)
                requires
                    den > 0,
            ;
        } else {
            assert(den <= num) by (nonlinear_arith)
                requires
                    num >= den * LOW,
                    LOW >= 1,
            ;
        }
    }
}

/// The binary64 number nearest to `num / den`.
fn round_nearest(num: u128, den: u128) -> (out: Fraction)
    requires
        den > 0,
        num < 0x400_0000_0000_0000_0000_0000_0000_0000,
        den <= 0x20_0000_0000_0000_0000 || (den * LOW <= num && den <= 0x40_0000_0000_0000_0000),
    ensures
        out@ == nearest(num as nat, den as nat),
    decreases distance(num as nat, den as nat),
{
    proof {
        assert(den * HIGH == 2 * (den * LOW));
        lemma_nearest(num as nat, den as nat);
        assert(num / HIGH >= den <==> num >= den * HIGH) by (nonlinear_arith)
            requires
                HIGH == 0x20_0000_0000_0000u128,
        ;
    }
    if num / HIGH >= den {
        assert(den <= 0x20_0000_0000_0000_0000);
        let half = round_nearest(num, 2 * den);
        proof {
            lemma_nearest(num as nat, (2 * den) as nat);
            assert(half.num * (2 * den) <= 2 * num);
            assert(half.num <= num) by (nonlinear_arith)
                requires
                    half.num * (2 * den) <= 2 * num,
                    den >= 1,
            ;
        }
        Fraction { num: 2 * half.num, den: half.den }
    } else if num > 0 && num < den * LOW {
        let twice = round_nearest(2 * num, den);
        proof {
            lemma_nearest((2 * num) as nat, den as nat);
            assert(twice.den < 0x400_0000_0000_0000_0000_0000_0000_0000) by (nonlinear_arith)
                requires
                    twice.den == 1 || twice.den * (2 * num) < den * HIGH,
                    num >= 1,
                    den <= 0x20_0000_0000_0000_0000,
                    HIGH == 0x20_0000_0000_0000u128,
            ;
        }
        Fraction { num: twice.num, den: 2 * twice.den }
    } else {
        Fraction { num: round_half_even(num, den), den: 1 }
    }
}

/// An integer as the nearest binary64 number, which is an integer again.
pub open spec fn rounded_integer(n: nat) -> nat {
    if n < HIGH {
        n
    } else {
        nearest(n, 1).num
    }
}

pub(crate) fn round_integer(n: u64) -> (out: u128)
    ensures
        out == rounded_integer(n as nat),
        out <= 2 * n,
        n > 0 ==> out > 0,
{
    let wide = n as u128;
    if wide < HIGH {
        wide
    } else {
        proof {
            lemma_nearest(n as nat, 1);
        }
        round_nearest(wide, 1).num
    }
}

/// `part` as a percentage of `whole`: the quotient is rounded, then its
/// hundredfold. The denominator of a rounded number is a power of two, so
/// scaling by it is exact.
pub open spec fn percentage(part: nat, whole: nat) -> Ratio {
    if whole == 0 {
        Ratio { num: 0, den: 1 }
    } else {
        let share = nearest(rounded_integer(part), rounded_integer(whole));
        Ratio { num: nearest(100 * share.num, 1).num, den: share.den }
    }
}

/// `part` as a percentage of `whole`; nothing of nothing is none.
pub fn percent_of(part: u64, whole: u64) -> (out: Fraction)
    ensures
        out@ == percentage(part as nat, whole as nat),
        out.fit(),
{
    if whole == 0 {
        return Fraction { num: 0, den: 1 };
    }
    let a = round_integer(part);
    let b = round_integer(whole);
    let share = round_nearest(a, b);
    proof {
        lemma_nearest(a as nat, b as nat);
        assert(share.num <= 0x8_0000_0000_0000_0000 && share.den
            <= 0x80_0000_0000_0000_0000_0000_0000_0000) by {
            assert(b * HIGH == 2 * (b * LOW));
            if a >= b * LOW {
                assert(share.num <= 2 * a) by (nonlinear_arith)
                    requires
                        share.num * b <= 2 * a,
                        b >= 1,
                ;
            } else if a > 0 {
                assert(share.den <= b * HIGH) by (nonlinear_arith)
                    requires
                        share.den == 1 || share.den * a < b * HIGH,
                        a >= 1,
                        b >= 1,
                        HIGH == 0x20_0000_0000_0000u128,
                ;
            }
        }
        lemma_nearest((100 * share.num) as nat, 1);
    }
    let scaled = round_nearest(100 * share.num, 1);
    Fraction { num: scaled.num, den: share.den }
}

impl Fraction {
    /// What keeps the arithmetic on percentages within 128 bits: small
    /// numbers are fractions with a 53-bit numerator.
    pub open spec fn fit(self) -> bool {
        &&& 0 < self.den <= 0x80_0000_0000_0000_0000_0000_0000_0000
        &&& self.num <= 0x2_0000_0000_0000_0000_0000
        &&& self.num == 0 || self.num >= LOW
    }

    /// Whether this is at least the whole number `limit`.
    pub fn at_least(&self, limit: u8) -> (yes: bool)
        requires
            self.fit(),
            limit <= 100,
        ensures
            yes == (self@.num >= limit * self@.den),
    {
        assert(limit * self.den <= 100 * 0x80_0000_0000_0000_0000_0000_0000_0000)
            by (nonlinear_arith)
            requires
                limit <= 100,
                self.den <= 0x80_0000_0000_0000_0000_0000_0000_0000u128,
        ;
        self.num >= limit as u128 * self.den
    }

    /// This number in tenths, rounded half to even.
    pub fn tenths(&self) -> (out: u128)
        requires
            self.fit(),
        ensures
            out == half_even(10 * self@.num, self@.den),
    {
        round_half_even(10 * self.num, self.den)
    }
}

/// How many of ten blocks a percentage fills: the hundredth part is rounded,
/// then its tenfold, and that to the nearest whole number, halves up.
pub open spec fn filled_blocks(percent: Ratio) -> nat {
    if percent.num >= 100 * percent.den {
        10
    } else {
        let share = nearest(percent.num, 100);
        let scaled = nearest(10 * share.num, 1).num;
        let den = share.den * percent.den;
        let blocks = (2 * scaled + den) / (2 * den);
        if blocks > 10 {
            10
        } else {
            blocks
        }
    }
}

/// How many of ten blocks a percentage fills.
pub fn fill_blocks(percent: &Fraction) -> (out: usize)
    requires
        percent.fit(),
    ensures
        out == filled_blocks(percent@),
        out <= 10,
{
    if percent.at_least(100) {
        return 10;
    }
    let share = round_nearest(percent.num, 100);
    proof {
        lemma_nearest(percent.num as nat, 100);
        assert(share.den <= 200) by (nonlinear_arith)
            requires
                share.den == 1 || share.den * percent.num < 100 * HIGH,
                percent.num == 0 ==> share.den == 1,
                percent.num == 0 || percent.num >= LOW,
                HIGH == 2 * LOW,
                LOW >= 1,
        ;
        assert(share.num <= 0x4_0000_0000_0000_0000_0000) by {
            if percent.num >= 100 * LOW {
                assert(share.num <= 2 * percent.num) by (nonlinear_arith)
                    requires
                        share.num * 100 <= 2 * percent.num,
                ;
            }
        }
        lemma_nearest((10 * share.num) as nat, 1);
    }
    let scaled = round_nearest(10 * share.num, 1);
    assert(share.den * percent.den <= 200 * 0x80_0000_0000_0000_0000_0000_0000_0000
        && share.den * percent.den > 0) by (nonlinear_arith)
        requires
            0 < share.den <= 200,
            0 < percent.den <= 0x80_0000_0000_0000_0000_0000_0000_0000u128,
    ;
    assert(10 * share.num > 0 ==> scaled.num <= 20 * share.num);
    let den = share.den * percent.den;
    let blocks = (2 * scaled.num + den) / (2 * den);
    if blocks > 10 {
        10
    } else {
        blocks as usize
    }
}

// ---------------------------------------------------------------------------
// Powers of two
// ---------------------------------------------------------------------------
/// Two to the power of `k`.
pub open spec fn power_of_two(k: nat) -> nat
    decreases k,
{
    if k == 0 {
        1
    } else {
        2 * power_of_two((k - 1) as nat)
    }
}

pub proof fn lemma_power_positive(k: nat)
    ensures
        power_of_two(k) > 0,
    decreases k,
{
    if k > 0 {
        lemma_power_positive((k - 1) as nat);
    }
}

pub proof fn lemma_power_sum(a: nat, b: nat)
    ensures
        power_of_two(a + b) == power_of_two(a) * power_of_two(b),
    decreases a,
{
    if a == 0 {
        assert(1 * power_of_two(b) == power_of_two(b)) by (nonlinear_arith);
    } else {
        lemma_power_sum((a - 1) as nat, b);
        let x = power_of_two((a - 1) as nat);
        let y = power_of_two(b);
        assert((2 * x) * y == 2 * (x * y)) by (nonlinear_arith);
    }
}

pub proof fn lemma_power_monotone(a: nat, b: nat)
    requires
        a <= b,
    ensures
        power_of_two(a) <= power_of_two(b),
    decreases b,
{
    if a < b {
        lemma_power_monotone(a, (b - 1) as nat);
        lemma_power_positive((b - 1) as nat);
    }
}

pub proof fn lemma_powers()
    ensures
        power_of_two(52) == LOW,
        power_of_two(54) == 0x40_0000_0000_0000,
        power_of_two(84) == 0x10_0000_0000_0000_0000_0000,
        power_of_two(119) == 0x80_0000_0000_0000_0000_0000_0000_0000,
{
    reveal_with_fuel(power_of_two, 61);
    assert(power_of_two(52) == LOW);
    assert(power_of_two(54) == 0x40_0000_0000_0000);
    assert(power_of_two(30) == 0x4000_0000);
    assert(power_of_two(60) == 0x1000_0000_0000_0000);
    assert(power_of_two(59) == 0x800_0000_0000_0000);
    lemma_power_sum(54, 30);
    lemma_power_sum(60, 59);
}

/// Two to the power of `k`.
pub fn two_to(k: u64) -> (out: u128)
    requires
        k <= 119,
    ensures
        out == power_of_two(k as nat),
        0 < out <= 0x80_0000_0000_0000_0000_0000_0000_0000,
{
    let mut out: u128 = 1;
    let mut i: u64 = 0;
    proof {
        lemma_powers();
        lemma_power_monotone(0, 119);
    }
    while i < k
        invariant
            i <= k <= 119,
            out == power_of_two(i as nat),
            0 < out <= 0x80_0000_0000_0000_0000_0000_0000_0000,
            power_of_two(119) == 0x80_0000_0000_0000_0000_0000_0000_0000,
        decreases k - i,
    {
        proof {
            lemma_power_monotone((i + 1) as nat, 119);
        }
        out = 2 * out;
        i += 1;
    }
    out
}

// ---------------------------------------------------------------------------
// Rounding long numbers
// ---------------------------------------------------------------------------
/// A number that reaches 53 bits after `j` doublings.
proof fn lemma_nearest_small(num: nat, den: nat, j: nat)
    requires
        den > 0,
        den * LOW <= num * power_of_two(j) < den * HIGH,
    ensures
        nearest(num, den) == (Ratio {
            num: half_even(num * power_of_two(j), den),
            den: power_of_two(j),
        }),
    decreases j,
{
    if j == 0 {
        assert(num * 1 == num);
    } else {
        let p = power_of_two((j - 1) as nat);
        lemma_power_positive((j - 1) as nat);
        assert(num * (2 * p) == (2 * num) * p) by (nonlinear_arith);
        assert(num < den * LOW) by (nonlinear_arith)
            requires
                num * (2 * p) < den * HIGH,
                p >= 1,
                HIGH == 2 * LOW,
        ;
        assert(num > 0) by (nonlinear_arith)
            requires
                den * LOW <= num * (2 * p),
                den > 0,
                LOW > 0,
        ;
        assert(den * HIGH == 2 * (den * LOW));
        lemma_nearest_small(2 * num, den, (j - 1) as nat);
    }
}

/// A number that has 53 bits after `j` halvings.
proof fn lemma_nearest_large(num: nat, den: nat, j: nat)
    requires
        den > 0,
        (den * power_of_two(j)) * LOW <= num < (den * power_of_two(j)) * HIGH,
    ensures
        nearest(num, den) == (Ratio {
            num: power_of_two(j) * half_even(num, den * power_of_two(j)),
            den: 1,
        }),
    decreases j,
{
    if j == 0 {
        assert(den * 1 == den);
        assert(den * HIGH == 2 * (den * LOW));
        assert(1 * half_even(num, den) == half_even(num, den)) by (nonlinear_arith);
    } else {
        let p = power_of_two((j - 1) as nat);
        lemma_power_positive((j - 1) as nat);
        assert(den * (2 * p) == (2 * den) * p) by (nonlinear_arith);
        assert(num >= den * HIGH) by (nonlinear_arith)
            requires
                (den * (2 * p)) * LOW <= num,
                p >= 1,
                HIGH == 2 * LOW,
        ;
        lemma_nearest_large(num, 2 * den, (j - 1) as nat);
        let h = half_even(num, (2 * den) * p);
        assert(2 * (p * h) == (2 * p) * h) by (nonlinear_arith);
    }
}

/// `y` keeps of `z = top / den` what rounding needs: twice the whole part of
/// its half, and whether that half is exact.
pub open spec fn keeps(y: nat, top: nat, den: nat) -> bool {
    let half = top / (2 * den);
    y == 2 * half + (if top == half * (2 * den) {
        0nat
    } else {
        1nat
    })
}

/// Rounding what is kept, at a multiple of four, is rounding the number.
proof fn lemma_keeps_rounds(y: nat, top: nat, den: nat, unit: nat)
    requires
        den > 0,
        unit > 0,
        keeps(y, top, den),
    ensures
        half_even(y, 4 * unit) == half_even(top, den * (4 * unit)),
{
    let half = top / (2 * den);
    let q = y / (4 * unit);
    let r = y % (4 * unit);
    let m = (2 * q + 1) * unit;
    let b = den * (4 * unit);
    let rest = top - half * (2 * den);
    assert(0 <= rest < 2 * den && top == half * (2 * den) + rest) by (nonlinear_arith)
        requires
            half == top / (2 * den),
            rest == top - half * (2 * den),
            den > 0,
    ;
    assert(y == q * (4 * unit) + r && 0 <= r < 4 * unit) by (nonlinear_arith)
        requires
            q == y / (4 * unit),
            r == y % (4 * unit),
            unit > 0,
    ;
    // The whole part of both quotients is the same.
    assert(q * (2 * unit) <= half && half < (q + 1) * (2 * unit)) by (nonlinear_arith)
        requires
            y == q * (4 * unit) + r,
            0 <= r < 4 * unit,
            y == 2 * half || y == 2 * half + 1,
    ;
    assert(q * b <= top && top < (q + 1) * b) by (nonlinear_arith)
        requires
            b == den * (4 * unit),
            q * (2 * unit) <= half,
            half < (q + 1) * (2 * unit),
            top == half * (2 * den) + rest,
            0 <= rest < 2 * den,
            den > 0,
    ;
    assert(b > 0) by (nonlinear_arith)
        requires
            b == den * (4 * unit),
            den > 0,
            unit > 0,
    ;
    let s = (top - q * b) as int;
    assert((q + 1) * b == q * b + b) by (nonlinear_arith);
    vstd::arithmetic::div_mod::lemma_fundamental_div_mod_converse(
        top as int,
        b as int,
        q as int,
        s,
    );
    // Both remainders compare to a half in the same way.
    assert(2 * r > 4 * unit <==> half > m || (half == m && y != 2 * half)) by (nonlinear_arith)
        requires
            y == q * (4 * unit) + r,
            m == (2 * q + 1) * unit,
            y == 2 * half || y == 2 * half + 1,
    ;
    assert(2 * r == 4 * unit <==> half == m && y == 2 * half) by (nonlinear_arith)
        requires
            y == q * (4 * unit) + r,
            m == (2 * q + 1) * unit,
            y == 2 * half || y == 2 * half + 1,
    ;
    assert(2 * s == 2 * top - 2 * (q * b));
    assert(2 * (q * b) + b == m * (4 * den)) by (nonlinear_arith)
        requires
            b == den * (4 * unit),
            m == (2 * q + 1) * unit,
    ;
    assert(2 * s > b <==> top > m * (2 * den)) by (nonlinear_arith)
        requires
            2 * s == 2 * top - 2 * (q * b),
            2 * (q * b) + b == m * (4 * den),
    ;
    assert(2 * s == b <==> top == m * (2 * den)) by (nonlinear_arith)
        requires
            2 * s == 2 * top - 2 * (q * b),
            2 * (q * b) + b == m * (4 * den),
    ;
    assert(top > m * (2 * den) <==> half > m || (half == m && rest > 0)) by (nonlinear_arith)
        requires
            top == half * (2 * den) + rest,
            0 <= rest < 2 * den,
            den > 0,
    ;
    assert(top == m * (2 * den) <==> half == m && rest == 0) by (nonlinear_arith)
        requires
            top == half * (2 * den) + rest,
            0 <= rest < 2 * den,
            den > 0,
    ;
}

/// The number is at least half and at most twice what it is rounded to.
proof fn lemma_nearest_close(num: nat, den: nat)
    requires
        den > 0,
    ensures
        nearest(num, den).num * den <= 2 * (num * nearest(num, den).den),
        num * nearest(num, den).den <= 2 * (nearest(num, den).num * den),
    decreases distance(num, den),
{
    let out = nearest(num, den);
    assert(den * HIGH == 2 * (den * LOW));
    if num >= den * HIGH {
        lemma_nearest_close(num, 2 * den);
        let half = nearest(num, 2 * den);
        assert((2 * half.num) * den == half.num * (2 * den)) by (nonlinear_arith);
    } else if 0 < num < den * LOW {
        lemma_nearest_close(2 * num, den);
        let twice = nearest(2 * num, den);
        assert(num * (2 * twice.den) == (2 * num) * twice.den) by (nonlinear_arith);
    } else {
        let q = num / den;
        let r = num % den;
        let h = half_even(num, den);
        assert(num == q * den + r && r < den) by (nonlinear_arith)
            requires
                q == num / den,
                r == num % den,
                den > 0,
        ;
        assert((q + 1) * den == q * den + den) by (nonlinear_arith);
        if num > 0 {
            assert(q >= 1) by (nonlinear_arith)
                requires
                    num == q * den + r,
                    r < den,
                    num >= den * LOW,
                    LOW >= 1,
            ;
            assert(q * den >= den) by (nonlinear_arith)
                requires
                    q >= 1,
            ;
        } else {
            assert(q == 0) by (nonlinear_arith)
                requires
                    q == 0nat / den,
                    den > 0,
            ;
            assert(0 * den == 0) by (nonlinear_arith);
        }
    }
}

/// A common factor leaves rounding as it is.
proof fn lemma_half_even_scale(num: nat, den: nat, c: nat)
    requires
        den > 0,
        c > 0,
    ensures
        half_even(num * c, den * c) == half_even(num, den),
{
    let q = num / den;
    let r = num % den;
    assert(num == q * den + r && r < den) by (nonlinear_arith)
        requires
            q == num / den,
            r == num % den,
            den > 0,
    ;
    assert(num * c == q * (den * c) + r * c) by (nonlinear_arith)
        requires
            num == q * den + r,
    ;
    assert(0 <= r * c < den * c) by (nonlinear_arith)
        requires
            0 <= r < den,
            c > 0,
    ;
    vstd::arithmetic::div_mod::lemma_fundamental_div_mod_converse(
        (num * c) as int,
        (den * c) as int,
        q as int,
        (r * c) as int,
    );
    assert(2 * (r * c) > den * c <==> 2 * r > den) by (nonlinear_arith)
        requires
            c > 0,
    ;
    assert(2 * (r * c) == den * c <==> 2 * r == den) by (nonlinear_arith)
        requires
            c > 0,
    ;
}

/// What is kept of a number has as many bits as the number.
proof fn lemma_keeps_bits(y: nat, top: nat, den: nat, unit: nat)
    requires
        den > 0,
        keeps(y, top, den),
        (4 * unit) * LOW <= y < (4 * unit) * HIGH,
    ensures
        (den * (4 * unit)) * LOW <= top < (den * (4 * unit)) * HIGH,
{
    let half = top / (2 * den);
    let rest = top - half * (2 * den);
    assert(0 <= rest < 2 * den && top == half * (2 * den) + rest) by (nonlinear_arith)
        requires
            half == top / (2 * den),
            rest == top - half * (2 * den),
            den > 0,
    ;
    let low = (2 * unit) * LOW;
    let high = (2 * unit) * HIGH;
    assert((4 * unit) * LOW == 2 * low && (4 * unit) * HIGH == 2 * high);
    assert(low <= half && half + 1 <= high);
    assert(low * (2 * den) <= top && top < high * (2 * den)) by (nonlinear_arith)
        requires
            top == half * (2 * den) + rest,
            0 <= rest < 2 * den,
            low <= half,
            half + 1 <= high,
            den > 0,
    ;
    assert((den * (4 * unit)) * LOW == low * (2 * den)) by (nonlinear_arith)
        requires
            low == (2 * unit) * LOW,
    ;
    assert((den * (4 * unit)) * HIGH == high * (2 * den)) by (nonlinear_arith)
        requires
            high == (2 * unit) * HIGH,
    ;
}

/// The rounded number, where the significand begins `j` bits above the last
/// bit that is kept.
proof fn lemma_nearest_kept(num: nat, den: nat, k: nat, j: nat)
    requires
        den > 0,
        (den * power_of_two(j)) * LOW <= num * power_of_two(k) < (den * power_of_two(j)) * HIGH,
    ensures
        j <= k ==> nearest(num, den) == (Ratio {
            num: half_even(num * power_of_two(k), den * power_of_two(j)),
            den: power_of_two((k - j) as nat),
        }),
        j > k ==> nearest(num, den) == (Ratio {
            num: power_of_two((j - k) as nat) * half_even(
                num * power_of_two(k),
                den * power_of_two(j),
            ),
            den: 1,
        }),
{
    let pk = power_of_two(k);
    let pj = power_of_two(j);
    lemma_power_positive(k);
    lemma_power_positive(j);
    if j <= k {
        let d = power_of_two((k - j) as nat);
        lemma_power_sum((k - j) as nat, j);
        assert(num * pk == (num * d) * pj) by (nonlinear_arith)
            requires
                pk == d * pj,
        ;
        assert(den * LOW <= num * d && num * d < den * HIGH) by (nonlinear_arith)
            requires
                (den * pj) * LOW <= (num * d) * pj,
                (num * d) * pj < (den * pj) * HIGH,
                pj > 0,
        ;
        lemma_half_even_scale(num * d, den, pj);
        lemma_nearest_small(num, den, (k - j) as nat);
    } else {
        let d = power_of_two((j - k) as nat);
        lemma_power_sum((j - k) as nat, k);
        lemma_power_positive((j - k) as nat);
        assert(den * pj == (den * d) * pk) by (nonlinear_arith)
            requires
                pj == d * pk,
        ;
        assert((den * d) * LOW <= num && num < (den * d) * HIGH) by (nonlinear_arith)
            requires
                ((den * d) * pk) * LOW <= num * pk,
                num * pk < ((den * d) * pk) * HIGH,
                pk > 0,
        ;
        assert(den * d > 0) by (nonlinear_arith)
            requires
                den > 0,
                d > 0,
        ;
        lemma_half_even_scale(num, den * d, pk);
        lemma_nearest_large(num, den, (j - k) as nat);
    }
}

/// Rounds the number `num / den`, of whose `2^k`-fold `y` is kept.
pub(crate) fn round_kept(y: u128, k: u64, Ghost(num): Ghost<nat>, Ghost(den): Ghost<nat>) -> (out:
    Fraction)
    requires
        den > 0,
        k <= 85,
        0x80_0000_0000_0000 <= y < 0x80_0000_0000_0000_0000_0000_0000_0000,
        keeps(y as nat, num * power_of_two(k as nat), den),
    ensures
        out@ == nearest(num, den),
        out.den > 0,
        out.num <= 0x80_0000_0000_0000_0000_0000_0000_0000,
{
    let mut j: u64 = 3;
    let mut unit: u128 = 2;
    proof {
        lemma_powers();
        assert(power_of_two(53) == 2 * power_of_two(52));
        lemma_power_sum(66, 53);
        assert(power_of_two(0) == 1);
        assert(power_of_two(1) == 2);
        assert(power_of_two(2) == 4);
        assert(power_of_two(3) == 8);
    }
    while y / (4 * unit) >= HIGH
        invariant
            3 <= j <= 66,
            unit == power_of_two((j - 2) as nat),
            power_of_two(j as nat) == 4 * unit,
            (4 * unit) * LOW <= y < 0x80_0000_0000_0000_0000_0000_0000_0000,
            2 <= unit <= 0x2_0000_0000_0000_0000,
            power_of_two(53) == HIGH,
            power_of_two(66) * power_of_two(53) == 0x80_0000_0000_0000_0000_0000_0000_0000,
        decreases 100 - j,
    {
        let wide: u128 = 4 * unit;
        assert(wide * HIGH <= y) by (nonlinear_arith)
            requires
                y / wide >= HIGH,
                wide > 0,
        ;
        proof {
            if j >= 66 {
                lemma_power_monotone(66, j as nat);
                assert(power_of_two(66) * HIGH <= wide * HIGH) by (nonlinear_arith)
                    requires
                        power_of_two(66) <= wide,
                ;
            }
        }
        assert(unit <= 0x1_0000_0000_0000_0000) by (nonlinear_arith)
            requires
                4 * unit * HIGH <= y,
                y < 0x80_0000_0000_0000_0000_0000_0000_0000u128,
                HIGH == 0x20_0000_0000_0000u128,
        ;
        unit = 2 * unit;
        j += 1;
    }
    let wide: u128 = 4 * unit;
    assert(y < wide * HIGH) by (nonlinear_arith)
        requires
            y / wide < HIGH,
            wide > 0,
    ;
    let m = round_half_even(y, wide);
    let ghost top = num * power_of_two(k as nat);
    proof {
        lemma_keeps_bits(y as nat, top, den, unit as nat);
        lemma_keeps_rounds(y as nat, top, den, unit as nat);
        lemma_nearest_kept(num, den, k as nat, j as nat);
        lemma_half_even_bounds(y as nat, wide as nat);
        if j > k {
            lemma_power_monotone((j - k) as nat, 66);
        }
        assert(power_of_two(66) == 0x4_0000_0000_0000_0000) by {
            lemma_power_sum(54, 12);
            reveal_with_fuel(power_of_two, 14);
            assert(power_of_two(12) == 0x1000);
        }
    }
    if j <= k {
        Fraction { num: m, den: two_to(k - j) }
    } else {
        let scale = two_to(j - k);
        assert(scale * m <= 0x4_0000_0000_0000_0000 * HIGH) by (nonlinear_arith)
            requires
                scale <= 0x4_0000_0000_0000_0000,
                m <= HIGH,
        ;
        Fraction { num: scale * m, den: 1 }
    }
}

// ---------------------------------------------------------------------------
// Products
// ---------------------------------------------------------------------------
/// The whole part of `num / den` times `factor`: the quotient is rounded,
/// then its product.
pub open spec fn whole_product(num: nat, den: nat, factor: nat) -> nat {
    let value = nearest(num, den);
    nearest(value.num * factor, 1).num / value.den
}

/// The whole part of `num / den` times `factor`, where `y` is kept of the
/// `2^k`-fold of `num / den`.
pub(crate) fn multiply_kept(
    y: u128,
    k: u64,
    factor: u64,
    Ghost(num): Ghost<nat>,
    Ghost(den): Ghost<nat>,
) -> (out: u128)
    requires
        den > 0,
        k <= 85,
        0x80_0000_0000_0000 <= y < 0x80_0000_0000_0000_0000_0000_0000_0000,
        keeps(y as nat, num * power_of_two(k as nat), den),
        num <= den * 0x200_0000_0000_0000,
        0 < factor <= 31_536_000,
    ensures
        out == whole_product(num, den, factor as nat),
{
    let value = round_kept(y, k, Ghost(num), Ghost(den));
    proof {
        lemma_nearest(num, den);
        assert(value.num <= 0x400_0000_0000_0000) by {
            if num >= den * HIGH {
                assert(num >= den * LOW) by (nonlinear_arith)
                    requires
                        num >= den * HIGH,
                        HIGH == 2 * LOW,
                ;
                assert(value.num <= 0x400_0000_0000_0000) by (nonlinear_arith)
                    requires
                        value.num * den <= 2 * num,
                        num <= den * 0x200_0000_0000_0000,
                        den > 0,
                ;
            }
        }
        assert(value.num * factor <= 0x400_0000_0000_0000 * 31_536_000) by (nonlinear_arith)
            requires
                value.num <= 0x400_0000_0000_0000,
                factor <= 31_536_000,
        ;
    }
    let product = round_nearest(value.num * factor as u128, 1);
    product.num / value.den
}

/// The product of a small number has no whole part.
pub(crate) proof fn lemma_product_small(num: nat, den: nat, factor: nat)
    requires
        num * 0x4000_0000 < den,
        factor <= 31_536_000,
    ensures
        whole_product(num, den, factor) == 0,
{
    let value = nearest(num, den);
    let scaled = value.num * factor;
    let product = nearest(scaled, 1);
    lemma_nearest(num, den);
    lemma_nearest_close(num, den);
    lemma_nearest(scaled, 1);
    lemma_nearest_close(scaled, 1);
    assert(product.num < value.den) by {
        if num == 0 {
            assert(0 * factor == 0) by (nonlinear_arith);
        } else if factor == 0 {
            assert(value.num * 0 == 0) by (nonlinear_arith);
        } else {
            assert(scaled >= LOW) by (nonlinear_arith)
                requires
                    scaled == value.num * factor,
                    value.num >= LOW,
                    factor >= 1,
            ;
            assert(product.num <= 2 * scaled);
            assert(product.num * den <= 2 * (value.num * den) * factor) by (nonlinear_arith)
                requires
                    product.num <= 2 * scaled,
                    scaled == value.num * factor,
            ;
            assert(2 * (value.num * den) * factor <= 4 * (num * value.den) * 31_536_000)
                by (nonlinear_arith)
                requires
                    value.num * den <= 2 * (num * value.den),
                    factor <= 31_536_000,
            ;
            assert((num * 0x4000_0000) * value.den <= den * value.den) by (nonlinear_arith)
                requires
                    num * 0x4000_0000 < den,
            ;
            assert(4 * (num * value.den) * 31_536_000 < (num * 0x4000_0000) * value.den)
                by (nonlinear_arith)
                requires
                    num > 0,
                    value.den > 0,
            ;
            assert(product.num < value.den) by (nonlinear_arith)
                requires
                    product.num * den < den * value.den,
            ;
        }
    }
    vstd::arithmetic::div_mod::lemma_basic_div(product.num as int, value.den as int);
}

/// The product of a large number is large.
pub(crate) proof fn lemma_product_large(num: nat, den: nat, factor: nat)
    requires
        den > 0,
        num >= den * 0x100_0000_0000_0000,
        factor > 0,
    ensures
        whole_product(num, den, factor) >= 0x40_0000_0000_0000,
{
    let value = nearest(num, den);
    let scaled = value.num * factor;
    let product = nearest(scaled, 1);
    lemma_nearest(num, den);
    lemma_nearest_close(num, den);
    lemma_nearest(scaled, 1);
    lemma_nearest_close(scaled, 1);
    assert(num > 0 && num >= den * LOW) by (nonlinear_arith)
        requires
            num >= den * 0x100_0000_0000_0000,
            den > 0,
            LOW == 0x10_0000_0000_0000u128,
    ;
    assert(value.den == 1);
    assert(value.num >= 0x80_0000_0000_0000) by (nonlinear_arith)
        requires
            num * 1 <= 2 * (value.num * den),
            num >= den * 0x100_0000_0000_0000,
            den > 0,
    ;
    assert(scaled >= 0x80_0000_0000_0000) by (nonlinear_arith)
        requires
            scaled == value.num * factor,
            value.num >= 0x80_0000_0000_0000,
            factor >= 1,
    ;
    assert(product.den == 1);
    assert(scaled * 1 == scaled && product.num * 1 == product.num);
    assert(product.num >= 0x40_0000_0000_0000);
    vstd::arithmetic::div_mod::lemma_div_basics(product.num as int);
}

/// Rounding scales by powers of two.
proof fn lemma_denominator(num: nat, den: nat) -> (j: nat)
    requires
        den > 0,
    ensures
        nearest(num, den).den == power_of_two(j),
    decreases distance(num, den),
{
    assert(den * HIGH == 2 * (den * LOW));
    if num >= den * HIGH {
        lemma_denominator(num, 2 * den)
    } else if 0 < num < den * LOW {
        let j = lemma_denominator(2 * num, den);
        j + 1
    } else {
        0
    }
}

/// An integer of at most 53 bits is not rounded.
proof fn lemma_nearest_exact(num: nat)
    requires
        num < HIGH,
    ensures
        nearest(num, 1).num == num * nearest(num, 1).den,
    decreases distance(num, 1),
{
    if 0 < num < LOW {
        lemma_nearest_exact(2 * num);
        let twice = nearest(2 * num, 1);
        assert((2 * num) * twice.den == num * (2 * twice.den)) by (nonlinear_arith);
    } else {
        assert(num / 1 == num && num % 1 == 0);
        assert(num * 1 == num);
    }
}

/// Nor is its product with a power of two.
proof fn lemma_nearest_shifted(m: nat, i: nat, d: nat)
    requires
        m < HIGH,
        d <= i,
        m * power_of_two(i) >= power_of_two(d) * LOW,
    ensures
        nearest(m * power_of_two(i), power_of_two(d)).num * power_of_two(d) == m * power_of_two(i),
    decreases i - d,
{
    let num = m * power_of_two(i);
    let den = power_of_two(d);
    let c = power_of_two((i - d) as nat);
    lemma_power_positive(d);
    lemma_power_sum((i - d) as nat, d);
    assert(num == (m * c) * den) by (nonlinear_arith)
        requires
            num == m * (c * den),
    ;
    if num >= den * HIGH {
        assert(d < i) by {
            if d == i {
                assert(m * den < den * HIGH) by (nonlinear_arith)
                    requires
                        m < HIGH,
                        den > 0,
                ;
            }
        }
        assert((2 * den) * LOW == den * HIGH) by (nonlinear_arith)
            requires
                HIGH == 2 * LOW,
        ;
        lemma_nearest_shifted(m, i, d + 1);
        let half = nearest(num, 2 * den);
        assert((2 * half.num) * den == half.num * (2 * den)) by (nonlinear_arith);
    } else {
        assert(num > 0 && m * c > 0) by (nonlinear_arith)
            requires
                num >= den * LOW,
                den > 0,
                LOW > 0,
                num == (m * c) * den,
        ;
        vstd::arithmetic::div_mod::lemma_fundamental_div_mod_converse(
            num as int,
            den as int,
            (m * c) as int,
            0,
        );
    }
}

/// A product of at most 53 bits is not rounded.
pub(crate) proof fn lemma_product_exact(num: nat, factor: nat)
    requires
        num < HIGH,
        num * factor < HIGH,
        factor > 0,
    ensures
        whole_product(num, 1, factor) == num * factor,
{
    let value = nearest(num, 1);
    lemma_nearest(num, 1);
    lemma_nearest_exact(num);
    let i = lemma_denominator(num, 1);
    let m = num * factor;
    assert(value.num * factor == m * value.den) by (nonlinear_arith)
        requires
            value.num == num * value.den,
            m == num * factor,
    ;
    if num == 0 {
        assert(0 * factor == 0) by (nonlinear_arith);
        lemma_nearest(0, 1);
    } else {
        assert(value.num * factor >= LOW) by (nonlinear_arith)
            requires
                value.num >= LOW,
                factor >= 1,
        ;
        assert(power_of_two(0) == 1);
        lemma_nearest_shifted(m, i, 0);
        vstd::arithmetic::div_mod::lemma_fundamental_div_mod_converse(
            (m * value.den) as int,
            value.den as int,
            m as int,
            0,
        );
    }
}

// ---------------------------------------------------------------------------
// Order
// ---------------------------------------------------------------------------
/// `a` is at most `b`.
pub open spec fn at_most(a: Ratio, b: Ratio) -> bool {
    a.num * b.den <= b.num * a.den
}

proof fn lemma_half_even_monotone(a: nat, b: nat, c: nat, d: nat)
    requires
        b > 0,
        d > 0,
        a * d <= c * b,
    ensures
        half_even(a, b) <= half_even(c, d),
{
    let q = a / b;
    let r = a % b;
    let u = c / d;
    let v = c % d;
    assert(a == q * b + r && r < b) by (nonlinear_arith)
        requires
            q == a / b,
            r == a % b,
            b > 0,
    ;
    assert(c == u * d + v && v < d) by (nonlinear_arith)
        requires
            u == c / d,
            v == c % d,
            d > 0,
    ;
    assert(q <= u) by (nonlinear_arith)
        requires
            a == q * b + r,
            c == u * d + v,
            v < d,
            a * d <= c * b,
            b > 0,
            d > 0,
            r >= 0,
    ;
    if q == u {
        assert(r * d <= v * b) by (nonlinear_arith)
            requires
                a == q * b + r,
                c == q * d + v,
                a * d <= c * b,
        ;
        assert(2 * r > b ==> 2 * v > d) by (nonlinear_arith)
            requires
                r * d <= v * b,
                b > 0,
                d > 0,
        ;
        assert(2 * r == b ==> 2 * v >= d) by (nonlinear_arith)
            requires
                r * d <= v * b,
                b > 0,
                d > 0,
        ;
    }
}

/// A small number is rounded to a small number.
proof fn lemma_nearest_below(num: nat, den: nat)
    requires
        den > 0,
        num < den * LOW,
    ensures
        nearest(num, den).num <= LOW * nearest(num, den).den,
    decreases distance(num, den),
{
    assert(den * HIGH == 2 * (den * LOW));
    if num > 0 {
        let twice = nearest(2 * num, den);
        if 2 * num < den * LOW {
            lemma_nearest_below(2 * num, den);
            assert(LOW * (2 * twice.den) >= LOW * twice.den) by (nonlinear_arith);
        } else {
            lemma_nearest(2 * num, den);
            assert(LOW * (2 * 1) == HIGH);
        }
    } else {
        lemma_nearest(0, den);
    }
}

/// Rounding keeps the order of numbers.
pub proof fn lemma_nearest_monotone(a: nat, b: nat, c: nat, d: nat)
    requires
        b > 0,
        d > 0,
        a * d <= c * b,
    ensures
        at_most(nearest(a, b), nearest(c, d)),
    decreases distance(a, b),
{
    let x = nearest(a, b);
    let y = nearest(c, d);
    lemma_nearest(a, b);
    lemma_nearest(c, d);
    assert(b * HIGH == 2 * (b * LOW));
    assert(d * HIGH == 2 * (d * LOW));
    assert(c < d * LOW ==> a < b * LOW) by (nonlinear_arith)
        requires
            a * d <= c * b,
            b > 0,
            d > 0,
    ;
    assert(c < d * HIGH ==> a < b * HIGH) by (nonlinear_arith)
        requires
            a * d <= c * b,
            b > 0,
            d > 0,
    ;
    if a == 0 {
        assert(0 * y.den <= y.num * 1) by (nonlinear_arith)
            requires
                y.num >= 0,
        ;
    } else if a >= b * HIGH {
        assert(a * (2 * d) <= c * (2 * b)) by (nonlinear_arith)
            requires
                a * d <= c * b,
        ;
        lemma_nearest_monotone(a, 2 * b, c, 2 * d);
        let xh = nearest(a, 2 * b);
        let yh = nearest(c, 2 * d);
        assert((2 * xh.num) * yh.den <= (2 * yh.num) * xh.den) by (nonlinear_arith)
            requires
                xh.num * yh.den <= yh.num * xh.den,
        ;
    } else if c >= d * HIGH {
        let yh = nearest(c, 2 * d);
        lemma_nearest(c, 2 * d);
        assert((2 * d) * LOW == d * HIGH);
        assert(yh.num > 0 && y.den == 1 && y.num >= HIGH);
        if a < b * LOW {
            lemma_nearest_below(a, b);
            assert(x.num * 1 <= y.num * x.den) by (nonlinear_arith)
                requires
                    x.num <= LOW * x.den,
                    y.num >= LOW,
            ;
        } else {
            assert(x.num * 1 <= y.num * 1);
        }
    } else if a >= b * LOW {
        lemma_half_even_monotone(a, b, c, d);
    } else if c >= d * LOW {
        lemma_nearest_below(a, b);
        lemma_half_even_bounds(c, d);
        assert(x.num * 1 <= y.num * x.den) by (nonlinear_arith)
            requires
                x.num <= LOW * x.den,
                y.num >= LOW,
        ;
    } else {
        assert(c > 0) by (nonlinear_arith)
            requires
                a * d <= c * b,
                a > 0,
                d > 0,
        ;
        assert((2 * a) * d <= (2 * c) * b) by (nonlinear_arith)
            requires
                a * d <= c * b,
        ;
        lemma_nearest_monotone(2 * a, b, 2 * c, d);
        let xt = nearest(2 * a, b);
        let yt = nearest(2 * c, d);
        assert(xt.num * (2 * yt.den) <= yt.num * (2 * xt.den)) by (nonlinear_arith)
            requires
                xt.num * yt.den <= yt.num * xt.den,
        ;
    }
}

/// Half of a number is rounded to half of what the number is rounded to.
proof fn lemma_nearest_half(num: nat, den: nat)
    requires
        den > 0,
    ensures
        nearest(num, den).num * nearest(num, 2 * den).den == (2 * nearest(num, 2 * den).num)
            * nearest(num, den).den,
    decreases distance(num, den),
{
    assert(den * HIGH == 2 * (den * LOW));
    assert((2 * den) * LOW == den * HIGH && (2 * den) * HIGH == 2 * (den * HIGH));
    if num == 0 {
        lemma_nearest(0, den);
        lemma_nearest(0, 2 * den);
    } else if num >= den * HIGH {
    } else if num >= den * LOW {
        lemma_half_even_scale(num, den, 2);
        let h = half_even(num, den);
        assert(half_even(2 * num, 2 * den) == h) by {
            assert(num * 2 == 2 * num && den * 2 == 2 * den);
        }
        assert(nearest(2 * num, 2 * den) == (Ratio { num: h, den: 1 }));
        assert(nearest(num, 2 * den) == (Ratio { num: h, den: 2 }));
        assert(h * 2 == (2 * h) * 1);
    } else {
        lemma_nearest_half(2 * num, den);
        let t = nearest(2 * num, den);
        let u = nearest(2 * num, 2 * den);
        assert(t.num * (2 * u.den) == (2 * u.num) * (2 * t.den)) by (nonlinear_arith)
            requires
                t.num * u.den == (2 * u.num) * t.den,
        ;
    }
}

/// The same of any power of two.
proof fn lemma_nearest_scaled(num: nat, den: nat, k: nat)
    requires
        den > 0,
    ensures
        nearest(num, den).num * nearest(num, den * power_of_two(k)).den == (nearest(
            num,
            den * power_of_two(k),
        ).num * power_of_two(k)) * nearest(num, den).den,
    decreases k,
{
    if k == 0 {
        assert(den * 1 == den);
        let x = nearest(num, den);
        assert(x.num * x.den == (x.num * 1) * x.den) by (nonlinear_arith);
    } else {
        let p = power_of_two((k - 1) as nat);
        lemma_power_positive((k - 1) as nat);
        lemma_nearest_scaled(num, den, (k - 1) as nat);
        let d = den * p;
        assert(d > 0) by (nonlinear_arith)
            requires
                d == den * p,
                den > 0,
                p > 0,
        ;
        assert(den * (2 * p) == 2 * d) by (nonlinear_arith)
            requires
                d == den * p,
        ;
        lemma_nearest_half(num, d);
        lemma_nearest(num, d);
        let x = nearest(num, den);
        let y = nearest(num, d);
        let z = nearest(num, 2 * d);
        // x * y.den == y * p * x.den and y * z.den == 2 * z * y.den
        assert(y.den * (x.num * z.den) == y.den * ((z.num * (2 * p)) * x.den)) by (nonlinear_arith)
            requires
                x.num * y.den == (y.num * p) * x.den,
                y.num * z.den == (2 * z.num) * y.den,
        ;
        assert(x.num * z.den == (z.num * (2 * p)) * x.den) by (nonlinear_arith)
            requires
                y.den * (x.num * z.den) == y.den * ((z.num * (2 * p)) * x.den),
                y.den > 0,
        ;
    }
}

/// Equal fractions stand in the same order.
proof fn lemma_order_of_equals(a: Ratio, b: Ratio, c: Ratio, d: Ratio)
    requires
        a.den > 0,
        b.den > 0,
        c.den > 0,
        d.den > 0,
        a.num * c.den == c.num * a.den,
        b.num * d.den == d.num * b.den,
        at_most(a, b),
    ensures
        at_most(c, d),
{
    let x = c.num * d.den;
    let y = d.num * c.den;
    let k = a.den * b.den;
    assert(k > 0) by (nonlinear_arith)
        requires
            k == a.den * b.den,
            a.den > 0,
            b.den > 0,
    ;
    assert(x * k == (a.num * b.den) * (c.den * d.den)) by (nonlinear_arith)
        requires
            x == c.num * d.den,
            k == a.den * b.den,
            a.num * c.den == c.num * a.den,
    ;
    assert(y * k == (b.num * a.den) * (c.den * d.den)) by (nonlinear_arith)
        requires
            y == d.num * c.den,
            k == a.den * b.den,
            b.num * d.den == d.num * b.den,
    ;
    assert(x * k <= y * k) by (nonlinear_arith)
        requires
            x * k == (a.num * b.den) * (c.den * d.den),
            y * k == (b.num * a.den) * (c.den * d.den),
            a.num * b.den <= b.num * a.den,
    ;
    assert(x <= y) by (nonlinear_arith)
        requires
            x * k <= y * k,
            k > 0,
    ;
}

/// A tenth of a percentage, as [`filled_blocks`] computes it.
spec fn tenth(num: nat, k: nat) -> Ratio {
    let share = nearest(num, 100);
    Ratio { num: nearest(10 * share.num, 1).num, den: share.den * power_of_two(k) }
}

/// A tenth of a percentage is a rounded number, and so is its hundredth part
/// before it.
proof fn lemma_tenth(num: nat, k: nat)
    requires
        num > 0,
    ensures
        ({
            let share = nearest(num, 100);
            let den = share.den * power_of_two(k);
            let hundredth = nearest(num, 100 * power_of_two(k));
            let out = nearest(10 * share.num, den);
            &&& den > 0
            &&& hundredth.den > 0
            &&& out.den > 0
            &&& share.num * hundredth.den == hundredth.num * den
            &&& tenth(num, k).num * out.den == out.num * den
        }),
{
    let share = nearest(num, 100);
    let p = power_of_two(k);
    let den = share.den * p;
    let hundredth = nearest(num, 100 * p);
    lemma_power_positive(k);
    lemma_nearest(num, 100);
    lemma_nearest(num, 100 * p);
    lemma_nearest_scaled(num, 100, k);
    assert((hundredth.num * p) * share.den == hundredth.num * den) by (nonlinear_arith)
        requires
            den == share.den * p,
    ;
    assert(den > 0) by (nonlinear_arith)
        requires
            den == share.den * p,
            share.den > 0,
            p > 0,
    ;
    let j = lemma_denominator(num, 100);
    lemma_power_sum(j, k);
    let s = 10 * share.num;
    let out = nearest(s, den);
    lemma_nearest(s, 1);
    lemma_nearest(s, den);
    lemma_nearest_scaled(s, 1, j + k);
    assert(1 * den == den);
    let whole = nearest(s, 1);
    assert(whole.den == 1);
    assert((out.num * den) * 1 == out.num * den);
}

/// A larger percentage fills no fewer blocks.
pub(crate) proof fn lemma_filled_blocks_monotone(a: nat, i: nat, b: nat, j: nat)
    requires
        a > 0,
        b > 0,
        a * power_of_two(j) <= b * power_of_two(i),
    ensures
        filled_blocks(Ratio { num: a, den: power_of_two(i) }) <= filled_blocks(
            Ratio { num: b, den: power_of_two(j) },
        ) <= 10,
{
    let p = power_of_two(i);
    let q = power_of_two(j);
    lemma_power_positive(i);
    lemma_power_positive(j);
    assert(a >= 100 * p ==> b >= 100 * q) by (nonlinear_arith)
        requires
            a * q <= b * p,
            p > 0,
            q > 0,
    ;
    if a < 100 * p && b < 100 * q {
        lemma_tenth(a, i);
        lemma_tenth(b, j);
        let x = nearest(a, 100);
        let y = nearest(b, 100);
        let xd = x.den * p;
        let yd = y.den * q;
        assert(a * (100 * q) <= b * (100 * p)) by (nonlinear_arith)
            requires
                a * q <= b * p,
        ;
        lemma_nearest_monotone(a, 100 * p, b, 100 * q);
        let xs = Ratio { num: x.num, den: xd };
        let ys = Ratio { num: y.num, den: yd };
        lemma_order_of_equals(nearest(a, 100 * p), nearest(b, 100 * q), xs, ys);
        assert((10 * x.num) * yd <= (10 * y.num) * xd) by (nonlinear_arith)
            requires
                x.num * yd <= y.num * xd,
        ;
        lemma_nearest_monotone(10 * x.num, xd, 10 * y.num, yd);
        let s = tenth(a, i);
        let t = tenth(b, j);
        lemma_order_of_equals(nearest(10 * x.num, xd), nearest(10 * y.num, yd), s, t);
        let k = (2 * s.num + xd) / (2 * xd);
        let l = (2 * t.num + yd) / (2 * yd);
        assert(k * (2 * xd) <= 2 * s.num + xd) by (nonlinear_arith)
            requires
                k == (2 * s.num + xd) / (2 * xd),
                xd > 0,
        ;
        assert((k * (2 * yd)) * xd <= (2 * t.num + yd) * xd) by (nonlinear_arith)
            requires
                k * (2 * xd) <= 2 * s.num + xd,
                s.num * yd <= t.num * xd,
                yd > 0,
        ;
        assert(k * (2 * yd) <= 2 * t.num + yd) by (nonlinear_arith)
            requires
                (k * (2 * yd)) * xd <= (2 * t.num + yd) * xd,
                xd > 0,
        ;
        assert(k <= l) by (nonlinear_arith)
            requires
                k * (2 * yd) <= 2 * t.num + yd,
                l == (2 * t.num + yd) / (2 * yd),
                yd > 0,
        ;
    }
}

/// Rounding to 53 bits changes a number by at most a 2^53rd of it.
proof fn lemma_nearest_error(num: nat, den: nat)
    requires
        den > 0,
    ensures
        ({
            let out = nearest(num, den);
            let exact = num * out.den;
            -exact <= (out.num * den - exact) * HIGH <= exact
        }),
    decreases distance(num, den),
{
    let out = nearest(num, den);
    assert(den * HIGH == 2 * (den * LOW));
    if num >= den * HIGH {
        lemma_nearest_error(num, 2 * den);
        let half = nearest(num, 2 * den);
        assert((2 * half.num) * den == half.num * (2 * den)) by (nonlinear_arith);
    } else if 0 < num < den * LOW {
        lemma_nearest_error(2 * num, den);
        let twice = nearest(2 * num, den);
        assert(num * (2 * twice.den) == (2 * num) * twice.den) by (nonlinear_arith);
        let exact = num * out.den;
        assert(exact == (2 * num) * twice.den);
    } else {
        let q = num / den;
        let r = num % den;
        assert(num == q * den + r && r < den) by (nonlinear_arith)
            requires
                q == num / den,
                r == num % den,
                den > 0,
        ;
        assert((q + 1) * den == q * den + den) by (nonlinear_arith);
        if num == 0 {
            assert(r == 0) by (nonlinear_arith)
                requires
                    r == 0nat % den,
                    den > 0,
            ;
        }
        let gap = out.num * den - num;
        assert(-den <= 2 * gap <= den);
        assert(-(den * LOW) <= gap * HIGH <= den * LOW);
    }
}

/// The blocks that a percentage below a hundred fills are a tenth of it,
/// rounded to the nearest whole number, up to a 2^44th of a percent.
pub(crate) proof fn lemma_filled_blocks_close(num: nat, k: nat)
    requires
        0 < num < 100 * power_of_two(k),
    ensures
        ({
            let one = power_of_two(k);
            let gap = 10 * (filled_blocks(Ratio { num, den: one }) * one) - num;
            let bound = 5 * (BAR_PRECISION * one) + one;
            -bound <= gap * BAR_PRECISION <= bound
        }),
{
    let one = power_of_two(k);
    let share = nearest(num, 100);
    let scaled = nearest(10 * share.num, 1).num;
    let den = share.den * one;
    lemma_power_positive(k);
    lemma_nearest(num, 100);
    lemma_nearest(10 * share.num, 1);
    lemma_nearest_error(num, 100);
    lemma_nearest_error(10 * share.num, 1);
    let exact = num * share.den;
    assert(exact <= 100 * den) by (nonlinear_arith)
        requires
            exact == num * share.den,
            num < 100 * one,
            den == share.den * one,
    ;
    assert(den > 0) by (nonlinear_arith)
        requires
            den == share.den * one,
            share.den > 0,
            one > 0,
    ;
    let off = 10 * scaled - exact;
    assert(-den <= off * BAR_PRECISION <= den);
    let blocks = (2 * scaled + den) / (2 * den);
    let rest = (2 * scaled + den) % (2 * den);
    assert(2 * scaled + den == 2 * (blocks * den) + rest && rest < 2 * den) by (nonlinear_arith)
        requires
            blocks == (2 * scaled + den) / (2 * den),
            rest == (2 * scaled + den) % (2 * den),
            den > 0,
    ;
    let gap = 10 * (blocks * one) - num;
    let wide = 10 * (blocks * den) - exact;
    assert(wide == gap * share.den) by (nonlinear_arith)
        requires
            wide == 10 * (blocks * den) - exact,
            gap == 10 * (blocks * one) - num,
            den == share.den * one,
            exact == num * share.den,
    ;
    assert(-(5 * den) <= wide - off <= 5 * den);
    let bound = 5 * (BAR_PRECISION * one) + one;
    assert(5 * (BAR_PRECISION * den) + den == bound * share.den) by (nonlinear_arith)
        requires
            bound == 5 * (BAR_PRECISION * one) + one,
            den == share.den * one,
    ;
    let scaled_gap = gap * BAR_PRECISION;
    assert(wide * BAR_PRECISION == scaled_gap * share.den) by (nonlinear_arith)
        requires
            wide == gap * share.den,
            scaled_gap == gap * BAR_PRECISION,
    ;
    let wide_bound = 5 * (BAR_PRECISION * den) + den;
    assert(-wide_bound <= wide * BAR_PRECISION <= wide_bound);
    assert(-bound <= scaled_gap <= bound) by (nonlinear_arith)
        requires
            -(bound * share.den) <= scaled_gap * share.den <= bound * share.den,
            share.den > 0,
    ;
    if blocks > 10 {
        assert(0 <= 10 * (10 * one) - num <= gap) by (nonlinear_arith)
            requires
                num < 100 * one,
                gap == 10 * (blocks * one) - num,
                blocks > 10,
        ;
    }
}

/// The nearest integer is off by at most a half.
pub(crate) proof fn lemma_half_even_error(num: nat, den: nat)
    requires
        den > 0,
    ensures
        -den <= 2 * (half_even(num, den) * den - num) <= den,
{
    let q = num / den;
    let r = num % den;
    assert(num == q * den + r && r < den) by (nonlinear_arith)
        requires
            q == num / den,
            r == num % den,
            den > 0,
    ;
    assert((q + 1) * den == q * den + den) by (nonlinear_arith);
}

/// An integer as a binary64 number is off by at most a 2^53rd of it.
pub(crate) proof fn lemma_rounded_integer(n: nat)
    ensures
        n < HIGH ==> rounded_integer(n) == n,
        -n <= (rounded_integer(n) - n) * HIGH <= n,
{
    if n >= HIGH {
        lemma_nearest(n, 1);
        lemma_nearest_error(n, 1);
        assert(n * 1 == n);
        assert(rounded_integer(n) * 1 == rounded_integer(n));
    } else {
        assert((n - n) * HIGH == 0);
    }
}

/// A percentage is the hundredfold of the share, up to three parts in 2^53,
/// and exactly none where there is no part.
pub proof fn law_percentage(part: nat, whole: nat)
    requires
        0 < whole < 0x20_0000_0000_0000,
        part < 0x20_0000_0000_0000,
    ensures
        ({
            let percent = percentage(part, whole);
            let exact = 100 * (part * percent.den);
            &&& percent.den > 0
            &&& -(3 * exact) <= (percent.num * whole - exact) * 0x20_0000_0000_0000 <= 3 * exact
        }),
        percentage(part, 0).num == 0,
{
    let share = nearest(part, whole);
    let wide = 100 * share.num;
    let scaled = nearest(wide, 1);
    let percent = percentage(part, whole);
    lemma_nearest(part, whole);
    lemma_nearest(wide, 1);
    lemma_nearest_error(part, whole);
    lemma_nearest_error(wide, 1);
    let base = part * share.den;
    let exact = 100 * base;
    let off = share.num * whole - base;
    if part == 0 {
        assert(percent.num == 0);
        assert(0 * share.den == 0) by (nonlinear_arith);
        assert(0 * whole == 0) by (nonlinear_arith);
    } else {
        assert(scaled.den == 1);
        assert(wide * 1 == wide && scaled.num * 1 == scaled.num);
        let slip = scaled.num - wide;
        assert(percent.num * whole - exact == slip * whole + 100 * off) by (nonlinear_arith)
            requires
                percent.num == scaled.num,
                slip == scaled.num - wide,
                wide == 100 * share.num,
                off == share.num * whole - base,
                exact == 100 * base,
        ;
        let lost = slip * whole;
        assert(-(100 * (share.num * whole)) <= lost * HIGH <= 100 * (share.num * whole))
            by (nonlinear_arith)
            requires
                -wide <= slip * HIGH <= wide,
                lost == slip * whole,
                wide == 100 * share.num,
                whole > 0,
        ;
        assert(-base <= off <= base);
        assert(share.num * whole == base + off);
    }
}

/// Rounding gives the nearest integer, and of two that are equally near the
/// even one.
pub proof fn law_half_even(num: nat, den: nat)
    requires
        den > 0,
    ensures
        -den <= 2 * (half_even(num, den) * den - num) <= den,
        2 * (half_even(num, den) * den - num) == den || 2 * (half_even(num, den) * den - num)
            == -den ==> half_even(num, den) % 2 == 0,
{
    lemma_half_even_error(num, den);
    let q = num / den;
    let r = num % den;
    assert(num == q * den + r && r < den) by (nonlinear_arith)
        requires
            q == num / den,
            r == num % den,
            den > 0,
    ;
    assert((q + 1) * den == q * den + den) by (nonlinear_arith);
}

/// The whole part of a product lies less than one below the product, up to
/// three parts in 2^53.
pub(crate) proof fn lemma_product_close(num: nat, den: nat, factor: nat)
    requires
        den > 0,
        factor > 0,
    ensures
        ({
            let out = whole_product(num, den, factor);
            let exact = num * factor;
            &&& (out * den) * HIGH <= exact * HIGH + 3 * exact
            &&& exact * HIGH - 3 * exact < ((out + 1) * den) * HIGH
        }),
{
    let value = nearest(num, den);
    let scaled = value.num * factor;
    let product = nearest(scaled, 1);
    let out = whole_product(num, den, factor);
    let exact = num * factor;
    lemma_nearest(num, den);
    lemma_nearest_error(num, den);
    lemma_nearest(scaled, 1);
    lemma_nearest_error(scaled, 1);
    if num == 0 {
        assert(0 * factor == 0) by (nonlinear_arith);
        assert(scaled == 0) by (nonlinear_arith)
            requires
                scaled == value.num * factor,
                value.num == 0,
        ;
        assert(out == 0);
        assert(0 * den == 0) by (nonlinear_arith);
        assert((0 + 1) * den == den) by (nonlinear_arith);
    } else {
        assert(scaled >= LOW) by (nonlinear_arith)
            requires
                scaled == value.num * factor,
                value.num >= LOW,
                factor >= 1,
        ;
        assert(product.den == 1);
        assert(scaled * 1 == scaled && product.num * 1 == product.num);
        let vd = value.den;
        let base = num * vd;
        let off = value.num * den - base;
        let slip = product.num - scaled;
        // The product against the exact one, both times den and value.den.
        let whole = exact * vd;
        let gap = product.num * den - whole;
        assert(gap == slip * den + off * factor) by (nonlinear_arith)
            requires
                gap == product.num * den - whole,
                whole == (num * factor) * vd,
                base == num * vd,
                slip == product.num - scaled,
                scaled == value.num * factor,
                off == value.num * den - base,
        ;
        assert(base * factor == whole) by (nonlinear_arith)
            requires
                whole == (num * factor) * vd,
                base == num * vd,
        ;
        let first = off * factor;
        assert(-whole <= first * HIGH <= whole) by (nonlinear_arith)
            requires
                -base <= off * HIGH <= base,
                first == off * factor,
                base * factor == whole,
                factor > 0,
        ;
        let second = slip * den;
        let wide = scaled * den;
        assert(-wide <= second * HIGH <= wide) by (nonlinear_arith)
            requires
                -scaled <= slip * HIGH <= scaled,
                second == slip * den,
                wide == scaled * den,
                den > 0,
        ;
        assert(wide == whole + first) by (nonlinear_arith)
            requires
                wide == (value.num * factor) * den,
                first == off * factor,
                off == value.num * den - base,
                base * factor == whole,
        ;
        assert(-(3 * whole) <= gap * HIGH <= 3 * whole);
        let rest = product.num % vd;
        assert(product.num == out * vd + rest && 0 <= rest < vd) by (nonlinear_arith)
            requires
                out == product.num / vd,
                rest == product.num % vd,
                vd > 0,
        ;
        let low = (out * den) * HIGH;
        let high = ((out + 1) * den) * HIGH;
        assert(low * vd <= (product.num * den) * HIGH) by (nonlinear_arith)
            requires
                low == (out * den) * HIGH,
                product.num == out * vd + rest,
                rest >= 0,
                den > 0,
        ;
        assert(high * vd > (product.num * den) * HIGH) by (nonlinear_arith)
            requires
                high == ((out + 1) * den) * HIGH,
                product.num == out * vd + rest,
                rest < vd,
                den > 0,
                HIGH > 0,
        ;
        assert((product.num * den) * HIGH == whole * HIGH + gap * HIGH) by (nonlinear_arith)
            requires
                gap == product.num * den - whole,
        ;
        let top = exact * HIGH + 3 * exact;
        let bottom = exact * HIGH - 3 * exact;
        assert(top * vd == whole * HIGH + 3 * whole) by (nonlinear_arith)
            requires
                top == exact * HIGH + 3 * exact,
                whole == exact * vd,
        ;
        assert(bottom * vd == whole * HIGH - 3 * whole) by (nonlinear_arith)
            requires
                bottom == exact * HIGH - 3 * exact,
                whole == exact * vd,
        ;
        assert(low <= top) by (nonlinear_arith)
            requires
                low * vd <= top * vd,
                vd > 0,
        ;
        assert(bottom < high) by (nonlinear_arith)
            requires
                bottom * vd < high * vd,
                vd > 0,
        ;
    }
}

} // verus!
