//! Single-precision numbers, held by their bit patterns.
//!
//! The library never computes with machine floats. A [`Real`] is the IEEE 754 binary32 encoding
//! of a number; the few operations that the trainer's decisions rest on are carried out on the
//! encoding, in integers, and rounded as the standard prescribes (to nearest, ties to even).
use vstd::arithmetic::div_mod::lemma_fundamental_div_mod;
use vstd::arithmetic::power2::{
    lemma2_to64, lemma_pow2_adds, lemma_pow2_pos, lemma_pow2_strictly_increases, pow2,
};
use vstd::prelude::*;

verus! {

/// An IEEE 754 binary32 number.
#[derive(Clone, Copy, Debug, PartialEq, Eq, Structural)]
pub struct Real {
    /// Sign bit, eight exponent bits, twenty-three fraction bits.
    pub bits: u32,
}

/// Weight of the lowest exponent bit: one more than the largest fraction.
pub const HIDDEN_BIT: u32 = 0x80_0000;

/// Weight of the sign bit.
pub const SIGN_BIT: u32 = 0x8000_0000;

/// Encoding of positive infinity. A larger magnitude is not a number.
pub const INFINITY_BITS: u32 = 0x7f80_0000;

/// Encoding of one.
pub const ONE_BITS: u32 = 0x3f80_0000;

/// Encoding of the largest finite number.
pub const MAX_BITS: u32 = 0x7f7f_ffff;

impl Real {
    /// The encoding without its sign.
    pub open spec fn magnitude(self) -> int {
        self.bits as int % SIGN_BIT as int
    }

    pub open spec fn negative(self) -> bool {
        self.bits >= SIGN_BIT
    }

    pub open spec fn nan(self) -> bool {
        self.magnitude() > INFINITY_BITS
    }

    pub open spec fn infinite(self) -> bool {
        self.magnitude() == INFINITY_BITS
    }

    /// Position of a number on the line of all numbers. Both zeros stand at the same place.
    pub open spec fn place(self) -> int {
        if self.negative() {
            -self.magnitude()
        } else {
            self.magnitude()
        }
    }

    /// `self < other`, which nothing satisfies that is not a number.
    pub open spec fn below(self, other: Real) -> bool {
        !self.nan() && !other.nan() && self.place() < other.place()
    }

    /// Exponent field of a positive number.
    pub open spec fn exponent_field(self) -> int {
        self.bits as int / HIDDEN_BIT as int
    }

    /// Exponent `e` of a positive normal number `m * 2^e`.
    pub open spec fn exponent(self) -> int {
        self.exponent_field() - 150
    }

    /// Significand `m`, with its hidden bit, of a positive normal number `m * 2^e`.
    pub open spec fn significand(self) -> int {
        HIDDEN_BIT + self.bits as int % HIDDEN_BIT as int
    }

    pub open spec fn positive_normal(self) -> bool {
        1 <= self.exponent_field() <= 254
    }

    pub fn is_nan(self) -> (r: bool)
        ensures
            r == self.nan(),
    {
        self.bits % SIGN_BIT > INFINITY_BITS
    }

    pub fn is_infinite(self) -> (r: bool)
        ensures
            r == self.infinite(),
    {
        self.bits % SIGN_BIT == INFINITY_BITS
    }

    /// The `<` of IEEE 754.
    pub fn less_than(self, other: Real) -> (r: bool)
        ensures
            r == self.below(other),
    {
        if self.is_nan() || other.is_nan() {
            return false;
        }
        let a: u32 = self.bits % SIGN_BIT;
        let b: u32 = other.bits % SIGN_BIT;
        if self.bits >= SIGN_BIT {
            if other.bits >= SIGN_BIT {
                b < a
            } else {
                a > 0 || b > 0
            }
        } else {
            if other.bits >= SIGN_BIT {
                false
            } else {
                a < b
            }
        }
    }
}

/// The positive number `m * 2^e`, for `m` between `2^23` and `2^24`.
///
/// A significand of `2^24` carries into the exponent, which gives the same number.
pub open spec fn encode(m: int, e: int) -> Real {
    Real { bits: ((e + 149) * HIDDEN_BIT + m) as u32 }
}

/// The integer nearest to `num / den`; of two equally near ones the even one.
pub open spec fn round_half_even(num: nat, den: nat) -> nat {
    let q = num / den;
    let r = num % den;
    if 2 * r < den || (2 * r == den && q % 2 == 0) {
        q
    } else {
        q + 1
    }
}

/// `s` is the integer nearest to the square root of `n`: `(s - 1/2)^2 < n < (s + 1/2)^2`.
pub open spec fn nearest_root(s: nat, n: nat) -> bool {
    s * s - s < n <= s * s + s
}

/// Number of binary digits.
pub open spec fn bit_len(n: nat) -> nat
    decreases n,
{
    if n == 0 {
        0
    } else {
        1 + bit_len(n / 2)
    }
}

/// The number nearest to the positive integer `n`.
pub open spec fn real_of(n: nat) -> Real {
    let k = bit_len(n);
    if k <= 24 {
        encode((n * pow2((24 - k) as nat)) as int, k - 24)
    } else {
        encode(round_half_even(n, pow2((k - 24) as nat)) as int, k - 24)
    }
}

/// The number nearest to the square root of the positive normal number `x`.
///
/// `x` is `m * 2^e`. With the twos that make the exponent odd or even moved into the
/// significand, the root is `root(m * 2^w) * 2^f`, where `e = 2 * f + w` and `w` is 23 or 24.
pub open spec fn root_of(x: Real) -> Real {
    let f = (x.exponent() - 23) / 2;
    let w = (x.exponent() - 2 * f) as nat;
    let radicand = (x.significand() * pow2(w)) as nat;
    let s = choose|s: nat| nearest_root(s, radicand);
    encode(s as int, f)
}

/// The number nearest to `1 / x`, for a positive normal `x` whose reciprocal is normal:
/// `1 / (m * 2^e)` is `(2^47 / m) * 2^(-e - 47)`.
pub open spec fn reciprocal_of(x: Real) -> Real {
    encode(round_half_even(pow2(47), x.significand() as nat) as int, -x.exponent() - 47)
}

proof fn lemma_bit_len(n: nat)
    requires
        n > 0,
    ensures
        bit_len(n) > 0,
        pow2((bit_len(n) - 1) as nat) <= n < pow2(bit_len(n)),
    decreases n,
{
    lemma2_to64();
    if n == 1 {
        reveal_with_fuel(bit_len, 2);
    } else {
        lemma_bit_len(n / 2);
        let k = bit_len(n / 2);
        lemma_pow2_adds(1, k);
        lemma_pow2_adds(1, (k - 1) as nat);
    }
}

proof fn lemma_bit_len_bound(n: nat, k: nat)
    requires
        n < pow2(k),
    ensures
        bit_len(n) <= k,
    decreases k,
{
    lemma2_to64();
    if n > 0 && k > 0 {
        lemma_pow2_adds(1, (k - 1) as nat);
        lemma_bit_len_bound(n / 2, (k - 1) as nat);
    }
}

/// Rounding keeps a quotient between two integers that enclose it.
proof fn lemma_round_between(num: nat, den: nat, lo: nat, hi: nat)
    requires
        den > 0,
        lo * den <= num <= hi * den,
    ensures
        lo <= round_half_even(num, den) <= hi,
{
    let q = num / den;
    let r = num % den;
    lemma_fundamental_div_mod(num as int, den as int);
    assert(lo <= q) by (nonlinear_arith)
        requires
            lo * den <= den * q + r,
            r < den,
    ;
    if r > 0 {
        assert(q < hi) by (nonlinear_arith)
            requires
                den * q + r <= hi * den,
                r > 0,
        ;
    } else {
        assert(q <= hi) by (nonlinear_arith)
            requires
                den * q <= hi * den,
                den > 0,
        ;
    }
}

fn power_of_two(k: u32) -> (r: u64)
    requires
        k <= 32,
    ensures
        r == pow2(k as nat),
{
    proof {
        lemma2_to64();
    }
    let mut r: u64 = 1;
    let mut i: u32 = 0;
    while i < k
        invariant
            i <= k <= 32,
            r == pow2(i as nat),
        decreases k - i,
    {
        proof {
            lemma2_to64();
            lemma_pow2_adds(1, i as nat);
            lemma_pow2_strictly_increases(i as nat, 32);
        }
        r = r * 2;
        i = i + 1;
    }
    r
}

fn bit_length(n: u32) -> (r: u32)
    ensures
        r == bit_len(n as nat),
        r <= 32,
{
    let mut t: u32 = n;
    let mut k: u32 = 0;
    proof {
        lemma2_to64();
        lemma_bit_len_bound(n as nat, 32);
    }
    while t > 0
        invariant
            k + bit_len(t as nat) == bit_len(n as nat),
            bit_len(n as nat) <= 32,
        decreases t,
    {
        t = t / 2;
        k = k + 1;
    }
    k
}

/// Rounds `num / den` to the nearest integer, ties to even.
fn rounded_quotient(num: u64, den: u64) -> (r: u64)
    requires
        0 < den <= 0x7fff_ffff_ffff_ffff,
        num < 0xffff_ffff_ffff_ffff,
    ensures
        r == round_half_even(num as nat, den as nat),
{
    let q: u64 = num / den;
    let r: u64 = num % den;
    assert(q <= num) by (nonlinear_arith)
        requires
            q == num / den,
            den > 0,
    ;
    if 2 * r < den || (2 * r == den && q % 2 == 0) {
        q
    } else {
        q + 1
    }
}

/// Square roots keep their place between two integers.
proof fn lemma_root_between(s: nat, n: nat, lo: nat, hi: nat)
    requires
        nearest_root(s, n),
        lo * lo <= n <= hi * hi,
    ensures
        lo <= s <= hi,
{
    if s < lo {
        assert(s * s + s < lo * lo) by (nonlinear_arith)
            requires
                s + 1 <= lo,
        ;
    }
    if s > hi {
        assert(hi * hi <= s * s - s) by (nonlinear_arith)
            requires
                hi + 1 <= s,
        ;
    }
}

/// At most one integer is nearest to a square root.
proof fn lemma_root_unique(s: nat, t: nat, n: nat)
    requires
        nearest_root(s, n),
        nearest_root(t, n),
    ensures
        s == t,
{
    if s < t {
        assert(s * s + s <= t * t - t) by (nonlinear_arith)
            requires
                s + 1 <= t,
        ;
    }
    if t < s {
        assert(t * t + t <= s * s - s) by (nonlinear_arith)
            requires
                t + 1 <= s,
        ;
    }
}

/// The integer nearest to the square root of `n`.
fn rounded_root(n: u64) -> (r: u64)
    requires
        0 < n < 0x1_0000_0000_0000,
    ensures
        nearest_root(r as nat, n as nat),
        r <= 0x100_0000,
{
    let mut s: u64 = 0;
    let mut bit: u64 = 0x80_0000;
    let mut left: u32 = 24;
    proof {
        lemma2_to64();
    }
    while left > 0
        invariant
            0 < n < 0x1_0000_0000_0000,
            left <= 24,
            left > 0 ==> bit == pow2((left - 1) as nat),
            left == 0 ==> bit == 0,
            s + pow2(left as nat) <= 0x100_0000,
            s * s <= n,
            n < (s + pow2(left as nat)) * (s + pow2(left as nat)),
        decreases left,
    {
        proof {
            lemma2_to64();
            lemma_pow2_adds(1, (left - 1) as nat);
            if left > 1 {
                lemma_pow2_adds(1, (left - 2) as nat);
            }
        }
        let t: u64 = s + bit;
        assert(t * t <= 0x100_0000 * 0x100_0000) by (nonlinear_arith)
            requires
                t <= 0x100_0000,
        ;
        if t * t <= n {
            s = t;
        }
        bit = bit / 2;
        left = left - 1;
    }
    proof {
        lemma2_to64();
    }
    assert(s * s + s <= 0x100_0000 * 0x100_0000) by (nonlinear_arith)
        requires
            s < 0x100_0000,
    ;
    assert(n <= s * s + 2 * s) by (nonlinear_arith)
        requires
            n < (s + 1) * (s + 1),
    ;
    if n > s * s + s {
        assert((s + 1) * (s + 1) == s * s + 2 * s + 1) by (nonlinear_arith);
        s + 1
    } else {
        assert(s > 0);
        s
    }
}

impl Real {
    /// The number nearest to `n`.
    pub fn from_u32(n: u32) -> (r: Real)
        requires
            n > 0,
        ensures
            r == real_of(n as nat),
            127 <= r.exponent_field() <= 159,
    {
        let k: u32 = bit_length(n);
        proof {
            lemma2_to64();
            lemma_bit_len(n as nat);
        }
        if k <= 24 {
            let p: u64 = power_of_two(24 - k);
            proof {
                lemma_pow2_adds(k as nat, (24 - k) as nat);
                lemma_pow2_adds((k - 1) as nat, (24 - k) as nat);
                assert(pow2((k - 1) as nat) * p <= n * p < pow2(k as nat) * p) by (nonlinear_arith)
                    requires
                        pow2((k - 1) as nat) <= n < pow2(k as nat),
                        p > 0,
                ;
            }
            let m: u64 = n as u64 * p;
            Real { bits: (k + 125) * HIDDEN_BIT + m as u32 }
        } else {
            let p: u64 = power_of_two(k - 24);
            proof {
                lemma_pow2_adds(24, (k - 24) as nat);
                lemma_pow2_adds(23, (k - 24) as nat);
                lemma_round_between(n as nat, p as nat, pow2(23), pow2(24));
            }
            let m: u64 = rounded_quotient(n as u64, p);
            Real { bits: (k + 125) * HIDDEN_BIT + m as u32 }
        }
    }

    /// The number nearest to the square root of a positive normal number.
    pub fn root(self) -> (r: Real)
        requires
            self.positive_normal(),
        ensures
            r == root_of(self),
            r.positive_normal(),
            127 <= self.exponent_field() <= 159 ==> 127 <= r.exponent_field() <= 143,
    {
        let field: u32 = self.bits / HIDDEN_BIT;
        let m: u32 = HIDDEN_BIT + self.bits % HIDDEN_BIT;
        // The exponent is `field - 150`; its distance from 23 is halved towards the smaller side.
        let half: u32 = (field + 1) / 2;
        let wide: bool = field % 2 == 0;
        let n: u64 = if wide { m as u64 * 0x100_0000 } else { m as u64 * 0x80_0000 };
        proof {
            lemma2_to64();
            let f = (self.exponent() - 23) / 2;
            assert(f == half - 87);
            assert(self.exponent() - 2 * f == if wide { 24int } else { 23 });
        }
        let s: u64 = rounded_root(n);
        proof {
            lemma_root_between(s as nat, n as nat, 0x80_0000, 0x100_0000);
            let t = choose|t: nat| nearest_root(t, n as nat);
            lemma_root_unique(s as nat, t, n as nat);
        }
        Real { bits: (half + 62) * HIDDEN_BIT + s as u32 }
    }

    /// The number nearest to the reciprocal of a positive normal number.
    pub fn reciprocal(self) -> (r: Real)
        requires
            1 <= self.exponent_field() <= 252,
        ensures
            r == reciprocal_of(self),
            r.positive_normal(),
    {
        let field: u32 = self.bits / HIDDEN_BIT;
        let m: u32 = HIDDEN_BIT + self.bits % HIDDEN_BIT;
        proof {
            lemma2_to64();
            lemma_pow2_adds(24, 23);
            lemma_round_between(pow2(47), m as nat, 0x80_0000, 0x100_0000);
        }
        let q: u64 = rounded_quotient(0x8000_0000_0000, m as u64);
        Real { bits: (252 - field) * HIDDEN_BIT + q as u32 }
    }
}

pub open spec fn distance(a: int, b: int) -> int {
    if a < b {
        b - a
    } else {
        a - b
    }
}

/// No integer is nearer to a quotient than the one that it is rounded to.
pub proof fn law_rounding_is_nearest(num: nat, den: nat, other: nat)
    requires
        den > 0,
    ensures
        distance(num as int, (round_half_even(num, den) * den) as int) <= distance(
            num as int,
            (other * den) as int,
        ),
{
    let q = num / den;
    let r = num % den;
    lemma_fundamental_div_mod(num as int, den as int);
    assert(q * den == den * q && (q + 1) * den == q * den + den) by (nonlinear_arith);
    if other <= q {
        assert(other * den <= q * den) by (nonlinear_arith)
            requires
                other <= q,
        ;
    } else {
        assert((q + 1) * den <= other * den) by (nonlinear_arith)
            requires
                q + 1 <= other,
        ;
    }
}

/// `<` is a strict order on numbers, and two numbers of which neither is below the other stand at
/// the same place.
pub proof fn law_below_is_an_order(a: Real, b: Real, c: Real)
    ensures
        !a.below(a),
        a.below(b) && b.below(c) ==> a.below(c),
        !a.nan() && !b.nan() ==> a.below(b) || b.below(a) || a.place() == b.place(),
{
}

/// Value of a finite number without its sign, in units of `2^-149`, the smallest one. A number
/// whose exponent field is zero has no hidden bit.
pub open spec fn absolute_value(magnitude: int) -> int {
    let (field, fraction) = (magnitude / HIDDEN_BIT as int, magnitude % HIDDEN_BIT as int);
    if field == 0 {
        fraction
    } else {
        (HIDDEN_BIT + fraction) * pow2((field - 1) as nat)
    }
}

impl Real {
    /// Value of a finite number in units of `2^-149`.
    pub open spec fn value(self) -> int {
        if self.negative() {
            -absolute_value(self.magnitude())
        } else {
            absolute_value(self.magnitude())
        }
    }
}

proof fn lemma_value_grows(a: int, b: int)
    requires
        0 <= a < b,
    ensures
        0 <= absolute_value(a) < absolute_value(b),
{
    let hidden = HIDDEN_BIT as int;
    let (fa, ma) = (a / hidden, a % hidden);
    let (fb, mb) = (b / hidden, b % hidden);
    lemma2_to64();
    if fb > 0 {
        let pb = pow2((fb - 1) as nat) as int;
        lemma_pow2_pos((fb - 1) as nat);
        assert((hidden + mb) * pb >= hidden * pb && hidden * pb >= hidden) by (nonlinear_arith)
            requires
                mb >= 0,
                pb >= 1,
                hidden >= 0,
        ;
        if fa > 0 {
            let pa = pow2((fa - 1) as nat) as int;
            lemma_pow2_pos((fa - 1) as nat);
            assert(0 <= (hidden + ma) * pa < 2 * hidden * pa) by (nonlinear_arith)
                requires
                    0 <= ma < hidden,
                    pa >= 1,
            ;
            if fa < fb {
                lemma_pow2_adds(1, (fa - 1) as nat);
                if fa < fb - 1 {
                    lemma_pow2_strictly_increases(fa as nat, (fb - 1) as nat);
                }
                assert(2 * hidden * pa <= hidden * pb) by (nonlinear_arith)
                    requires
                        2 * pa <= pb,
                        hidden >= 0,
                ;
            } else {
                assert((hidden + ma) * pa < (hidden + mb) * pa) by (nonlinear_arith)
                    requires
                        ma < mb,
                        pa >= 1,
                ;
            }
        }
    }
}

/// Of two finite numbers one is below the other exactly if its value is smaller.
pub proof fn law_below_compares_values(a: Real, b: Real)
    requires
        !a.nan() && !a.infinite(),
        !b.nan() && !b.infinite(),
    ensures
        a.below(b) <==> a.value() < b.value(),
{
    let (x, y) = (a.magnitude(), b.magnitude());
    assert(absolute_value(0) == 0);
    if x > 0 {
        lemma_value_grows(0, x);
    }
    if y > 0 {
        lemma_value_grows(0, y);
    }
    if x < y {
        lemma_value_grows(x, y);
    } else if y < x {
        lemma_value_grows(y, x);
    }
}

/// Encoding a significand and an exponent gives the number `m * 2^e`, also where the significand
/// carries into the exponent.
pub proof fn law_encoding_has_its_value(m: int, e: int)
    requires
        HIDDEN_BIT <= m <= 2 * HIDDEN_BIT,
        -149 <= e <= 103,
    ensures
        !encode(m, e).nan() && !encode(m, e).infinite(),
        encode(m, e).value() == m * pow2((e + 149) as nat),
{
    let hidden = HIDDEN_BIT as int;
    let bits = (e + 149) * hidden + m;
    lemma2_to64();
    let p = pow2((e + 149) as nat) as int;
    if m < 2 * hidden {
        assert(bits / hidden == e + 150 && bits % hidden == m - hidden);
    } else {
        assert(bits / hidden == e + 151 && bits % hidden == 0);
        lemma_pow2_adds(1, (e + 149) as nat);
        assert(2 * hidden * p == hidden * (2 * p)) by (nonlinear_arith);
    }
}

/// Twice the distance of a quotient from what it is rounded to is no more than one.
proof fn lemma_rounded_within_half(num: nat, den: nat)
    requires
        den > 0,
    ensures
        ({
            let r = round_half_even(num, den);
            (2 * r - 1) * den <= 2 * num <= (2 * r + 1) * den
        }),
{
    let (q, rem) = (num / den, num % den);
    lemma_fundamental_div_mod(num as int, den as int);
    let r = round_half_even(num, den);
    assert((2 * r - 1) * den == 2 * (r * den) - den && (2 * r + 1) * den == 2 * (r * den) + den)
        by (nonlinear_arith);
    assert(q * den == den * q && (q + 1) * den == q * den + den) by (nonlinear_arith);
}

/// A smaller quotient is not rounded to a greater integer.
proof fn lemma_rounding_is_monotone(a: nat, b: nat, c: nat, d: nat)
    requires
        a <= b,
        0 < d <= c,
    ensures
        round_half_even(a, c) <= round_half_even(b, d),
{
    let (x, y) = (round_half_even(a, c), round_half_even(b, d));
    lemma_rounded_within_half(a, c);
    lemma_rounded_within_half(b, d);
    if x > y {
        assert((2 * y + 1) * d <= (2 * x - 1) * d && (2 * x - 1) * d <= (2 * x - 1) * c)
            by (nonlinear_arith)
            requires
                y + 1 <= x,
                0 < d <= c,
        ;
        assert(a == b);
        assert(c == d) by (nonlinear_arith)
            requires
                (2 * x - 1) * c == (2 * x - 1) * d,
                x >= 1,
        ;
    }
}

/// Rounding a quotient of which both parts are taken four times.
proof fn lemma_rounding_scales(num: nat, den: nat)
    requires
        den > 0,
    ensures
        round_half_even(4 * num, 4 * den) == round_half_even(num, den),
{
    let (q, r) = (num / den, num % den);
    lemma_fundamental_div_mod(num as int, den as int);
    vstd::arithmetic::div_mod::lemma_mod_bound(num as int, den as int);
    assert(4 * num == q * (4 * den) + 4 * r) by (nonlinear_arith)
        requires
            num == den * q + r,
    ;
    vstd::arithmetic::div_mod::lemma_fundamental_div_mod_converse(
        (4 * num) as int,
        (4 * den) as int,
        q as int,
        (4 * r) as int,
    );
}

proof fn lemma_bit_len_grows(a: nat, b: nat)
    requires
        a <= b,
    ensures
        bit_len(a) <= bit_len(b),
    decreases b,
{
    if a > 0 {
        lemma_bit_len_grows(a / 2, b / 2);
    }
}

/// Significand of the number nearest to `n`, before it may carry into the exponent.
proof fn lemma_real_of(n: nat) -> (m: nat)
    requires
        0 < n <= u32::MAX,
    ensures
        real_of(n) == encode(m as int, bit_len(n) - 24),
        HIDDEN_BIT <= m <= 2 * HIDDEN_BIT,
        1 <= bit_len(n) <= 32,
        bit_len(n) <= 24 ==> m == n * pow2((24 - bit_len(n)) as nat),
        bit_len(n) > 24 ==> m == round_half_even(n, pow2((bit_len(n) - 24) as nat)),
{
    let k = bit_len(n);
    lemma2_to64();
    lemma_bit_len(n);
    lemma_bit_len_bound(n, 32);
    if k <= 24 {
        let p = pow2((24 - k) as nat);
        lemma_pow2_adds(k, (24 - k) as nat);
        lemma_pow2_adds((k - 1) as nat, (24 - k) as nat);
        lemma_pow2_pos((24 - k) as nat);
        assert(pow2((k - 1) as nat) * p <= n * p < pow2(k) * p) by (nonlinear_arith)
            requires
                pow2((k - 1) as nat) <= n < pow2(k),
                p > 0,
        ;
        n * p
    } else {
        let p = pow2((k - 24) as nat);
        lemma_pow2_adds(24, (k - 24) as nat);
        lemma_pow2_adds(23, (k - 24) as nat);
        lemma_pow2_pos((k - 24) as nat);
        lemma_round_between(n, p, pow2(23), pow2(24));
        round_half_even(n, p)
    }
}

/// A smaller integer is not converted to a greater number.
pub proof fn law_conversion_is_monotone(a: nat, b: nat)
    requires
        0 < a <= b <= u32::MAX,
    ensures
        real_of(a).bits <= real_of(b).bits,
        127 * HIDDEN_BIT <= real_of(a).bits <= 159 * HIDDEN_BIT,
{
    let (x, y) = (lemma_real_of(a), lemma_real_of(b));
    let (k, l) = (bit_len(a), bit_len(b));
    lemma_bit_len_grows(a, b);
    if k == l {
        if k <= 24 {
            let p = pow2((24 - k) as nat);
            assert(a * p <= b * p) by (nonlinear_arith)
                requires
                    a <= b,
            ;
        } else {
            lemma_pow2_pos((k - 24) as nat);
            let p = pow2((k - 24) as nat);
            lemma_rounding_is_monotone(a, b, p, p);
        }
    }
}

/// An integer taken four times is converted to the number taken four times.
pub proof fn law_conversion_scales(n: nat)
    requires
        0 < n <= u32::MAX / 4,
    ensures
        real_of(4 * n).bits == real_of(n).bits + 2 * HIDDEN_BIT,
{
    let (x, y) = (lemma_real_of(n), lemma_real_of(4 * n));
    let k = bit_len(n);
    reveal_with_fuel(bit_len, 3);
    assert(4 * n / 2 == 2 * n && 2 * n / 2 == n);
    assert(bit_len(4 * n) == k + 2);
    lemma2_to64();
    if k <= 22 {
        let p = pow2((22 - k) as nat);
        lemma_pow2_adds(2, (22 - k) as nat);
        assert((4 * n) * p == n * (4 * p)) by (nonlinear_arith);
    } else if k == 23 {
        assert(n * pow2(1) == 2 * n) by (nonlinear_arith)
            requires
                pow2(1) == 2,
        ;
        assert(y == round_half_even(4 * n, pow2(1)));
    } else if k == 24 {
        assert(n * pow2(0) == n) by (nonlinear_arith)
            requires
                pow2(0) == 1,
        ;
        assert(y == round_half_even(4 * n, pow2(2)));
    } else {
        lemma_pow2_adds(2, (k - 24) as nat);
        lemma_pow2_pos((k - 24) as nat);
        lemma_rounding_scales(n, pow2((k - 24) as nat));
    }
}

proof fn lemma_root_exists(n: nat)
    requires
        n > 0,
    ensures
        exists|s: nat| nearest_root(s, n),
    decreases n,
{
    if n == 1 {
        assert(nearest_root(1, 1));
    } else {
        let before = (n - 1) as nat;
        lemma_root_exists(before);
        let s = choose|s: nat| nearest_root(s, before);
        if n <= s * s + s {
            assert(nearest_root(s, n));
        } else {
            assert((s + 1) * (s + 1) == s * s + 2 * s + 1) by (nonlinear_arith);
            assert(nearest_root(s + 1, n));
        }
    }
}

proof fn lemma_root_is_monotone(s: nat, n: nat, t: nat, m: nat)
    requires
        nearest_root(s, n),
        nearest_root(t, m),
        n <= m,
    ensures
        s <= t,
{
    if t < s {
        assert(t * t + t <= s * s - s) by (nonlinear_arith)
            requires
                t + 1 <= s,
        ;
    }
}

proof fn lemma_scaled_significand(m: int, w: nat)
    requires
        HIDDEN_BIT <= m < 2 * HIDDEN_BIT,
        w == 23 || w == 24,
    ensures
        m * pow2(w) == if w == 23 {
            0x80_0000 * m
        } else {
            0x100_0000 * m
        },
{
    lemma2_to64();
    let p = pow2(w) as int;
    if w == 23 {
        assert(m * p == 0x80_0000 * m) by (nonlinear_arith)
            requires
                p == 0x80_0000,
        ;
    } else {
        assert(m * p == 0x100_0000 * m) by (nonlinear_arith)
            requires
                p == 0x100_0000,
        ;
    }
}

/// Significand of a root, before it may carry into the exponent.
proof fn lemma_root_of(x: Real) -> (s: nat)
    requires
        x.positive_normal(),
    ensures
        ({
            let f = (x.exponent() - 23) / 2;
            let w = (x.exponent() - 2 * f) as nat;
            &&& w == 23 || w == 24
            &&& root_of(x) == encode(s as int, f)
            &&& nearest_root(s, (x.significand() * pow2(w)) as nat)
            &&& HIDDEN_BIT <= s <= 2 * HIDDEN_BIT
        }),
{
    lemma2_to64();
    lemma_pow2_adds(24, 23);
    lemma_pow2_adds(24, 24);
    let f = (x.exponent() - 23) / 2;
    let w = (x.exponent() - 2 * f) as nat;
    let n = (x.significand() * pow2(w)) as nat;
    lemma_scaled_significand(x.significand(), w);
    lemma_root_exists(n);
    let s = choose|s: nat| nearest_root(s, n);
    lemma_root_between(s, n, 0x80_0000, 0x100_0000);
    s
}

/// A smaller number does not have a greater root.
pub proof fn law_root_is_monotone(x: Real, y: Real)
    requires
        x.positive_normal(),
        y.positive_normal(),
        x.bits <= y.bits,
    ensures
        root_of(x).bits <= root_of(y).bits,
        root_of(x).positive_normal(),
        127 * HIDDEN_BIT <= x.bits <= 159 * HIDDEN_BIT ==> 127 * HIDDEN_BIT <= root_of(x).bits
            <= 143 * HIDDEN_BIT,
{
    let (s, t) = (lemma_root_of(x), lemma_root_of(y));
    let (f, g) = ((x.exponent() - 23) / 2, (y.exponent() - 23) / 2);
    lemma2_to64();
    assert(f <= g);
    if f == g {
        let (v, w) = ((x.exponent() - 2 * f) as nat, (y.exponent() - 2 * g) as nat);
        let (n, m) = ((x.significand() * pow2(v)) as nat, (y.significand() * pow2(w)) as nat);
        lemma_scaled_significand(x.significand(), v);
        lemma_scaled_significand(y.significand(), w);
        assert(n <= m);
        lemma_root_is_monotone(s, n, t, m);
    }
    if x.bits == 159 * HIDDEN_BIT {
        assert(nearest_root(HIDDEN_BIT as nat, (HIDDEN_BIT * pow2(23)) as nat));
        lemma_root_unique(s, HIDDEN_BIT as nat, (HIDDEN_BIT * pow2(23)) as nat);
    }
}

/// A number taken four times has its root taken twice.
pub proof fn law_root_scales(x: Real, y: Real)
    requires
        x.positive_normal(),
        y.positive_normal(),
        y.bits == x.bits + 2 * HIDDEN_BIT,
    ensures
        root_of(y).bits == root_of(x).bits + HIDDEN_BIT,
{
    let (s, t) = (lemma_root_of(x), lemma_root_of(y));
    let f = (x.exponent() - 23) / 2;
    let w = (x.exponent() - 2 * f) as nat;
    assert(y.significand() == x.significand() && y.exponent() == x.exponent() + 2);
    assert((y.exponent() - 23) / 2 == f + 1);
    lemma_root_unique(s, t, (x.significand() * pow2(w)) as nat);
}

proof fn lemma_reciprocal_of(x: Real)
    requires
        1 <= x.exponent_field() <= 252,
    ensures
        HIDDEN_BIT <= round_half_even(pow2(47), x.significand() as nat) <= 2 * HIDDEN_BIT,
        reciprocal_of(x).bits == (252 - x.exponent_field()) * HIDDEN_BIT + round_half_even(
            pow2(47),
            x.significand() as nat,
        ),
{
    lemma2_to64();
    lemma_pow2_adds(24, 23);
    lemma_round_between(pow2(47), x.significand() as nat, 0x80_0000, 0x100_0000);
}

/// A smaller number does not have a smaller reciprocal.
pub proof fn law_reciprocal_is_antitone(x: Real, y: Real)
    requires
        1 <= x.exponent_field(),
        y.exponent_field() <= 252,
        x.bits <= y.bits,
    ensures
        reciprocal_of(x).bits >= reciprocal_of(y).bits,
        reciprocal_of(x).positive_normal(),
{
    lemma_reciprocal_of(x);
    lemma_reciprocal_of(y);
    if x.exponent_field() == y.exponent_field() {
        lemma_rounding_is_monotone(
            pow2(47),
            pow2(47),
            y.significand() as nat,
            x.significand() as nat,
        );
    }
}

/// A number taken twice has half the reciprocal.
pub proof fn law_reciprocal_scales(x: Real, y: Real)
    requires
        1 <= x.exponent_field(),
        y.exponent_field() <= 252,
        y.bits == x.bits + HIDDEN_BIT,
    ensures
        reciprocal_of(x).bits == reciprocal_of(y).bits + HIDDEN_BIT,
{
    lemma_reciprocal_of(x);
    lemma_reciprocal_of(y);
    assert(x.significand() == y.significand());
}

/// One is converted to one, which is its own root and its own reciprocal.
pub proof fn law_one_is_its_root_and_reciprocal()
    ensures
        real_of(1) == (Real { bits: ONE_BITS }),
        root_of(Real { bits: ONE_BITS }) == (Real { bits: ONE_BITS }),
        reciprocal_of(Real { bits: ONE_BITS }) == (Real { bits: ONE_BITS }),
{
    let one = Real { bits: ONE_BITS };
    lemma2_to64();
    lemma_pow2_adds(24, 23);
    reveal_with_fuel(bit_len, 2);
    let m = lemma_real_of(1);
    let s = lemma_root_of(one);
    let n = (HIDDEN_BIT * pow2(23)) as nat;
    assert(nearest_root(HIDDEN_BIT as nat, n));
    lemma_root_unique(s, HIDDEN_BIT as nat, n);
    lemma_reciprocal_of(one);
    assert(round_half_even(pow2(47), HIDDEN_BIT as nat) == 2 * HIDDEN_BIT);
}

/// A normal number whose exponent is one greater has twice the value.
pub proof fn law_exponent_doubles(x: Real, y: Real)
    requires
        x.positive_normal(),
        y.positive_normal(),
        y.bits == x.bits + HIDDEN_BIT,
    ensures
        y.value() == 2 * x.value(),
{
    let (f, m) = (x.exponent_field(), x.significand());
    let p = pow2((f - 1) as nat) as int;
    lemma2_to64();
    lemma_pow2_adds(1, (f - 1) as nat);
    assert(y.significand() == m && y.exponent_field() == f + 1);
    assert(x.magnitude() == x.bits && y.magnitude() == y.bits);
    assert(m * (2 * p) == 2 * (m * p)) by (nonlinear_arith);
}

/// What the bits say: the top one is the sign, the next eight are the exponent, the rest the
/// fraction. With all exponent bits set a number is infinite if the fraction is zero, and else is
/// not a number.
pub proof fn law_special_numbers(x: Real)
    ensures
        ({
            let (exponent, fraction) = (x.bits as int / 0x80_0000 % 256, x.bits as int % 0x80_0000);
            &&& x.nan() <==> exponent == 255 && fraction != 0
            &&& x.infinite() <==> exponent == 255 && fraction == 0
            &&& x.negative() <==> x.bits as int / 0x8000_0000 == 1
        }),
{
}

pub open spec fn finite(x: Real) -> bool {
    !x.nan() && !x.infinite()
}

/// `x` is the number nearest to `num / den`, both in units of the smallest number. Of two equally
/// near ones it is the one whose last bit is zero.
pub open spec fn is_nearest(x: Real, num: int, den: int) -> bool {
    &&& finite(x)
    &&& forall|y: Real| #[trigger]
        finite(y) ==> {
            &&& distance(x.value() * den, num) <= distance(y.value() * den, num)
            &&& distance(x.value() * den, num) == distance(y.value() * den, num) && y.value()
                != x.value() ==> x.bits % 2 == 0
        }
}

/// `s` is the number nearest to the square root of `x`: the root lies on its side of the middle
/// between `s` and any other number.
pub open spec fn is_nearest_to_root(s: Real, x: Real) -> bool {
    let square = 4 * (x.value() * pow2(149));
    &&& finite(s)
    &&& s.value() >= 0
    &&& forall|y: Real| #[trigger]
        finite(y) && y.value() >= 0 ==> {
            let middle = (s.value() + y.value()) * (s.value() + y.value());
            &&& y.value() > s.value() ==> middle > square
            &&& y.value() < s.value() ==> middle < square
        }
}

/// Where an integer is rounded to, no other is nearer, and if one is as near, the one rounded to is
/// even.
proof fn lemma_rounded_is_nearest(num: nat, den: nat, j: int)
    requires
        den > 0,
    ensures
        ({
            let r = round_half_even(num, den) as int;
            &&& distance(r * den, num as int) <= distance(j * den, num as int)
            &&& distance(r * den, num as int) == distance(j * den, num as int) && j != r ==> r % 2
                == 0
        }),
{
    let q = num / den;
    let rem = num % den;
    lemma_fundamental_div_mod(num as int, den as int);
    let r = round_half_even(num, den) as int;
    assert(q * den == den * q && (q + 1) * den == q * den + den) by (nonlinear_arith);
    if j <= q {
        if j < q {
            assert(j * den + den <= q * den) by (nonlinear_arith)
                requires
                    j + 1 <= q,
                    den > 0,
            ;
        }
    } else {
        if j > q + 1 {
            assert((q + 1) * den + den <= j * den) by (nonlinear_arith)
                requires
                    q + 2 <= j,
                    den > 0,
            ;
        }
    }
}

/// From a power of two on, numbers are multiples of their distance there.
proof fn lemma_multiple(y: Real, u: nat) -> (j: int)
    requires
        finite(y),
        y.value() >= HIDDEN_BIT * pow2(u),
    ensures
        y.value() == j * pow2(u),
{
    let unit = pow2(u) as int;
    lemma_pow2_pos(u);
    assert(HIDDEN_BIT * unit >= HIDDEN_BIT) by (nonlinear_arith)
        requires
            unit >= 1,
    ;
    lemma_absolute_value_is_positive(y.magnitude());
    let f = y.magnitude() / HIDDEN_BIT as int;
    let m = HIDDEN_BIT + y.magnitude() % HIDDEN_BIT as int;
    assert(y.value() == absolute_value(y.magnitude()));
    let p = pow2((f - 1) as nat) as int;
    if f - 1 < u {
        lemma_pow2_adds(1, (f - 1) as nat);
        lemma2_to64();
        if f < u {
            lemma_pow2_strictly_increases(f as nat, u);
        }
        lemma_pow2_pos((f - 1) as nat);
        assert(m * p < HIDDEN_BIT * unit) by (nonlinear_arith)
            requires
                0 < m < 2 * HIDDEN_BIT,
                2 * p <= unit,
                p >= 1,
        ;
    }
    let k = (f - 1 - u) as nat;
    lemma_pow2_adds(k, u);
    assert(m * p == (m * pow2(k)) * unit) by (nonlinear_arith)
        requires
            p == pow2(k) * unit,
    ;
    m * pow2(k)
}

proof fn lemma_absolute_value_is_positive(magnitude: int)
    requires
        0 <= magnitude,
    ensures
        absolute_value(magnitude) >= 0,
        magnitude < HIDDEN_BIT ==> absolute_value(magnitude) < HIDDEN_BIT,
{
    if magnitude > 0 {
        lemma_value_grows(0, magnitude);
    }
}

/// The number whose significand is nearest among all integers is nearest among all numbers.
proof fn lemma_nearest_number(m: int, e: int, num: int, den: int, x: Real)
    requires
        HIDDEN_BIT <= m <= 2 * HIDDEN_BIT,
        -149 <= e <= 103,
        den > 0,
        x == encode(m, e),
        HIDDEN_BIT * (pow2((e + 149) as nat) * den) <= num,
        forall|j: int|
            distance(m * (pow2((e + 149) as nat) * den), num) <= distance(
                #[trigger] (j * (pow2((e + 149) as nat) * den)),
                num,
            ),
        forall|j: int|
            distance(m * (pow2((e + 149) as nat) * den), num) == distance(
                #[trigger] (j * (pow2((e + 149) as nat) * den)),
                num,
            ) && j != m ==> m % 2 == 0,
    ensures
        is_nearest(x, num, den),
{
    law_encoding_has_its_value(m, e);
    let u = (e + 149) as nat;
    let unit = pow2(u) as int;
    let step = unit * den;
    lemma_pow2_pos(u);
    assert((m * unit) * den == m * step) by (nonlinear_arith)
        requires
            step == unit * den,
    ;
    assert(x.bits as int % 2 == m % 2) by (nonlinear_arith)
        requires
            x.bits == (e + 149) * 0x80_0000 + m,
    ;
    assert forall|y: Real| #[trigger] finite(y) implies {
        &&& distance(x.value() * den, num) <= distance(y.value() * den, num)
        &&& distance(x.value() * den, num) == distance(y.value() * den, num) && y.value()
            != x.value() ==> x.bits % 2 == 0
    } by {
        if y.value() >= HIDDEN_BIT * unit {
            let j = lemma_multiple(y, u);
            assert((j * unit) * den == j * step) by (nonlinear_arith)
                requires
                    step == unit * den,
            ;
            assert(distance(m * step, num) <= distance(j * step, num));
        } else {
            assert(y.value() * den < HIDDEN_BIT * step) by (nonlinear_arith)
                requires
                    y.value() < HIDDEN_BIT * unit,
                    den > 0,
                    step == unit * den,
            ;
            assert(distance(m * step, num) <= distance(HIDDEN_BIT as int * step, num));
        }
    }
}

/// An integer is converted to the number nearest to it.
pub proof fn law_conversion_is_nearest(n: nat)
    requires
        0 < n <= u32::MAX,
    ensures
        is_nearest(real_of(n), (n * pow2(149)) as int, 1),
{
    let k = bit_len(n);
    let m = lemma_real_of(n) as int;
    let e = k - 24;
    let u = (e + 149) as nat;
    let unit = pow2(u) as int;
    let target = (n * pow2(149)) as int;
    let big = pow2(149) as int;
    lemma2_to64();
    lemma_bit_len(n);
    assert(unit * 1 == unit);
    lemma_pow2_adds(23, u);
    lemma_pow2_adds((k - 1) as nat, 149);
    assert(HIDDEN_BIT * (unit * 1) <= target) by (nonlinear_arith)
        requires
            pow2(23) == 0x80_0000,
            pow2(23) * unit == pow2((k - 1) as nat) * big,
            pow2((k - 1) as nat) <= n,
            target == n * big,
            big >= 0,
    ;
    if k <= 24 {
        lemma_pow2_adds((24 - k) as nat, u);
        assert(m * unit == target) by (nonlinear_arith)
            requires
                m == n * pow2((24 - k) as nat),
                pow2((24 - k) as nat) * unit == big,
                target == n * big,
        ;
        assert(m * (unit * 1) == target);
        assert forall|j: int|
            distance(m * (pow2(u) * 1), target) == distance(
                #[trigger] (j * (pow2(u) * 1)),
                target,
            ) && j != m implies m % 2 == 0 by {
            lemma_pow2_pos(u);
            assert(j == m) by (nonlinear_arith)
                requires
                    j * unit == m * unit,
                    unit > 0,
            ;
        }
    } else {
        let p = pow2((k - 24) as nat);
        lemma_pow2_pos((k - 24) as nat);
        lemma_pow2_pos(149);
        lemma_pow2_adds((k - 24) as nat, 149);
        assert forall|j: int|
            {
                let d = #[trigger] (j * (pow2(u) * 1));
                &&& distance(m * (pow2(u) * 1), target) <= distance(d, target)
                &&& distance(m * (pow2(u) * 1), target) == distance(d, target) && j != m ==> m % 2
                    == 0
            } by {
            lemma_rounded_is_nearest(n, p, j);
            lemma_distance_scales(m * p, n as int, big);
            lemma_distance_scales(j * p, n as int, big);
            assert(m * unit == (m * p) * big && j * unit == (j * p) * big) by (nonlinear_arith)
                requires
                    unit == p * big,
            ;
            lemma_same_order(distance(m * p, n as int), distance(j * p, n as int), big);
        }
    }
    lemma_nearest_number(m as int, e, target, 1, real_of(n));
}

proof fn lemma_distance_scales(a: int, b: int, c: int)
    requires
        c > 0,
    ensures
        distance(a * c, b * c) == distance(a, b) * c,
{
    assert((b - a) * c == b * c - a * c && (a - b) * c == a * c - b * c) by (nonlinear_arith);
    assert(a < b <==> a * c < b * c) by (nonlinear_arith)
        requires
            c > 0,
    ;
}

proof fn lemma_same_order(a: int, b: int, c: int)
    requires
        c > 0,
    ensures
        a <= b <==> a * c <= b * c,
        a == b <==> a * c == b * c,
{
    assert(a <= b <==> a * c <= b * c) by (nonlinear_arith)
        requires
            c > 0,
    ;
    assert(a == b <==> a * c == b * c) by (nonlinear_arith)
        requires
            c > 0,
    ;
}

/// Value of a positive normal number.
proof fn lemma_value_of_normal(x: Real)
    requires
        x.positive_normal(),
    ensures
        finite(x),
        x.value() == x.significand() * pow2((x.exponent() + 149) as nat),
        x.value() > 0,
{
    lemma_pow2_pos((x.exponent() + 149) as nat);
    let p = pow2((x.exponent() + 149) as nat) as int;
    assert(x.significand() * p > 0) by (nonlinear_arith)
        requires
            x.significand() > 0,
            p > 0,
    ;
}

/// The reciprocal of a number is the number nearest to one divided by it.
pub proof fn law_reciprocal_is_nearest(x: Real)
    requires
        1 <= x.exponent_field() <= 252,
    ensures
        x.value() > 0,
        is_nearest(reciprocal_of(x), pow2(298) as int, x.value()),
{
    lemma_value_of_normal(x);
    lemma_reciprocal_of(x);
    let ms = x.significand();
    let es = x.exponent();
    let e = -es - 47;
    let m = round_half_even(pow2(47), ms as nat) as int;
    let u = (e + 149) as nat;
    let (unit, den, big) = (pow2(u) as int, x.value(), pow2(251) as int);
    let target = pow2(298) as int;
    lemma2_to64();
    lemma_pow2_adds(u, (es + 149) as nat);
    lemma_pow2_adds(47, 251);
    lemma_pow2_pos(251);
    lemma_pow2_adds(24, 23);
    assert(unit * den == ms * big) by (nonlinear_arith)
        requires
            den == ms * pow2((es + 149) as nat),
            unit * pow2((es + 149) as nat) == big,
    ;
    assert(HIDDEN_BIT * (ms * big) <= target) by (nonlinear_arith)
        requires
            target == pow2(47) * big,
            pow2(47) == 0x100_0000 * 0x80_0000,
            0 <= ms <= 0x100_0000,
            big > 0,
    ;
    assert forall|j: int|
        {
            let d = #[trigger] (j * (pow2(u) * den));
            &&& distance(m * (pow2(u) * den), target) <= distance(d, target)
            &&& distance(m * (pow2(u) * den), target) == distance(d, target) && j != m ==> m % 2
                == 0
        } by {
        lemma_rounded_is_nearest(pow2(47), ms as nat, j);
        assert(m * (ms * big) == (m * ms) * big && j * (ms * big) == (j * ms) * big)
            by (nonlinear_arith);
        lemma_distance_scales(m * ms, pow2(47) as int, big);
        lemma_distance_scales(j * ms, pow2(47) as int, big);
        lemma_same_order(distance(m * ms, pow2(47) as int), distance(j * ms, pow2(47) as int), big);
    }
    lemma_nearest_number(m, e, target, den, reciprocal_of(x));
}

/// The root of a number is the number nearest to its square root.
pub proof fn law_root_is_nearest(x: Real)
    requires
        x.positive_normal(),
    ensures
        is_nearest_to_root(root_of(x), x),
{
    let sm = lemma_root_of(x) as int;
    lemma_value_of_normal(x);
    let f = (x.exponent() - 23) / 2;
    let w = (x.exponent() - 2 * f) as nat;
    let n = x.significand() * pow2(w);
    let s = root_of(x);
    law_encoding_has_its_value(sm, f);
    let u = (f + 149) as nat;
    let unit = pow2(u) as int;
    lemma_pow2_pos(u);
    lemma_scaled_significand(x.significand(), w);
    lemma2_to64();
    lemma_pow2_adds(u, u);
    lemma_pow2_adds(w, (2 * u) as nat);
    lemma_pow2_adds((x.exponent() + 149) as nat, 149);
    let area = unit * unit;
    assert(area > 0) by (nonlinear_arith)
        requires
            area == unit * unit,
            unit > 0,
    ;
    let (mx, pw) = (x.significand(), pow2(w) as int);
    assert(x.value() * pow2(149) == n * area) by (nonlinear_arith)
        requires
            x.value() == mx * pow2((x.exponent() + 149) as nat),
            pow2((x.exponent() + 149) as nat) * pow2(149) == pw * area,
            n == mx * pw,
    ;
    assert(sm * unit >= 0) by (nonlinear_arith)
        requires
            sm >= 0,
            unit >= 0,
    ;
    assert forall|y: Real| #[trigger] finite(y) && y.value() >= 0 implies {
        let middle = (s.value() + y.value()) * (s.value() + y.value());
        &&& y.value() > s.value() ==> middle > 4 * (x.value() * pow2(149))
        &&& y.value() < s.value() ==> middle < 4 * (x.value() * pow2(149))
    } by {
        let v = y.value();
        assert(HIDDEN_BIT * unit <= sm * unit) by (nonlinear_arith)
            requires
                HIDDEN_BIT <= sm,
                unit >= 0,
        ;
        if v >= HIDDEN_BIT * unit {
            let j = lemma_multiple(y, u);
            assert(j >= HIDDEN_BIT) by (nonlinear_arith)
                requires
                    j * unit >= HIDDEN_BIT * unit,
                    unit > 0,
            ;
            assert((sm < j <==> sm * unit < j * unit) && (j < sm <==> j * unit < sm * unit))
                by (nonlinear_arith)
                requires
                    unit > 0,
            ;
            assert((sm * unit + j * unit) * (sm * unit + j * unit) == ((sm + j) * (sm + j)) * area)
                by (nonlinear_arith)
                requires
                    area == unit * unit,
            ;
            if j > sm {
                assert((sm + j) * (sm + j) > 4 * n) by (nonlinear_arith)
                    requires
                        sm + 1 <= j,
                        0 <= sm,
                        n <= sm * sm + sm,
                ;
                lemma_same_order((sm + j) * (sm + j), 4 * n, area);
            } else if j < sm {
                assert((sm + j) * (sm + j) < 4 * n) by (nonlinear_arith)
                    requires
                        j + 1 <= sm,
                        0 <= j,
                        sm * sm - sm < n,
                ;
                lemma_same_order(4 * n, (sm + j) * (sm + j), area);
            }
            assert((4 * n) * area == 4 * (n * area)) by (nonlinear_arith);
        } else {
            lemma_below_root(sm, n, unit, v);
        }
    }
}

proof fn lemma_below_root(sm: int, n: int, unit: int, v: int)
    requires
        HIDDEN_BIT <= sm,
        sm * sm - sm < n,
        HIDDEN_BIT * HIDDEN_BIT <= n,
        unit > 0,
        0 <= v < HIDDEN_BIT * unit,
    ensures
        v < sm * unit,
        (sm * unit + v) * (sm * unit + v) < 4 * (n * (unit * unit)),
{
    let hidden = HIDDEN_BIT as int;
    assert(hidden * unit <= sm * unit) by (nonlinear_arith)
        requires
            hidden <= sm,
            unit > 0,
    ;
    let t = if sm == hidden {
        2 * sm
    } else {
        2 * sm - 1
    };
    assert(sm * unit + v < t * unit) by (nonlinear_arith)
        requires
            v < hidden * unit,
            sm + hidden <= t,
            unit > 0,
    ;
    assert(t * t <= 4 * n) by (nonlinear_arith)
        requires
            t == 2 * sm && sm * sm <= n || t == 2 * sm - 1 && sm * sm - sm < n,
            hidden * hidden <= n,
    ;
    let whole = sm * unit + v;
    assert(whole * whole < (t * unit) * (t * unit)) by (nonlinear_arith)
        requires
            0 <= whole < t * unit,
    ;
    assert((t * unit) * (t * unit) == (t * t) * (unit * unit)) by (nonlinear_arith);
    assert((t * t) * (unit * unit) <= (4 * n) * (unit * unit)) by (nonlinear_arith)
        requires
            t * t <= 4 * n,
            unit > 0,
    ;
    assert((4 * n) * (unit * unit) == 4 * (n * (unit * unit))) by (nonlinear_arith);
}

/// Nothing is below what is not a number, nor is that below anything. All finite numbers are below
/// infinity and above its negative.
pub proof fn law_special_comparisons(a: Real, b: Real)
    ensures
        a.nan() || b.nan() ==> !a.below(b),
        finite(a) && b.bits == 0x7f80_0000 ==> a.below(b) && !b.below(a),
        finite(a) && b.bits == 0xff80_0000 ==> b.below(a) && !a.below(b),
        a.bits == 0xff80_0000 && b.bits == 0x7f80_0000 ==> a.below(b) && !b.below(a),
{
}

/// No finite number is above the greatest.
pub proof fn law_greatest_number(x: Real)
    requires
        finite(x),
    ensures
        finite(Real { bits: MAX_BITS }),
        x.value() <= (Real { bits: MAX_BITS }).value(),
        x.value() == (Real { bits: MAX_BITS }).value() ==> x.bits == MAX_BITS,
{
    let m = x.magnitude();
    lemma_absolute_value_is_positive(m);
    lemma_value_grows(0, MAX_BITS as int);
    if m < MAX_BITS {
        lemma_value_grows(m, MAX_BITS as int);
    }
}

} // verus!
