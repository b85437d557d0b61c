//! Binary64 arithmetic carried out on integers, rounding to the nearest value
//! and to the even one on a tie. Link estimates built on it come out the same
//! on every target, bit for bit, and every one of them can be reasoned about.
use vstd::arithmetic::div_mod::*;
use vstd::arithmetic::mul::*;
use vstd::arithmetic::power2::*;
use vstd::prelude::*;

verus! {

/// Bits of significand, the hidden one included.
pub const PRECISION: i32 = 53;

/// Smallest exponent of a unit in the last place.
pub const LEAST_EXPONENT: i32 = -1074;

/// Largest exponent of a unit in the last place of a finite value.
pub const GREATEST_EXPONENT: i32 = 971;

pub const SIGN: u64 = 0x8000_0000_0000_0000;

pub const HIDDEN: u64 = 0x10_0000_0000_0000;

pub const INFINITY_BITS: u64 = 0x7ff0_0000_0000_0000;

pub const NAN_BITS: u64 = 0x7ff8_0000_0000_0000;

/// A binary64 value, held as its encoding.
#[derive(Clone, Copy, Debug, PartialEq, Eq, Structural)]
pub struct Binary64 {
    pub bits: u64,
}

/// Number of binary digits of `m`; zero has none.
pub open spec fn bit_len(m: nat) -> nat
    decreases m,
{
    if m == 0 {
        0
    } else {
        1 + bit_len(m / 2)
    }
}

/// The encoding of a finite value `sig * 2^e`, or infinity past the range.
/// `sig` is at most `2^53`; below `2^52` the exponent is the least one.
pub open spec fn encoded(neg: bool, sig: nat, e: int) -> Binary64 {
    let s: nat = if sig >= 2 * HIDDEN {
        sig / 2
    } else {
        sig
    };
    let x: int = if sig >= 2 * HIDDEN {
        e + 1
    } else {
        e
    };
    let magnitude: int = if s < HIDDEN {
        s as int
    } else if x > GREATEST_EXPONENT {
        INFINITY_BITS as int
    } else {
        (x + 1075) * HIDDEN + (s - HIDDEN)
    };
    Binary64 {
        bits: (if neg {
            magnitude + SIGN
        } else {
            magnitude
        }) as u64,
    }
}

/// Low digits of `m * 2^e` that do not fit in a significand.
pub open spec fn excess_bits(m: nat, e: int) -> int {
    if bit_len(m) - PRECISION >= LEAST_EXPONENT - e {
        bit_len(m) - PRECISION
    } else {
        LEAST_EXPONENT - e
    }
}

/// The value nearest to a magnitude of `m * 2^e`, or to one strictly between
/// `m * 2^e` and `(m + 1) * 2^e` where `sticky` is set; a tie goes to the even
/// significand.
pub open spec fn rounded(neg: bool, m: nat, e: int, sticky: bool) -> Binary64 {
    let k: int = excess_bits(m, e);
    if k <= 0 {
        encoded(neg, m * pow2((-k) as nat), e + k)
    } else {
        let q: nat = m / pow2(k as nat);
        let r: nat = m % pow2(k as nat);
        let half: nat = pow2((k - 1) as nat);
        let up: bool = r > half || (r == half && (sticky || q % 2 == 1));
        encoded(neg, if up {
            q + 1
        } else {
            q
        }, e + k)
    }
}

/// The integer square root.
pub open spec fn is_root(root: nat, m: nat) -> bool {
    root * root <= m < (root + 1) * (root + 1)
}

impl Binary64 {
    pub open spec fn negative(self) -> bool {
        self.bits >= SIGN
    }

    pub open spec fn magnitude_bits(self) -> int {
        if self.bits >= SIGN {
            self.bits - SIGN
        } else {
            self.bits as int
        }
    }

    pub open spec fn nan(self) -> bool {
        self.magnitude_bits() > INFINITY_BITS
    }

    pub open spec fn infinite(self) -> bool {
        self.magnitude_bits() == INFINITY_BITS
    }

    pub open spec fn finite(self) -> bool {
        self.magnitude_bits() < INFINITY_BITS
    }

    pub open spec fn zero(self) -> bool {
        self.magnitude_bits() == 0
    }

    /// Significand of a finite value.
    pub open spec fn significand(self) -> nat {
        let m: int = self.magnitude_bits();
        (if m < HIDDEN {
            m
        } else {
            m % (HIDDEN as int) + HIDDEN
        }) as nat
    }

    /// Exponent of the unit in the last place of a finite value.
    pub open spec fn exponent(self) -> int {
        let m: int = self.magnitude_bits();
        if m < HIDDEN {
            LEAST_EXPONENT as int
        } else {
            m / (HIDDEN as int) - 1075
        }
    }

    /// Position of the value in the total order of encodings.
    pub open spec fn key(self) -> int {
        if self.bits >= SIGN {
            SIGN - self.bits - 1
        } else {
            self.bits as int
        }
    }
}

pub open spec fn not_a_number() -> Binary64 {
    Binary64 { bits: NAN_BITS }
}

pub open spec fn infinity(neg: bool) -> Binary64 {
    Binary64 {
        bits: (if neg {
            INFINITY_BITS + SIGN
        } else {
            INFINITY_BITS as int
        }) as u64,
    }
}

pub open spec fn signed_zero(neg: bool) -> Binary64 {
    Binary64 { bits: if neg { SIGN } else { 0 } }
}

#[verifier::opaque]
pub open spec fn spec_neg(a: Binary64) -> Binary64 {
    Binary64 {
        bits: (if a.bits >= SIGN {
            a.bits - SIGN
        } else {
            a.bits + SIGN
        }) as u64,
    }
}

#[verifier::opaque]
pub open spec fn spec_abs(a: Binary64) -> Binary64 {
    Binary64 { bits: a.magnitude_bits() as u64 }
}

/// A finite value as an integer number of units `2^e`, `e` at most its exponent.
pub open spec fn in_units(a: Binary64, e: int) -> int {
    let m: int = (a.significand() * pow2((a.exponent() - e) as nat)) as int;
    if a.negative() {
        -m
    } else {
        m
    }
}

pub open spec fn lower(a: int, b: int) -> int {
    if a <= b {
        a
    } else {
        b
    }
}

/// The exact sum of two finite values, rounded.
pub open spec fn finite_sum(a: Binary64, b: Binary64) -> Binary64 {
    let e: int = lower(a.exponent(), b.exponent());
    let total: int = in_units(a, e) + in_units(b, e);
    if total == 0 {
        signed_zero(a.negative() && b.negative())
    } else if total < 0 {
        rounded(true, (-total) as nat, e, false)
    } else {
        rounded(false, total as nat, e, false)
    }
}

#[verifier::opaque]
pub open spec fn spec_plus(a: Binary64, b: Binary64) -> Binary64 {
    if a.nan() || b.nan() || (a.infinite() && b.infinite() && a.negative() != b.negative()) {
        not_a_number()
    } else if a.infinite() {
        a
    } else if b.infinite() {
        b
    } else {
        finite_sum(a, b)
    }
}

pub open spec fn spec_minus(a: Binary64, b: Binary64) -> Binary64 {
    spec_plus(a, spec_neg(b))
}

#[verifier::opaque]
pub open spec fn spec_times(a: Binary64, b: Binary64) -> Binary64 {
    let neg: bool = a.negative() != b.negative();
    if a.nan() || b.nan() || (a.infinite() && b.zero()) || (a.zero() && b.infinite()) {
        not_a_number()
    } else if a.infinite() || b.infinite() {
        infinity(neg)
    } else {
        rounded(neg, a.significand() * b.significand(), a.exponent() + b.exponent(), false)
    }
}

/// Digits of quotient that are kept before it is rounded.
pub open spec fn quotient_digits() -> nat {
    120
}

#[verifier::opaque]
pub open spec fn spec_over(a: Binary64, b: Binary64) -> Binary64 {
    let neg: bool = a.negative() != b.negative();
    if a.nan() || b.nan() || (a.infinite() && b.infinite()) || (a.zero() && b.zero()) {
        not_a_number()
    } else if a.infinite() || b.zero() {
        infinity(neg)
    } else if b.infinite() || a.zero() {
        signed_zero(neg)
    } else {
        let n: nat = a.significand() * pow2(quotient_digits());
        rounded(
            neg,
            n / b.significand(),
            a.exponent() - b.exponent() - quotient_digits(),
            n % b.significand() != 0,
        )
    }
}

#[verifier::opaque]
pub open spec fn spec_lt(a: Binary64, b: Binary64) -> bool {
    !a.nan() && !b.nan() && !(a.zero() && b.zero()) && a.key() < b.key()
}

pub open spec fn spec_ge(a: Binary64, b: Binary64) -> bool {
    !a.nan() && !b.nan() && !spec_lt(a, b)
}

pub open spec fn spec_max(a: Binary64, b: Binary64) -> Binary64 {
    if a.nan() {
        b
    } else if b.nan() {
        a
    } else if spec_lt(a, b) {
        b
    } else {
        a
    }
}

pub open spec fn spec_min(a: Binary64, b: Binary64) -> Binary64 {
    if a.nan() {
        b
    } else if b.nan() {
        a
    } else if spec_lt(b, a) {
        b
    } else {
        a
    }
}

pub open spec fn spec_clamp(a: Binary64, low: Binary64, high: Binary64) -> Binary64 {
    if spec_lt(a, low) {
        low
    } else if spec_lt(high, a) {
        high
    } else {
        a
    }
}

#[verifier::opaque]
pub open spec fn spec_whole(n: u64) -> Binary64 {
    rounded(false, n as nat, 0, false)
}

/// The quotient of two whole numbers.
pub open spec fn spec_ratio(n: u64, d: u64) -> Binary64 {
    spec_over(spec_whole(n), spec_whole(d))
}

/// Whole part of a finite magnitude.
pub open spec fn whole_part(a: Binary64) -> nat {
    if a.exponent() >= 0 {
        a.significand() * pow2(a.exponent() as nat)
    } else {
        a.significand() / pow2((-a.exponent()) as nat)
    }
}

/// Digits of a finite magnitude below the point, in units of its last place.
pub open spec fn fraction_part(a: Binary64) -> nat {
    if a.exponent() >= 0 {
        0
    } else {
        a.significand() % pow2((-a.exponent()) as nat)
    }
}

/// The value cut to a whole number within the range of `u64`.
#[verifier::opaque]
pub open spec fn spec_floor_u64(a: Binary64) -> u64 {
    if a.nan() || a.negative() {
        0
    } else if a.infinite() || whole_part(a) > u64::MAX {
        u64::MAX
    } else {
        whole_part(a) as u64
    }
}

/// The smallest whole number that is not below the value.
#[verifier::opaque]
pub open spec fn spec_ceil(a: Binary64) -> Binary64 {
    if !a.finite() || a.exponent() >= 0 {
        a
    } else if a.negative() {
        rounded(true, whole_part(a), 0, false)
    } else {
        rounded(
            false,
            whole_part(a) + (if fraction_part(a) > 0 {
                1nat
            } else {
                0
            }),
            0,
            false,
        )
    }
}

/// The nearest whole number; halves go away from zero.
#[verifier::opaque]
pub open spec fn spec_nearest(a: Binary64) -> Binary64 {
    if !a.finite() || a.exponent() >= 0 {
        a
    } else {
        rounded(
            a.negative(),
            whole_part(a) + (if 2 * fraction_part(a) >= pow2((-a.exponent()) as nat) {
                1nat
            } else {
                0
            }),
            0,
            false,
        )
    }
}

/// The square root of a value that is not negative.
#[verifier::opaque]
pub open spec fn spec_sqrt(a: Binary64) -> Binary64 {
    if a.zero() {
        a
    } else if a.nan() || a.negative() {
        not_a_number()
    } else if a.infinite() {
        a
    } else {
        let s: int = root_shift(a);
        let m: nat = a.significand() * pow2(s as nat);
        let root: nat = choose|root: nat| is_root(root, m);
        rounded(false, root, (a.exponent() - s) / 2, root * root != m)
    }
}

/// Digits added to a significand before its root is taken, so that the root
/// has more than a significand's digits and the exponent is even.
pub open spec fn root_shift(a: Binary64) -> int {
    let s: int = 123 - bit_len(a.significand());
    if (a.exponent() - s) % 2 == 0 {
        s
    } else {
        s + 1
    }
}

// ---- Powers of two and digits ----------------------------------------------

pub proof fn lemma_pow2_values()
    ensures
        pow2(0) == 1,
        pow2(1) == 2,
        pow2(52) == HIDDEN,
        pow2(53) == 2 * HIDDEN,
        pow2(64) == 0x1_0000_0000_0000_0000,
        pow2(127) == 0x8000_0000_0000_0000_0000_0000_0000_0000,
{
    lemma2_to64();
    lemma2_to64_rest();
    lemma_pow2_adds(64, 63);
    assert(pow2(63) == 0x8000_0000_0000_0000);
    assert(0x1_0000_0000_0000_0000int * 0x8000_0000_0000_0000
        == 0x8000_0000_0000_0000_0000_0000_0000_0000) by (nonlinear_arith);
}

pub proof fn lemma_pow2_monotone(a: nat, b: nat)
    requires
        a <= b,
    ensures
        pow2(a) <= pow2(b),
        0 < pow2(a),
{
    lemma_pow2_pos(a);
    if a < b {
        lemma_pow2_strictly_increases(a, b);
    }
}

pub proof fn lemma_bit_len(m: nat)
    ensures
        m < pow2(bit_len(m)),
        m > 0 ==> bit_len(m) > 0 && pow2((bit_len(m) - 1) as nat) <= m,
    decreases m,
{
    lemma2_to64();
    if m > 0 {
        lemma_bit_len(m / 2);
        lemma_pow2_unfold(bit_len(m));
        if m >= 2 {
            lemma_pow2_unfold((bit_len(m) - 1) as nat);
        } else {
            assert(bit_len(0) == 0);
        }
    }
}

pub proof fn lemma_bit_len_unique(m: nat, n: nat)
    requires
        n >= 1,
        pow2((n - 1) as nat) <= m < pow2(n),
    ensures
        bit_len(m) == n,
{
    lemma_pow2_pos((n - 1) as nat);
    lemma_bit_len(m);
    let b: nat = bit_len(m);
    if b < n {
        lemma_pow2_monotone(b, (n - 1) as nat);
    } else if n < b {
        lemma_pow2_monotone(n, (b - 1) as nat);
    }
}

pub proof fn lemma_bit_len_bound(m: nat, n: nat)
    requires
        m < pow2(n),
    ensures
        bit_len(m) <= n,
{
    lemma_bit_len(m);
    if bit_len(m) > n {
        lemma_pow2_monotone(n, (bit_len(m) - 1) as nat);
    }
}

/// Cutting `d` binary digits off a number leaves that many fewer.
pub proof fn lemma_bit_len_shift(m: nat, d: nat)
    requires
        d < bit_len(m),
    ensures
        bit_len(m / pow2(d)) == bit_len(m) - d,
{
    let n: nat = bit_len(m);
    lemma_bit_len(m);
    lemma_pow2_pos(d);
    lemma_pow2_adds((n - 1 - d) as nat, d);
    lemma_pow2_adds((n - d) as nat, d);
    let p: int = pow2(d) as int;
    let lo: int = pow2((n - 1 - d) as nat) as int;
    let hi: int = pow2((n - d) as nat) as int;
    assert(lo <= m as int / p < hi) by (nonlinear_arith)
        requires
            p > 0,
            lo * p <= m < hi * p,
    ;
    lemma_bit_len_unique(m / pow2(d), (n - d) as nat);
}

/// Appending `d` zero digits.
pub proof fn lemma_bit_len_scale(m: nat, d: nat)
    requires
        m > 0,
    ensures
        bit_len(m * pow2(d)) == bit_len(m) + d,
{
    let n: nat = bit_len(m);
    lemma_bit_len(m);
    lemma_pow2_pos(d);
    lemma_pow2_adds((n - 1) as nat, d);
    lemma_pow2_adds(n, d);
    let p: int = pow2(d) as int;
    let lo: int = pow2((n - 1) as nat) as int;
    let hi: int = pow2(n) as int;
    assert(lo * p <= m * p < hi * p) by (nonlinear_arith)
        requires
            p > 0,
            lo <= m < hi,
    ;
    lemma_bit_len_unique(m * pow2(d), n + d);
}

/// Low digits may be replaced by one mark that says whether any was set, as
/// long as two more digits than a significand has are kept.
pub proof fn lemma_round_drop(neg: bool, m: nat, e: int, d: nat, sticky: bool)
    requires
        bit_len(m) >= d + 55,
    ensures
        rounded(neg, m, e, sticky) == rounded(
            neg,
            m / pow2(d),
            e + d,
            sticky || m % pow2(d) != 0,
        ),
{
    lemma_bit_len_shift(m, d);
    let k: int = excess_bits(m, e);
    let k2: int = excess_bits(m / pow2(d), e + d);
    assert(k2 == k - d);
    assert(k2 >= 2);
    let p: nat = pow2(d);
    let p2: nat = pow2(k2 as nat);
    lemma_pow2_pos(d);
    lemma_pow2_pos(k2 as nat);
    lemma_pow2_adds(d, k2 as nat);
    lemma_pow2_adds(d, (k2 - 1) as nat);
    assert(pow2(k as nat) == p * p2);
    lemma_div_denominator(m as int, p as int, p2 as int);
    lemma_mod_breakdown(m as int, p as int, p2 as int);
    let r: nat = m % pow2(k as nat);
    let r2: nat = (m / p) % p2;
    let low: nat = m % p;
    let h2: nat = pow2((k2 - 1) as nat);
    assert(r == p * r2 + low);
    assert(pow2((k - 1) as nat) == p * h2);
    lemma_mod_bound(m as int, p as int);
    assert((p * r2 + low > p * h2) == (r2 > h2 || (r2 == h2 && low > 0))) by (nonlinear_arith)
        requires
            0 <= low < p,
    ;
    assert((p * r2 + low == p * h2) == (r2 == h2 && low == 0)) by (nonlinear_arith)
        requires
            0 <= low < p,
    ;
}

// ---- Steps shared by the operations -----------------------------------------

fn power(k: u32) -> (p: u128)
    requires
        k <= 127,
    ensures
        p == pow2(k as nat),
        p > 0,
{
    proof {
        lemma_pow2_values();
    }
    let mut p: u128 = 1;
    let mut i: u32 = 0;
    while i < k
        invariant
            i <= k <= 127,
            p == pow2(i as nat),
            p > 0,
        decreases k - i,
    {
        proof {
            lemma_pow2_unfold((i + 1) as nat);
            lemma_pow2_monotone((i + 1) as nat, 127);
            lemma_pow2_values();
        }
        p = p * 2;
        i = i + 1;
    }
    p
}

fn digits(m: u128) -> (n: u32)
    ensures
        n == bit_len(m as nat),
        n <= 128,
{
    let mut n: u32 = 0;
    let mut rest: u128 = m;
    proof {
        lemma_pow2_values();
        lemma_pow2_unfold(128);
        lemma_bit_len_bound(m as nat, 128);
    }
    while rest > 0
        invariant
            n + bit_len(rest as nat) == bit_len(m as nat),
            bit_len(m as nat) <= 128,
        decreases rest,
    {
        rest = rest / 2;
        n = n + 1;
    }
    n
}

fn encode(neg: bool, sig: u64, e: i32) -> (r: Binary64)
    requires
        sig <= 2 * HIDDEN,
        -1074 <= e <= 100_000,
    ensures
        r == encoded(neg, sig as nat, e as int),
{
    let s: u64 = if sig >= 2 * HIDDEN {
        sig / 2
    } else {
        sig
    };
    let x: i32 = if sig >= 2 * HIDDEN {
        e + 1
    } else {
        e
    };
    let magnitude: u64 = if s < HIDDEN {
        s
    } else if x > GREATEST_EXPONENT {
        INFINITY_BITS
    } else {
        (x + 1075) as u64 * HIDDEN + (s - HIDDEN)
    };
    Binary64 { bits: if neg { magnitude + SIGN } else { magnitude } }
}

fn round(neg: bool, m: u128, e: i32, sticky: bool) -> (r: Binary64)
    requires
        -50_000 <= e <= 50_000,
        bit_len(m as nat) <= 124,
    ensures
        r == rounded(neg, m as nat, e as int, sticky),
{
    let n: i32 = digits(m) as i32;
    let k: i32 = if n - PRECISION >= LEAST_EXPONENT - e {
        n - PRECISION
    } else {
        LEAST_EXPONENT - e
    };
    proof {
        lemma_pow2_values();
        lemma_bit_len(m as nat);
    }
    if k <= 0 {
        if m == 0 {
            assert(0 * pow2((-k) as nat) == 0);
            return encode(neg, 0, if e + k >= LEAST_EXPONENT { e + k } else { LEAST_EXPONENT });
        }
        let p: u128 = power((-k) as u32);
        proof {
            lemma_bit_len_scale(m as nat, (-k) as nat);
            lemma_bit_len(m as nat * pow2((-k) as nat));
            lemma_pow2_monotone((n - k) as nat, 53);
        }
        encode(neg, (m * p) as u64, e + k)
    } else if k > 126 {
        proof {
            lemma_pow2_monotone(n as nat, (k - 1) as nat);
            lemma_pow2_monotone((k - 1) as nat, k as nat);
            lemma_basic_div(m as int, pow2(k as nat) as int);
            lemma_small_mod(m as nat, pow2(k as nat));
        }
        encode(neg, 0, e + k)
    } else {
        let p: u128 = power(k as u32);
        let half: u128 = power((k - 1) as u32);
        let q: u128 = m / p;
        let r: u128 = m % p;
        proof {
            lemma_pow2_monotone(n as nat, (k + 53) as nat);
            lemma_pow2_adds(k as nat, 53);
            assert(q < 2 * HIDDEN) by (nonlinear_arith)
                requires
                    q == m / p,
                    p > 0,
                    m < p * (2 * HIDDEN),
            ;
        }
        let up: bool = r > half || (r == half && (sticky || q % 2 == 1));
        encode(neg, if up { q as u64 + 1 } else { q as u64 }, e + k)
    }
}

impl Binary64 {
    pub fn from_bits(bits: u64) -> (r: Self)
        ensures
            r.bits == bits,
    {
        Binary64 { bits }
    }

    fn sign(self) -> (r: bool)
        ensures
            r == self.negative(),
    {
        self.bits >= SIGN
    }

    fn magnitude(self) -> (r: u64)
        ensures
            r == self.magnitude_bits(),
            r < SIGN,
    {
        if self.bits >= SIGN {
            self.bits - SIGN
        } else {
            self.bits
        }
    }

    pub fn is_nan(self) -> (r: bool)
        ensures
            r == self.nan(),
    {
        self.magnitude() > INFINITY_BITS
    }

    pub fn is_finite(self) -> (r: bool)
        ensures
            r == self.finite(),
    {
        self.magnitude() < INFINITY_BITS
    }

    fn is_infinite(self) -> (r: bool)
        ensures
            r == self.infinite(),
    {
        self.magnitude() == INFINITY_BITS
    }

    fn is_zero(self) -> (r: bool)
        ensures
            r == self.zero(),
    {
        self.magnitude() == 0
    }

    fn parts(self) -> (r: (u64, i32))
        requires
            self.finite(),
        ensures
            r.0 == self.significand(),
            r.1 == self.exponent(),
            r.0 < 2 * HIDDEN,
            -1074 <= r.1 <= 971,
            (r.0 == 0) == self.zero(),
            r.1 > -1074 ==> r.0 >= HIDDEN,
            bit_len(r.0 as nat) <= 53,
    {
        let m: u64 = self.magnitude();
        let r: (u64, i32) = if m < HIDDEN {
            (m, LEAST_EXPONENT)
        } else {
            (m % HIDDEN + HIDDEN, (m / HIDDEN) as i32 - 1075)
        };
        proof {
            lemma_pow2_values();
            lemma_bit_len_bound(r.0 as nat, 53);
        }
        r
    }

    #[verifier::allow_in_spec]
    pub fn neg(self) -> Self
        returns
            spec_neg(self),
    {
        proof {
            reveal(spec_neg);
        }
        Binary64 {
            bits: if self.bits >= SIGN {
                self.bits - SIGN
            } else {
                self.bits + SIGN
            },
        }
    }

    #[verifier::allow_in_spec]
    pub fn abs(self) -> Self
        returns
            spec_abs(self),
    {
        proof {
            reveal(spec_abs);
        }
        Binary64 { bits: self.magnitude() }
    }

    #[verifier::allow_in_spec]
    pub fn lt(self, other: Self) -> bool
        returns
            spec_lt(self, other),
    {
        proof {
            reveal(spec_lt);
        }
        if self.is_nan() || other.is_nan() || (self.is_zero() && other.is_zero()) {
            false
        } else if self.sign() {
            !other.sign() || self.bits > other.bits
        } else {
            !other.sign() && self.bits < other.bits
        }
    }

    #[verifier::allow_in_spec]
    pub fn ge(self, other: Self) -> bool
        returns
            spec_ge(self, other),
    {
        !self.is_nan() && !other.is_nan() && !self.lt(other)
    }

    /// Whether the value stands before `other` in the total order of encodings.
    pub fn precedes(self, other: Self) -> (r: bool)
        ensures
            r == (self.key() < other.key()),
    {
        if self.sign() {
            !other.sign() || self.bits > other.bits
        } else {
            !other.sign() && self.bits < other.bits
        }
    }

    #[verifier::allow_in_spec]
    pub fn max(self, other: Self) -> Self
        returns
            spec_max(self, other),
    {
        if self.is_nan() {
            other
        } else if other.is_nan() {
            self
        } else if self.lt(other) {
            other
        } else {
            self
        }
    }

    #[verifier::allow_in_spec]
    pub fn min(self, other: Self) -> Self
        returns
            spec_min(self, other),
    {
        if self.is_nan() {
            other
        } else if other.is_nan() {
            self
        } else if other.lt(self) {
            other
        } else {
            self
        }
    }

    #[verifier::allow_in_spec]
    pub fn clamp(self, low: Self, high: Self) -> Self
        returns
            spec_clamp(self, low, high),
    {
        if self.lt(low) {
            low
        } else if high.lt(self) {
            high
        } else {
            self
        }
    }

    #[verifier::allow_in_spec]
    pub fn whole(n: u64) -> Self
        returns
            spec_whole(n),
    {
        proof {
            reveal(spec_whole);
            lemma_pow2_values();
            lemma_bit_len_bound(n as nat, 64);
        }
        round(false, n as u128, 0, false)
    }

    #[verifier::allow_in_spec]
    pub fn ratio(n: u64, d: u64) -> Self
        returns
            spec_ratio(n, d),
    {
        Self::whole(n).over(Self::whole(d))
    }

    #[verifier::allow_in_spec]
    pub fn times(self, other: Self) -> Self
        returns
            spec_times(self, other),
    {
        proof {
            reveal(spec_times);
        }
        let neg: bool = self.sign() != other.sign();
        if self.is_nan() || other.is_nan() || (self.is_infinite() && other.is_zero()) || (
        self.is_zero() && other.is_infinite()) {
            return Binary64 { bits: NAN_BITS };
        }
        if self.is_infinite() || other.is_infinite() {
            return Binary64 { bits: if neg { INFINITY_BITS + SIGN } else { INFINITY_BITS } };
        }
        let (ma, ea) = self.parts();
        let (mb, eb) = other.parts();
        proof {
            lemma_pow2_values();
            lemma_pow2_adds(53, 53);
            assert(ma * mb < (2 * HIDDEN) * (2 * HIDDEN)) by (nonlinear_arith)
                requires
                    ma < 2 * HIDDEN,
                    mb < 2 * HIDDEN,
            ;
            lemma_bit_len_bound((ma * mb) as nat, 106);
        }
        round(neg, ma as u128 * mb as u128, ea + eb, false)
    }

    #[verifier::allow_in_spec]
    pub fn over(self, other: Self) -> Self
        returns
            spec_over(self, other),
    {
        proof {
            reveal(spec_over);
        }
        let neg: bool = self.sign() != other.sign();
        if self.is_nan() || other.is_nan() || (self.is_infinite() && other.is_infinite()) || (
        self.is_zero() && other.is_zero()) {
            return Binary64 { bits: NAN_BITS };
        }
        if self.is_infinite() || other.is_zero() {
            return Binary64 { bits: if neg { INFINITY_BITS + SIGN } else { INFINITY_BITS } };
        }
        if other.is_infinite() || self.is_zero() {
            return Binary64 { bits: if neg { SIGN } else { 0 } };
        }
        let (ma, ea) = self.parts();
        let (mb, eb) = other.parts();
        let d: u32 = digits(ma as u128);
        let s: u32 = 120 - d;
        let p: u128 = power(s);
        proof {
            lemma_bit_len_scale(ma as nat, s as nat);
            lemma_bit_len(ma as nat * pow2(s as nat));
            lemma_pow2_monotone(120, 127);
            lemma_pow2_values();
        }
        let n: u128 = ma as u128 * p;
        let q: u128 = n / mb as u128;
        let r: u128 = n % mb as u128;
        proof {
            lemma_quotient_digits(ma as nat, mb as nat, d as nat, s as nat);
            lemma_round_drop(
                neg,
                (ma as nat * pow2(120)) / (mb as nat),
                ea - eb - 120,
                d as nat,
                (ma as nat * pow2(120)) % (mb as nat) != 0,
            );
        }
        round(neg, q, ea - eb - 120 + d as i32, r != 0)
    }
}

/// A quotient taken of a numerator with `d` fewer digits, seen as the leading
/// part of the full one.
proof fn lemma_quotient_digits(a: nat, b: nat, d: nat, s: nat)
    requires
        0 < a,
        0 < b < 2 * HIDDEN,
        d == bit_len(a),
        d + s == 120,
    ensures
        ({
            let full: nat = a * pow2(120);
            let n: nat = a * pow2(s);
            &&& (full / b) / pow2(d) == n / b
            &&& ((full % b != 0) || ((full / b) % pow2(d) != 0)) == (n % b != 0)
            &&& bit_len(full / b) >= d + 55
            &&& bit_len(n / b) <= 120
        }),
{
    let full: nat = a * pow2(120);
    let n: nat = a * pow2(s);
    let p: nat = pow2(d);
    lemma_pow2_pos(d);
    lemma_pow2_adds(s, d);
    lemma_mul_is_associative(a as int, pow2(s) as int, p as int);
    assert(full == n * p);
    let q: nat = n / b;
    let r: nat = n % b;
    lemma_fundamental_div_mod(n as int, b as int);
    let x: nat = (r * p) / b;
    let y: nat = (r * p) % b;
    lemma_fundamental_div_mod((r * p) as int, b as int);
    lemma_mod_bound(n as int, b as int);
    lemma_mod_bound((r * p) as int, b as int);
    assert(n * p == b * (q * p + x) + y) by (nonlinear_arith)
        requires
            n == b * q + r,
            r * p == b * x + y,
    ;
    lemma_fundamental_div_mod_converse(full as int, b as int, (q * p + x) as int, y as int);
    assert(x < p) by (nonlinear_arith)
        requires
            r * p == b * x + y,
            0 <= r < b,
            0 <= y,
            p > 0,
    ;
    assert(q * p == p * q) by (nonlinear_arith);
    lemma_fundamental_div_mod_converse((q * p + x) as int, p as int, q as int, x as int);
    assert((r == 0) == (x == 0 && y == 0)) by (nonlinear_arith)
        requires
            r * p == b * x + y,
            p > 0,
            b > 0,
    ;
    lemma_bit_len_scale(a, s);
    lemma_bit_len(n);
    lemma_pow2_values();
    lemma_pow2_adds(53, 66);
    assert(q >= pow2(66)) by (nonlinear_arith)
        requires
            q == n / b,
            0 < b < 2 * HIDDEN,
            n >= (2 * HIDDEN) * pow2(66),
    ;
    lemma_bit_len(q);
    if bit_len(q) < 67 {
        lemma_pow2_monotone(bit_len(q), 66);
    }
    lemma_pow2_pos(bit_len(q));
    assert(q <= n) by (nonlinear_arith)
        requires
            q == n / b,
            b > 0,
    ;
    lemma_bit_len_bound(q, 120);
    lemma_bit_len_scale(q, d);
    lemma_bit_len(full / b);
    if bit_len(full / b) < bit_len(q) + d {
        lemma_pow2_monotone(bit_len(full / b), (bit_len(q) + d - 1) as nat);
        lemma_bit_len(q * p);
    }
}

/// A sum in which one operand lies far below the other, seen through its
/// leading digits.
proof fn lemma_far_sum(h: nat, l: nat, gap: nat, same: bool)
    requires
        HIDDEN <= h < 2 * HIDDEN,
        l < 2 * HIDDEN,
        gap > 64,
    ensures
        ({
            let d: nat = (gap - 64) as nat;
            let low: nat = l / pow2(d);
            let lost: bool = l % pow2(d) != 0;
            let full: int = if same {
                (h * pow2(gap) + l) as int
            } else {
                h * pow2(gap) - l
            };
            let kept: int = if same {
                (h * pow2(64) + low) as int
            } else {
                h * pow2(64) - low - (if lost {
                    1int
                } else {
                    0
                })
            };
            &&& full > 0
            &&& low <= l
            &&& 0 < kept < pow2(118)
            &&& full / (pow2(d) as int) == kept
            &&& (full % (pow2(d) as int) != 0) == lost
            &&& bit_len(full as nat) >= d + 55
        }),
{
    let d: nat = (gap - 64) as nat;
    let p: int = pow2(d) as int;
    let low: int = l as int / p;
    let rest: int = l as int % p;
    lemma_pow2_pos(d);
    lemma_pow2_values();
    lemma_pow2_adds(64, d);
    lemma_fundamental_div_mod(l as int, p);
    lemma_mod_bound(l as int, p);
    let top: int = (h * pow2(64)) as int;
    assert(h * pow2(gap) == top * p) by (nonlinear_arith)
        requires
            top == h * pow2(64),
            pow2(gap) == pow2(64) * p,
    ;
    assert(top >= HIDDEN * 0x1_0000_0000_0000_0000 && top < 2 * HIDDEN * 0x1_0000_0000_0000_0000)
        by (nonlinear_arith)
        requires
            top == h * pow2(64),
            pow2(64) == 0x1_0000_0000_0000_0000,
            HIDDEN <= h < 2 * HIDDEN,
    ;
    assert(0 <= low <= l) by (nonlinear_arith)
        requires
            l == p * low + rest,
            0 <= rest,
            p > 0,
            low == l as int / p,
    ;
    lemma_pow2_adds(54, 64);
    lemma2_to64_rest();
    let full: int = if same {
        (h * pow2(gap) + l) as int
    } else {
        h * pow2(gap) - l
    };
    let kept: int = if same {
        top + low
    } else {
        top - low - (if rest != 0 {
            1int
        } else {
            0
        })
    };
    let low_digits: int = if same || rest == 0 {
        rest
    } else {
        p - rest
    };
    assert(full == p * kept + low_digits) by (nonlinear_arith)
        requires
            l == p * low + rest,
            full == (if same {
                top * p + l
            } else {
                top * p - l
            }),
            kept == (if same {
                top + low
            } else {
                top - low - (if rest != 0 {
                    1int
                } else {
                    0
                })
            }),
            low_digits == (if same || rest == 0 {
                rest
            } else {
                p - rest
            }),
    ;
    assert(full == kept * p + low_digits) by (nonlinear_arith)
        requires
            full == p * kept + low_digits,
    ;
    assert(0 <= low_digits < p);
    lemma_fundamental_div_mod_converse(full, p, kept, low_digits);
    assert(kept >= pow2(54));
    lemma_pow2_adds(54, d);
    assert(full >= pow2(54) * p) by (nonlinear_arith)
        requires
            full == p * kept + low_digits,
            kept >= pow2(54),
            p > 0,
            low_digits >= 0,
    ;
    lemma_bit_len(full as nat);
    if bit_len(full as nat) < d + 55 {
        lemma_pow2_monotone(bit_len(full as nat), (d + 54) as nat);
    }
    assert(full > 0) by {
        lemma_pow2_pos(d + 54);
    }
}

/// The sum of two operands more than 64 places apart.
fn far_sum(neg: bool, h: u64, l: u64, same: bool, e: i32, gap: i32) -> (r: Binary64)
    requires
        HIDDEN <= h < 2 * HIDDEN,
        l < 2 * HIDDEN,
        64 < gap <= 3000,
        -1074 <= e <= 971,
    ensures
        r == rounded(
            neg,
            (if same {
                h * pow2(gap as nat) + l
            } else {
                h * pow2(gap as nat) - l
            }) as nat,
            e as int,
            false,
        ),
{
    let d: i32 = gap - 64;
    let low: u64;
    let lost: bool;
    proof {
        lemma_pow2_values();
    }
    if d >= 64 {
        low = 0;
        lost = l != 0;
        proof {
            lemma_pow2_monotone(64, d as nat);
            lemma_basic_div(l as int, pow2(d as nat) as int);
            lemma_small_mod(l as nat, pow2(d as nat));
        }
    } else {
        let p: u128 = power(d as u32);
        low = (l as u128 / p) as u64;
        lost = l as u128 % p != 0;
        assert(l as u128 / p <= l) by (nonlinear_arith)
            requires
                p > 0,
        ;
    }
    proof {
        lemma_far_sum(h as nat, l as nat, gap as nat, same);
        lemma_round_drop(
            neg,
            (if same {
                h * pow2(gap as nat) + l
            } else {
                h * pow2(gap as nat) - l
            }) as nat,
            e as int,
            d as nat,
            false,
        );
    }
    let top: u128 = h as u128 * 0x1_0000_0000_0000_0000;
    let kept: u128 = if same {
        top + low as u128
    } else {
        top - low as u128 - (if lost { 1 } else { 0 })
    };
    proof {
        lemma_bit_len_bound(kept as nat, 118);
    }
    round(neg, kept, e + d, lost)
}

/// A sum of signed magnitudes that share a unit, rounded.
fn near_sum(a: i128, b: i128, zero_sign: bool, e: i32) -> (r: Binary64)
    requires
        -0x40_0000_0000_0000_0000_0000_0000_0000 < a < 0x40_0000_0000_0000_0000_0000_0000_0000,
        -0x40_0000_0000_0000_0000_0000_0000_0000 < b < 0x40_0000_0000_0000_0000_0000_0000_0000,
        -1074 <= e <= 971,
    ensures
        r == (if a + b == 0 {
            signed_zero(zero_sign)
        } else if a + b < 0 {
            rounded(true, (-(a + b)) as nat, e as int, false)
        } else {
            rounded(false, (a + b) as nat, e as int, false)
        }),
{
    let total: i128 = a + b;
    proof {
        lemma_pow2_values();
        lemma2_to64();
        lemma2_to64_rest();
        lemma_pow2_adds(64, 55);
        assert(0x1_0000_0000_0000_0000int * 0x80_0000_0000_0000
            == 0x80_0000_0000_0000_0000_0000_0000_0000) by (nonlinear_arith);
    }
    if total == 0 {
        Binary64 { bits: if zero_sign { SIGN } else { 0 } }
    } else if total < 0 {
        proof {
            lemma_bit_len_bound((-total) as nat, 119);
        }
        round(true, (-total) as u128, e, false)
    } else {
        proof {
            lemma_bit_len_bound(total as nat, 119);
        }
        round(false, total as u128, e, false)
    }
}

/// `m * 2^gap`, with the sign given.
fn lifted(neg: bool, m: u64, gap: i32) -> (r: i128)
    requires
        m < 2 * HIDDEN,
        0 <= gap <= 64,
    ensures
        r == (if neg {
            -(m * pow2(gap as nat))
        } else {
            m * pow2(gap as nat)
        }),
        -0x40_0000_0000_0000_0000_0000_0000_0000 < r < 0x40_0000_0000_0000_0000_0000_0000_0000,
{
    let p: u128 = power(gap as u32);
    proof {
        lemma_pow2_values();
        lemma_pow2_monotone(gap as nat, 64);
        assert(m * p <= 2 * HIDDEN * 0x1_0000_0000_0000_0000) by (nonlinear_arith)
            requires
                m < 2 * HIDDEN,
                p <= 0x1_0000_0000_0000_0000,
        ;
    }
    let v: i128 = (m as u128 * p) as i128;
    if neg {
        -v
    } else {
        v
    }
}

impl Binary64 {
    #[verifier::allow_in_spec]
    pub fn plus(self, other: Self) -> Self
        returns
            spec_plus(self, other),
    {
        proof {
            reveal(spec_plus);
            lemma_pow2_values();
        }
        if self.is_nan() || other.is_nan() || (self.is_infinite() && other.is_infinite()
            && self.sign() != other.sign()) {
            return Binary64 { bits: NAN_BITS };
        }
        if self.is_infinite() {
            return self;
        }
        if other.is_infinite() {
            return other;
        }
        let (ma, ea) = self.parts();
        let (mb, eb) = other.parts();
        let na: bool = self.sign();
        let nb: bool = other.sign();
        assert(mb * 1 == mb && ma * 1 == ma);
        if ea >= eb {
            let gap: i32 = ea - eb;
            if gap <= 64 {
                near_sum(lifted(na, ma, gap), lifted(nb, mb, 0), na && nb, eb)
            } else {
                proof {
                    lemma_far_sum(ma as nat, mb as nat, gap as nat, na == nb);
                }
                far_sum(na, ma, mb, na == nb, eb, gap)
            }
        } else {
            let gap: i32 = eb - ea;
            if gap <= 64 {
                near_sum(lifted(na, ma, 0), lifted(nb, mb, gap), na && nb, ea)
            } else {
                proof {
                    lemma_far_sum(mb as nat, ma as nat, gap as nat, na == nb);
                }
                far_sum(nb, mb, ma, na == nb, ea, gap)
            }
        }
    }

    #[verifier::allow_in_spec]
    pub fn minus(self, other: Self) -> Self
        returns
            spec_minus(self, other),
    {
        self.plus(other.neg())
    }

    /// Whole part and the digits below the point of a value with a negative
    /// exponent, and the weight of one unit.
    fn split(self) -> (r: (u64, u64, bool))
        requires
            self.finite(),
            self.exponent() < 0,
        ensures
            r.0 == whole_part(self),
            (r.1 > 0) == (fraction_part(self) > 0),
            r.2 == (2 * fraction_part(self) >= pow2((-self.exponent()) as nat)),
            r.0 < 2 * HIDDEN,
    {
        let (m, e) = self.parts();
        proof {
            lemma_pow2_values();
        }
        if e <= -64 {
            proof {
                lemma_pow2_monotone(64, (-e) as nat);
                lemma_basic_div(m as int, pow2((-e) as nat) as int);
                lemma_small_mod(m as nat, pow2((-e) as nat));
            }
            (0, m, false)
        } else {
            let p: u128 = power((-e) as u32);
            let q: u128 = m as u128 / p;
            let r: u128 = m as u128 % p;
            proof {
                lemma_pow2_monotone((-e) as nat, 64);
                lemma_mod_bound(m as int, p as int);
                assert(q <= m) by (nonlinear_arith)
                    requires
                        q == m as u128 / p,
                        p > 0,
                ;
            }
            (q as u64, r as u64, 2 * r >= p)
        }
    }

    /// Cuts the value to a whole number; what is out of range saturates.
    #[verifier::allow_in_spec]
    pub fn floor_u64(self) -> u64
        returns
            spec_floor_u64(self),
    {
        proof {
            reveal(spec_floor_u64);
            lemma_pow2_values();
        }
        if self.is_nan() || self.sign() {
            return 0;
        }
        if self.is_infinite() {
            return u64::MAX;
        }
        let (m, e) = self.parts();
        if e < 0 {
            return self.split().0;
        }
        if e > 64 {
            proof {
                lemma_pow2_monotone(64, e as nat);
                assert(m * pow2(e as nat) > u64::MAX) by (nonlinear_arith)
                    requires
                        m >= 1,
                        pow2(e as nat) >= 0x1_0000_0000_0000_0000,
                ;
            }
            return u64::MAX;
        }
        let v: i128 = lifted(false, m, e);
        if v > u64::MAX as i128 {
            u64::MAX
        } else {
            v as u64
        }
    }

    #[verifier::allow_in_spec]
    pub fn ceil(self) -> Self
        returns
            spec_ceil(self),
    {
        proof {
            reveal(spec_ceil);
            lemma_pow2_values();
        }
        if !self.is_finite() {
            return self;
        }
        let (m, e) = self.parts();
        if e >= 0 {
            return self;
        }
        let (q, f, _half) = self.split();
        proof {
            lemma_bit_len_bound(q as nat, 64);
            lemma_bit_len_bound((q + 1) as nat, 64);
        }
        if self.sign() {
            round(true, q as u128, 0, false)
        } else {
            round(false, if f > 0 { q as u128 + 1 } else { q as u128 }, 0, false)
        }
    }

    #[verifier::allow_in_spec]
    pub fn nearest(self) -> Self
        returns
            spec_nearest(self),
    {
        proof {
            reveal(spec_nearest);
            lemma_pow2_values();
        }
        if !self.is_finite() {
            return self;
        }
        let (m, e) = self.parts();
        if e >= 0 {
            return self;
        }
        let (q, _f, half) = self.split();
        proof {
            lemma_bit_len_bound(q as nat, 64);
            lemma_bit_len_bound((q + 1) as nat, 64);
        }
        round(self.sign(), if half { q as u128 + 1 } else { q as u128 }, 0, false)
    }

    #[verifier::allow_in_spec]
    pub fn sqrt(self) -> Self
        returns
            spec_sqrt(self),
    {
        proof {
            reveal(spec_sqrt);
        }
        if self.is_zero() {
            return self;
        }
        if self.is_nan() || self.sign() {
            return Binary64 { bits: NAN_BITS };
        }
        if self.is_infinite() {
            return self;
        }
        let (sig, e) = self.parts();
        let n: i32 = digits(sig as u128) as i32;
        let s0: i32 = 123 - n;
        let odd: bool = (e + 5000 - s0) % 2 != 0;
        let s: i32 = if odd { s0 + 1 } else { s0 };
        let p: u128 = power(s as u32);
        proof {
            lemma_bit_len_scale(sig as nat, s as nat);
            lemma_bit_len(sig as nat * pow2(s as nat));
            lemma_pow2_monotone((n + s) as nat, 124);
            lemma_pow2_monotone(124, 127);
            lemma_pow2_values();
        }
        let m: u128 = sig as u128 * p;
        let root: u128 = whole_root(m);
        proof {
            let chosen: nat = choose|root: nat| is_root(root, m as nat);
            assert(is_root(root as nat, m as nat));
            lemma_root_unique(root as nat, chosen, m as nat);
            lemma_bit_len_bound(root as nat, 64);
            assert(((e + 5000 - s) / 2) - 2500 == (e - s) / 2);
        }
        round(false, root, (e + 5000 - s) / 2 - 2500, root * root != m)
    }
}

proof fn lemma_root_unique(a: nat, b: nat, m: nat)
    requires
        is_root(a, m),
        is_root(b, m),
    ensures
        a == b,
{
    assert(a == b) by (nonlinear_arith)
        requires
            a * a <= m < (a + 1) * (a + 1),
            b * b <= m < (b + 1) * (b + 1),
    ;
}

fn whole_root(m: u128) -> (root: u128)
    requires
        m < pow2(124),
    ensures
        is_root(root as nat, m as nat),
        root < 0x1_0000_0000_0000_0000,
        root * root <= m,
{
    proof {
        lemma_pow2_values();
        lemma2_to64_rest();
        lemma_pow2_adds(62, 62);
    }
    let mut lo: u128 = 0;
    let mut hi: u128 = 0x4000_0000_0000_0000;
    while hi - lo > 1
        invariant
            lo < hi <= 0x4000_0000_0000_0000,
            lo * lo <= m < hi * hi,
        decreases hi - lo,
    {
        let mid: u128 = (lo + hi) / 2;
        assert(mid * mid <= 0x4000_0000_0000_0000 * 0x4000_0000_0000_0000) by (nonlinear_arith)
            requires
                mid <= 0x4000_0000_0000_0000,
        ;
        if mid * mid <= m {
            lo = mid;
        } else {
            hi = mid;
        }
    }
    lo
}

} // verus!
