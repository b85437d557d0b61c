//! Chains of binary64 operations, followed as exact numbers to within a small
//! part.
use crate::binary64;
use crate::binary64::Binary64;
use crate::binary64_laws;
use crate::binary64_size;
use vstd::arithmetic::power2::*;
use vstd::prelude::*;

verus! {

/// Whether a number is another to within so many parts in two to the fiftieth.
pub open spec fn approx(x: nat, y: nat, k: nat) -> bool {
    &&& x * 0x4_0000_0000_0000 <= y * (0x4_0000_0000_0000 + k)
    &&& y * (0x4_0000_0000_0000 - k) <= x * 0x4_0000_0000_0000
}

pub proof fn lemma_approx_near(x: nat, y: nat)
    requires
        binary64_laws::near(x, y),
    ensures
        approx(x, y, 1),
{
}

pub proof fn lemma_approx_more(x: nat, y: nat, k: nat, l: nat)
    requires
        approx(x, y, k),
        k <= l,
    ensures
        approx(x, y, l),
{
    assert(y * (0x4_0000_0000_0000 + k) <= y * (0x4_0000_0000_0000 + l)) by (nonlinear_arith)
        requires
            k <= l,
            y >= 0,
    ;
    assert(y * (0x4_0000_0000_0000 - l) <= y * (0x4_0000_0000_0000 - k)) by (nonlinear_arith)
        requires
            k <= l,
            y >= 0,
    ;
}

pub proof fn lemma_approx_chain(x: nat, y: nat, z: nat, k: nat, l: nat)
    requires
        approx(x, y, k),
        approx(y, z, l),
        k <= 0x1000,
        l <= 0x1000,
    ensures
        approx(x, z, k + l + 1),
{
    let g: int = 0x4_0000_0000_0000;
    let m: nat = k * l;
    assert(0 <= m <= 0x100_0000) by (nonlinear_arith)
        requires
            m == k * l,
            0 <= k <= 0x1000,
            0 <= l <= 0x1000,
    ;
    assert((x * g) * g <= (z * (g + l)) * (g + k)) by (nonlinear_arith)
        requires
            x * g <= y * (g + k),
            y * g <= z * (g + l),
            g > 0,
            k >= 0,
            l >= 0,
    ;
    assert((z * (g + l)) * (g + k) == z * (g * (g + k + l) + m)) by (nonlinear_arith)
        requires
            m == k * l,
    ;
    assert(z * (g * (g + k + l) + m) <= z * (g * (g + k + l + 1))) by (nonlinear_arith)
        requires
            0 <= m <= g,
            z >= 0,
            g == 0x4_0000_0000_0000int,
    ;
    assert(x * g <= z * (g + k + l + 1)) by (nonlinear_arith)
        requires
            (x * g) * g <= z * (g * (g + k + l + 1)),
            g > 0,
    ;
    assert((z * (g - l)) * (g - k) <= (x * g) * g) by (nonlinear_arith)
        requires
            y * (g - k) <= x * g,
            z * (g - l) <= y * g,
            g > 0,
            0 <= k < g,
            0 <= l < g,
    ;
    assert((z * (g - l)) * (g - k) == z * (g * (g - k - l) + m)) by (nonlinear_arith)
        requires
            m == k * l,
    ;
    assert(z * (g * (g - k - l - 1)) <= z * (g * (g - k - l) + m)) by (nonlinear_arith)
        requires
            0 <= m,
            z >= 0,
            g > 0,
    ;
    assert(z * (g - k - l - 1) <= x * g) by (nonlinear_arith)
        requires
            z * (g * (g - k - l - 1)) <= (x * g) * g,
            g > 0,
    ;
}

pub proof fn lemma_approx_scale(x: nat, y: nat, k: nat, c: nat)
    requires
        approx(x, y, k),
        k <= 0x1000,
    ensures
        approx(x * c, y * c, k),
        approx(c * x, c * y, k),
{
    let g: int = 0x4_0000_0000_0000;
    assert((x * c) * g <= (y * c) * (g + k)) by (nonlinear_arith)
        requires
            x * g <= y * (g + k),
            c >= 0,
    ;
    assert((y * c) * (g - k) <= (x * c) * g) by (nonlinear_arith)
        requires
            y * (g - k) <= x * g,
            c >= 0,
    ;
    assert(x * c == c * x && y * c == c * y) by (nonlinear_arith);
}

pub proof fn lemma_approx_cancel(x: nat, y: nat, k: nat, c: nat)
    requires
        approx(x * c, y * c, k),
        c > 0,
    ensures
        approx(x, y, k),
{
    let g: int = 0x4_0000_0000_0000;
    assert(x * g <= y * (g + k)) by (nonlinear_arith)
        requires
            (x * c) * g <= (y * c) * (g + k),
            c > 0,
    ;
    assert(y * (g - k) <= x * g) by (nonlinear_arith)
        requires
            (y * c) * (g - k) <= (x * c) * g,
            c > 0,
    ;
}

pub proof fn lemma_approx_swap(x: nat, y: nat, k: nat)
    requires
        approx(x, y, k),
        k <= 0x1000,
    ensures
        approx(y, x, k + 1),
{
    let g: int = 0x4_0000_0000_0000;
    let m: nat = k * k;
    assert(0 <= m <= 0x100_0000) by (nonlinear_arith)
        requires
            m == k * k,
            0 <= k <= 0x1000,
    ;
    assert((g - k) * (g + k + 1) == g * g + g - m - k && (g + k) * (g - k - 1) == g * g - g - m
        - k) by (nonlinear_arith)
        requires
            m == k * k,
    ;
    assert(y * g <= x * (g + k + 1)) by (nonlinear_arith)
        requires
            y * (g - k) <= x * g,
            (g - k) * (g + k + 1) >= g * g,
            g > 0,
            k >= 0,
            y >= 0,
    ;
    assert(x * (g - k - 1) <= y * g) by (nonlinear_arith)
        requires
            x * g <= y * (g + k),
            (g + k) * (g - k - 1) <= g * g,
            g - k - 1 > 0,
            g > 0,
            y >= 0,
    ;
}

pub proof fn lemma_approx_product(x: nat, y: nat, k: nat, u: nat, v: nat, l: nat)
    requires
        approx(x, y, k),
        approx(u, v, l),
        k <= 0x1000,
        l <= 0x1000,
    ensures
        approx(x * u, y * v, k + l + 1),
{
    lemma_approx_scale(x, y, k, u);
    lemma_approx_scale(u, v, l, y);
    lemma_approx_chain(x * u, y * u, y * v, k, l);
}

/// Where a factor is known and a product with it, so is the product with what
/// the factor approximates.
pub proof fn lemma_approx_replace(a: nat, b: nat, d: nat, c: nat, k: nat, l: nat)
    requires
        approx(a * b, c, k),
        approx(b, d, l),
        k <= 0x800,
        l <= 0x800,
    ensures
        approx(a * d, c, k + l + 2),
{
    lemma_approx_swap(b, d, l);
    lemma_approx_scale(d, b, l + 1, a);
    lemma_approx_chain(a * d, a * b, c, l + 1, k);
}

/// What is clearly less stays less.
pub proof fn lemma_clear(x: nat, y: nat, u: nat, v: nat, k: nat)
    requires
        approx(x, u, k),
        approx(y, v, k),
        binary64_size::clearly_less(u, v),
        k <= 0x1000,
    ensures
        x < y,
{
    lemma_approx_more(x, u, k, 0x1000);
    lemma_approx_more(y, v, k, 0x1000);
    assert(u * (0x4_0000_0000_0000 + 0x1000) == u * 0x4_0000_0000_1000);
    assert(v * (0x4_0000_0000_0000 - 0x1000) == v * 0x3_ffff_ffff_f000);
}

// ---- Steps -------------------------------------------------------------------------

pub proof fn lemma_least(x: nat, y: nat, a: nat, b: nat)
    requires
        x >= pow2(a),
        y >= pow2(b),
    ensures
        x * y >= pow2(a + b),
{
    binary64_laws::lemma_scaled(1, a, b);
    assert(x * y >= pow2(a) * pow2(b)) by (nonlinear_arith)
        requires
            x >= pow2(a),
            y >= pow2(b),
            pow2(a) >= 0,
            pow2(b) >= 0,
    ;
}

pub proof fn lemma_most(x: nat, y: nat, a: nat, b: nat)
    requires
        x <= pow2(a),
        y <= pow2(b),
    ensures
        x * y <= pow2(a + b),
{
    binary64_laws::lemma_scaled(1, a, b);
    assert(x * y <= pow2(a) * pow2(b)) by (nonlinear_arith)
        requires
            x <= pow2(a),
            y <= pow2(b),
            x >= 0,
            y >= 0,
    ;
}

/// What a factor of a product must be, by the other.
pub proof fn lemma_quotient_size(x: nat, v: nat, low: nat, high: nat, a: nat, b: nat)
    requires
        x * v >= pow2(low),
        v <= pow2(b),
        low >= b,
        x * v <= pow2(high),
        v >= pow2(a),
        high >= a,
    ensures
        pow2((low - b) as nat) <= x <= pow2((high - a) as nat),
{
    binary64_laws::lemma_scaled(1, (low - b) as nat, b);
    binary64_laws::lemma_scaled(1, (high - a) as nat, a);
    lemma_pow2_pos(a);
    lemma_pow2_pos(b);
    let p: nat = pow2((low - b) as nat);
    let q: nat = pow2((high - a) as nat);
    assert(p <= x) by (nonlinear_arith)
        requires
            p * pow2(b) <= x * v,
            v <= pow2(b),
            pow2(b) > 0,
            x >= 0,
    ;
    assert(x <= q) by (nonlinear_arith)
        requires
            x * v <= q * pow2(a),
            v >= pow2(a),
            pow2(a) > 0,
            x >= 0,
    ;
}

/// Whether a value is plain and its number within powers of two.
pub open spec fn sized(x: Binary64, low: nat, high: nat) -> bool {
    binary64_laws::plain(x) && pow2(low) <= binary64_laws::units(x) <= pow2(high)
}

proof fn lemma_twice(x: nat, y: nat, a: nat, b: nat)
    requires
        approx(x, y, 1),
        pow2(a) <= y <= pow2(b),
        a >= 1,
    ensures
        pow2((a - 1) as nat) <= x <= pow2(b + 1),
{
    lemma2_to64();
    binary64_laws::lemma_scaled(1, (a - 1) as nat, 1);
    binary64_laws::lemma_scaled(1, b, 1);
    assert(y * (0x4_0000_0000_0000 + 1) == y * 0x4_0000_0000_0001);
    assert(y * (0x4_0000_0000_0000 - 1) == y * 0x3_ffff_ffff_ffff);
}

pub proof fn times_step(a: Binary64, b: Binary64, i: nat, j: nat, k: nat, l: nat)
    requires
        sized(a, i, j),
        sized(b, k, l),
        i <= j,
        k <= l,
        i + k >= 1126,
        j + l <= 3170,
    ensures
        sized(a.times(b), (i + k - 1075) as nat, (j + l - 1073) as nat),
        approx(
            binary64_laws::units(a.times(b)) * binary64_laws::one(),
            binary64_laws::units(a) * binary64_laws::units(b),
            1,
        ),
{
    let m: nat = binary64_laws::units(a) * binary64_laws::units(b);
    lemma_least(binary64_laws::units(a), binary64_laws::units(b), i, k);
    lemma_most(binary64_laws::units(a), binary64_laws::units(b), j, l);
    binary64::lemma_pow2_monotone(1126, i + k);
    binary64_laws::lemma_scaled(1, j + l, 1);
    binary64_laws::lemma_scaled(1, 2098, 1074);
    lemma2_to64();
    lemma_pow2_strictly_increases(j + l + 1, 3172);
    binary64_laws::a_product_is_near(a, b);
    let x: nat = binary64_laws::units(a.times(b));
    lemma_approx_near(x * binary64_laws::one(), m);
    lemma_twice(x * binary64_laws::one(), m, i + k, j + l);
    lemma_quotient_size(
        x,
        binary64_laws::one(),
        (i + k - 1) as nat,
        j + l + 1,
        1074,
        1074,
    );
}

pub proof fn over_step(a: Binary64, b: Binary64, i: nat, j: nat, k: nat, l: nat)
    requires
        sized(a, i, j),
        sized(b, k, l),
        i <= j,
        k <= l,
        l <= i + 1022,
        j < k + 1000,
    ensures
        sized(a.over(b), (i + 1073 - l) as nat, (j + 1075 - k) as nat),
        approx(
            binary64_laws::units(a.over(b)) * binary64_laws::units(b),
            binary64_laws::units(a) * binary64_laws::one(),
            1,
        ),
{
    let u: nat = binary64_laws::units(a);
    let v: nat = binary64_laws::units(b);
    lemma_pow2_pos(k);
    lemma_least(u, pow2(1022), i, 1022);
    binary64::lemma_pow2_monotone(l, i + 1022);
    lemma_least(v, pow2(1000), k, 1000);
    lemma_pow2_strictly_increases(j, k + 1000);
    binary64_laws::a_quotient_is_near(a, b);
    let x: nat = binary64_laws::units(a.over(b));
    lemma_approx_near(x * v, u * binary64_laws::one());
    lemma_least(u, binary64_laws::one(), i, 1074);
    lemma_most(u, binary64_laws::one(), j, 1074);
    lemma_twice(x * v, u * binary64_laws::one(), i + 1074, j + 1074);
    lemma_quotient_size(x, v, (i + 1073) as nat, j + 1075, k, l);
}

} // verus!
