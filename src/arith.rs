//! Integer facts that the exact geometry rests on.
use vstd::prelude::*;
use vstd::arithmetic::div_mod::{
    lemma_fundamental_div_mod,
    lemma_div_multiples_vanish,
};

verus! {

pub open spec fn abs(v: int) -> nat {
    if v < 0 {
        (-v) as nat
    } else {
        v as nat
    }
}

pub open spec fn sgn(v: int) -> int {
    if v < 0 {
        -1
    } else if v > 0 {
        1
    } else {
        0
    }
}

/// Greatest common divisor, by Euclid's algorithm.
pub open spec fn gcd(a: nat, b: nat) -> nat
    decreases b,
{
    if b == 0 {
        a
    } else {
        gcd(b, a % b)
    }
}

pub proof fn lemma_mul_bound(a: int, b: int, ba: int, bb: int)
    requires
        -ba <= a <= ba,
        -bb <= b <= bb,
    ensures
        -(ba * bb) <= a * b <= ba * bb,
{
    assert(-(ba * bb) <= a * b <= ba * bb) by (nonlinear_arith)
        requires
            -ba <= a <= ba,
            -bb <= b <= bb,
    ;
}

pub proof fn lemma_sgn_mul(a: int, b: int)
    ensures
        sgn(a * b) == sgn(a) * sgn(b),
{
    if a > 0 && b > 0 {
        assert(a * b > 0) by (nonlinear_arith)
            requires
                a > 0,
                b > 0,
        ;
    } else if a > 0 && b < 0 {
        assert(a * b < 0) by (nonlinear_arith)
            requires
                a > 0,
                b < 0,
        ;
    } else if a < 0 && b > 0 {
        assert(a * b < 0) by (nonlinear_arith)
            requires
                a < 0,
                b > 0,
        ;
    } else if a < 0 && b < 0 {
        assert(a * b > 0) by (nonlinear_arith)
            requires
                a < 0,
                b < 0,
        ;
    } else {
        assert(a * b == 0) by (nonlinear_arith)
            requires
                a == 0 || b == 0,
        ;
    }
}

/// `g` divides `v`, witnessed by `v == g * (v / g)`.
pub open spec fn divides(g: int, v: int) -> bool {
    v == g * (v / g)
}

pub proof fn lemma_divides_of_multiple(g: int, k: int, v: int)
    requires
        g > 0,
        v == g * k,
    ensures
        divides(g, v),
        v / g == k,
{
    lemma_div_multiples_vanish(k, g);
}

/// Euclid's `gcd` is zero only for two zeros, and divides both arguments.
pub proof fn lemma_gcd_divides(a: nat, b: nat)
    ensures
        gcd(a, b) == 0 ==> a == 0 && b == 0,
        gcd(a, b) > 0 ==> divides(gcd(a, b) as int, a as int) && divides(
            gcd(a, b) as int,
            b as int,
        ),
    decreases b,
{
    if b == 0 {
        if a > 0 {
            lemma_divides_of_multiple(a as int, 1, a as int);
        }
        assert(divides(a as int, 0)) by {
            if a > 0 {
                lemma_divides_of_multiple(a as int, 0, 0);
            }
        }
    } else {
        let r = a % b;
        lemma_gcd_divides(b, r);
        let g = gcd(a, b) as int;
        assert(g == gcd(b, r));
        assert(g > 0);
        lemma_fundamental_div_mod(a as int, b as int);
        let q = (a as int) / (b as int);
        let kb = (b as int) / g;
        let kr = (r as int) / g;
        assert(a as int == g * (kb * q + kr)) by (nonlinear_arith)
            requires
                a as int == (b as int) * q + (r as int),
                b as int == g * kb,
                r as int == g * kr,
        ;
        lemma_divides_of_multiple(g, kb * q + kr, a as int);
    }
}

/// Divisibility passes through a chain `g | h | v`.
pub proof fn lemma_divides_trans(g: int, h: int, v: int)
    requires
        g > 0,
        h > 0,
        divides(g, h),
        divides(h, v),
    ensures
        divides(g, v),
{
    let k1 = h / g;
    let k2 = v / h;
    assert(v == g * (k1 * k2)) by (nonlinear_arith)
        requires
            h == g * k1,
            v == h * k2,
    ;
    lemma_divides_of_multiple(g, k1 * k2, v);
}

/// A divisor of `|v|` divides `v`.
pub proof fn lemma_divides_abs(g: int, v: int)
    requires
        g > 0,
        divides(g, abs(v) as int),
    ensures
        divides(g, v),
{
    if v < 0 {
        let k = (abs(v) as int) / g;
        assert(v == g * (-k)) by (nonlinear_arith)
            requires
                -v == g * k,
        ;
        lemma_divides_of_multiple(g, -k, v);
    }
}

/// `(k * x) * k1 - (k * z) * k2 + (k * w) * k3 == k * (x * k1 - z * k2 + w * k3)`.
pub proof fn lemma_scale_form(k: int, x: int, z: int, w: int, k1: int, k2: int, k3: int)
    ensures
        (k * x) * k1 - (k * z) * k2 + (k * w) * k3 == k * (x * k1 - z * k2 + w * k3),
{
    assert((k * x) * k1 == k * (x * k1)) by (nonlinear_arith);
    assert((k * z) * k2 == k * (z * k2)) by (nonlinear_arith);
    assert((k * w) * k3 == k * (w * k3)) by (nonlinear_arith);
    assert(k * (x * k1) - k * (z * k2) + k * (w * k3) == k * (x * k1 - z * k2 + w * k3))
        by (nonlinear_arith);
}

/// `(l1 * a - l0 * b) * k == l1 * (a * k) - l0 * (b * k)`.
proof fn lemma_combination_term(l0: int, l1: int, a: int, b: int, k: int)
    ensures
        (l1 * a - l0 * b) * k == l1 * (a * k) - l0 * (b * k),
{
    assert((l1 * a - l0 * b) * k == l1 * (a * k) - l0 * (b * k)) by (nonlinear_arith);
}

/// The form `x * k1 - z * k2 + w * k3` vanishes at `l1 * p0 - l0 * p1`
/// when `l0` and `l1` are its values at `p0` and `p1`.
pub proof fn lemma_combination_form(
    l0: int,
    l1: int,
    x0: int,
    z0: int,
    w0: int,
    x1: int,
    z1: int,
    w1: int,
    k1: int,
    k2: int,
    k3: int,
)
    requires
        l0 == x0 * k1 - z0 * k2 + w0 * k3,
        l1 == x1 * k1 - z1 * k2 + w1 * k3,
    ensures
        (l1 * x0 - l0 * x1) * k1 - (l1 * z0 - l0 * z1) * k2 + (l1 * w0 - l0 * w1) * k3 == 0,
{
    lemma_combination_term(l0, l1, x0, x1, k1);
    lemma_combination_term(l0, l1, z0, z1, k2);
    lemma_combination_term(l0, l1, w0, w1, k3);
    let u0 = x0 * k1;
    let v0 = z0 * k2;
    let s0 = w0 * k3;
    let u1 = x1 * k1;
    let v1 = z1 * k2;
    let s1 = w1 * k3;
    assert(l1 * u0 - l1 * v0 + l1 * s0 == l1 * (u0 - v0 + s0)) by (nonlinear_arith);
    assert(l0 * u1 - l0 * v1 + l0 * s1 == l0 * (u1 - v1 + s1)) by (nonlinear_arith);
    assert(l1 * l0 == l0 * l1) by (nonlinear_arith);
}

/// `(-k) * (x * a - c * y) == -(a * (x * k)) + y * (c * k)`.
proof fn lemma_side_term(k: int, x: int, a: int, c: int, y: int)
    ensures
        (-k) * (x * a - c * y) == -(a * (x * k)) + y * (c * k),
{
    assert((-k) * (x * a - c * y) == -(a * (x * k)) + y * (c * k)) by (nonlinear_arith);
}

/// The cross product of a line's direction with the vector from its first
/// point `a` to `q`, in homogeneous plan coordinates, is `-aw` times the
/// line's form at `q`.
pub proof fn lemma_side_identity(
    ax: int,
    az: int,
    aw: int,
    bx: int,
    bz: int,
    bw: int,
    qx: int,
    qz: int,
    qw: int,
)
    ensures
        (bz * aw - az * bw) * (qx * aw - ax * qw) - (bx * aw - ax * bw) * (qz * aw - az * qw) == -(
        aw * (qx * (az * bw - aw * bz) - qz * (ax * bw - aw * bx) + qw * (ax * bz - az * bx))),
{
    let k1 = az * bw - aw * bz;
    let k2 = ax * bw - aw * bx;
    let k3 = ax * bz - az * bx;
    assert(bz * aw - az * bw == -k1) by (nonlinear_arith)
        requires
            k1 == az * bw - aw * bz,
    ;
    assert(bx * aw - ax * bw == -k2) by (nonlinear_arith)
        requires
            k2 == ax * bw - aw * bx,
    ;
    lemma_side_term(k1, qx, aw, ax, qw);
    lemma_side_term(k2, qz, aw, az, qw);
    assert(ax * k1 - az * k2 == -(aw * k3)) by (nonlinear_arith)
        requires
            k1 == az * bw - aw * bz,
            k2 == ax * bw - aw * bx,
            k3 == ax * bz - az * bx,
    ;
    let t1 = qx * k1;
    let t2 = qz * k2;
    let t3 = qw * k3;
    let e1 = ax * k1;
    let e2 = az * k2;
    assert(qw * e1 - qw * e2 == qw * (e1 - e2)) by (nonlinear_arith);
    assert(qw * (-(aw * k3)) == -(aw * t3)) by (nonlinear_arith)
        requires
            t3 == qw * k3,
    ;
    assert(-(aw * t1) + aw * t2 - aw * t3 == -(aw * (t1 - t2 + t3))) by (nonlinear_arith);
}

/// A point over a zero denominator is never strictly between two points
/// over positive denominators.
pub proof fn lemma_zero_denominator_outside(a: int, aw: int, m: int, b: int, bw: int)
    requires
        aw > 0,
        bw > 0,
    ensures
        !(a * 0 < m * aw && m * bw < b * 0),
{
    if m <= 0 {
        assert(m * aw <= 0) by (nonlinear_arith)
            requires
                m <= 0,
                aw > 0,
        ;
    } else {
        assert(m * bw > 0) by (nonlinear_arith)
            requires
                m > 0,
                bw > 0,
        ;
    }
}

/// `0 == k * v` with `k != 0` forces `v == 0`.
pub proof fn lemma_zero_product(k: int, v: int)
    ensures
        k != 0 && k * v == 0 ==> v == 0,
        v == 0 ==> k * v == 0,
{
    if k != 0 && v != 0 {
        lemma_sgn_mul(k, v);
    }
    if v == 0 {
        assert(k * v == 0) by (nonlinear_arith)
            requires
                v == 0,
        ;
    }
}

} // verus!
