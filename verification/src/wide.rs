//! Comparison of products that do not fit in 128 bits.
use vstd::prelude::*;

verus! {

/// Two to the 64th.
pub open spec fn limb() -> int {
    0x1_0000_0000_0000_0000int
}

/// Two to the 128th.
pub open spec fn double_limb() -> int {
    0x1_0000_0000_0000_0000_0000_0000_0000_0000int
}

proof fn lemma_limb_product(a: int, b: int)
    requires
        0 <= a < limb(),
        0 <= b < limb(),
    ensures
        0 <= a * b <= 0xffff_ffff_ffff_fffe_0000_0000_0000_0001int,
{
    assert(0 <= a * b <= 0xffff_ffff_ffff_fffe_0000_0000_0000_0001int) by (nonlinear_arith)
        requires
            0 <= a <= 0xffff_ffff_ffff_ffffint,
            0 <= b <= 0xffff_ffff_ffff_ffffint,
    ;
}

proof fn lemma_expand(a1: int, a0: int, b1: int, b0: int, l: int)
    ensures
        (a1 * l + a0) * (b1 * l + b0) == a1 * b1 * (l * l) + (a1 * b0 + a0 * b1) * l + a0 * b0,
{
    let x = a1 * l + a0;
    assert(x * (b1 * l + b0) == x * (b1 * l) + x * b0) by (nonlinear_arith);
    assert((a1 * l + a0) * b0 == a1 * b0 * l + a0 * b0) by (nonlinear_arith);
    assert((a1 * l + a0) * (b1 * l) == (a1 * l) * (b1 * l) + a0 * (b1 * l)) by (nonlinear_arith);
    assert((a1 * l) * (b1 * l) == a1 * b1 * (l * l)) by (nonlinear_arith);
    assert(a0 * (b1 * l) == a0 * b1 * l) by (nonlinear_arith);
    assert((a1 * b0 + a0 * b1) * l == a1 * b0 * l + a0 * b1 * l) by (nonlinear_arith);
}

/// The product of two numbers as a high and a low half.
fn product(a: u128, b: u128) -> (r: (u128, u128))
    ensures
        r.0 * double_limb() + r.1 == a * b,
{
    let l: u128 = 0x1_0000_0000_0000_0000;
    let (a1, a0) = (a / l, a % l);
    let (b1, b0) = (b / l, b % l);
    proof {
        lemma_limb_product(a1 as int, b1 as int);
        lemma_limb_product(a1 as int, b0 as int);
        lemma_limb_product(a0 as int, b1 as int);
        lemma_limb_product(a0 as int, b0 as int);
        lemma_expand(a1 as int, a0 as int, b1 as int, b0 as int, limb());
        assert(a == a1 * limb() + a0);
        assert(b == b1 * limb() + b0);
    }
    let p00: u128 = a0 * b0;
    let p01: u128 = a0 * b1;
    let p10: u128 = a1 * b0;
    let p11: u128 = a1 * b1;
    // At most three numbers below the limb.
    let mid: u128 = p00 / l + p01 % l + p10 % l;
    let low: u128 = (mid % l) * l + p00 % l;
    let high: u128 = p11 + p01 / l + p10 / l + mid / l;
    proof {
        let ll = limb();
        assert(p00 == (p00 / l) * ll + p00 % l);
        assert(p01 == (p01 / l) * ll + p01 % l);
        assert(p10 == (p10 / l) * ll + p10 % l);
        assert(mid == (mid / l) * ll + mid % l);
        assert(p11 * (ll * ll) == p11 * double_limb());
    }
    (high, low)
}

/// `a * b` is at most `c * d`.
pub fn product_le(a: u128, b: u128, c: u128, d: u128) -> (r: bool)
    ensures
        r == (a * b <= c * d),
{
    let (h1, l1) = product(a, b);
    let (h2, l2) = product(c, d);
    h1 < h2 || (h1 == h2 && l1 <= l2)
}

/// Four limbs of 128 bits, the highest one first.
type Limbs = (u128, u128, u128, u128);

/// The number that four limbs stand for.
spec fn value(w: Limbs) -> int {
    ((w.0 * double_limb() + w.1) * double_limb() + w.2) * double_limb() + w.3
}

/// A sum as what it carries and its low half.
fn sum(a: u128, b: u128, c: u128) -> (r: (u128, u128))
    ensures
        r.0 * double_limb() + r.1 == a + b + c,
        r.0 <= 2,
{
    let (x, k) = if a > u128::MAX - b {
        (a - (u128::MAX - b) - 1, 1u128)
    } else {
        (a + b, 0u128)
    };
    if x > u128::MAX - c {
        (k + 1, x - (u128::MAX - c) - 1)
    } else {
        (k, x + c)
    }
}

/// `(h1 * d + l1) * (h2 * d + l2)`, expanded.
proof fn lemma_expand_halves(h1: int, l1: int, h2: int, l2: int, d: int)
    ensures
        (h1 * d + l1) * (h2 * d + l2) == (h1 * h2 * d + (h1 * l2 + l1 * h2)) * d + l1 * l2,
{
    let (hh, hl, lh, ll) = (h1 * h2, h1 * l2, l1 * h2, l1 * l2);
    lemma_expand(h1, l1, h2, l2, d);
    assert(hh * (d * d) == hh * d * d) by (nonlinear_arith);
    assert((hh * d + (hl + lh)) * d == hh * d * d + (hl + lh) * d) by (nonlinear_arith);
}

/// The product of four numbers.
fn product_of_four(a: u128, b: u128, c: u128, d: u128) -> (r: Limbs)
    ensures
        value(r) == (a * b) * (c * d),
{
    let (h1, l1) = product(a, b);
    let (h2, l2) = product(c, d);
    let (p1, p0) = product(l1, l2);
    let (q1, q0) = product(h1, l2);
    let (r1, r0) = product(l1, h2);
    let (s1, s0) = product(h1, h2);
    let (k1, w1) = sum(p1, q0, r0);
    let (k2, x2) = sum(q1, r1, s0);
    let (k3, w2) = sum(x2, k1, 0);
    proof {
        let dd = double_limb();
        let top = s1 + k2 + k3;
        let whole = ((top * dd + w2) * dd + w1) * dd + p0;
        lemma_expand_halves(h1 as int, l1 as int, h2 as int, l2 as int, dd);
        assert(whole == (a * b) * (c * d));
        let (x, y) = (a * b, c * d);
        assert(0 <= x < dd * dd && 0 <= y < dd * dd) by (nonlinear_arith)
            requires
                x == a * b,
                y == c * d,
                0 <= a < dd,
                0 <= b < dd,
                0 <= c < dd,
                0 <= d < dd,
        ;
        assert(x * y < (dd * dd) * (dd * dd)) by (nonlinear_arith)
            requires
                0 <= x < dd * dd,
                0 <= y < dd * dd,
        ;
        assert(top * dd * dd * dd <= whole);
        assert(top < dd) by (nonlinear_arith)
            requires
                top * dd * dd * dd < (dd * dd) * (dd * dd),
                dd > 0,
        ;
    }
    (s1 + k2 + k3, w2, w1, p0)
}

fn at_most(v: Limbs, w: Limbs) -> (r: bool)
    ensures
        r == (value(v) <= value(w)),
{
    v.0 < w.0 || (v.0 == w.0 && (v.1 < w.1 || (v.1 == w.1 && (v.2 < w.2 || (v.2 == w.2 && v.3
        <= w.3)))))
}

/// The product of the first four numbers is at most that of the other four.
pub fn products_le(a: [u128; 4], b: [u128; 4]) -> (r: bool)
    ensures
        r == ((a[0] * a[1]) * (a[2] * a[3]) <= (b[0] * b[1]) * (b[2] * b[3])),
{
    let v = product_of_four(a[0], a[1], a[2], a[3]);
    let w = product_of_four(b[0], b[1], b[2], b[3]);
    at_most(v, w)
}

} // verus!
