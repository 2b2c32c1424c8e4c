//! Audio alignment by normalized cross-correlation, with a two-point drift estimate.
//!
//! The cloud master's audio is a mix that holds each participant's voice, so the
//! correlation of a local track with the mix peaks at the offset where the two line
//! up. Samples are 16-bit; all sums over a window are exact integers.
use vstd::prelude::*;

use crate::geometry::{max_int, min_int};
use crate::model::ParticipantSync;
use crate::wide::products_le;

verus! {

/// Analysis sample rate in Hz.
pub const ANALYSIS_SR: usize = 16_000;

/// Duration of one analysis sample.
pub const NANOS_PER_SAMPLE: i64 = 62_500;

/// The window that a track is aligned by: two seconds.
pub const WINDOW: usize = 32_000;

/// Longest track and longest window, in samples: more than eight years of audio.
pub const MAX_TRACK: u64 = 0x400_0000_0000;

/// The normalized correlation `cross / sqrt(energy_a * energy_b)`.
#[derive(Debug, Clone, Copy, PartialEq, Eq, Structural)]
pub struct Correlation {
    pub cross: i128,
    pub energy_a: u128,
    pub energy_b: u128,
}

/// `Correlation` over mathematical values, `cross / sqrt(energy)`.
pub struct CorrelationView {
    pub cross: int,
    pub energy: int,
}

impl View for Correlation {
    type V = CorrelationView;

    open spec fn view(&self) -> CorrelationView {
        CorrelationView { cross: self.cross as int, energy: self.energy_a * self.energy_b }
    }
}

/// `f(0) + ... + f(n - 1)`.
pub open spec fn total(f: spec_fn(int) -> int, n: int) -> int
    decreases n,
{
    if n <= 0 {
        0
    } else {
        total(f, n - 1) + f(n - 1)
    }
}

/// Sum of the window of `n` samples at `off`.
pub open spec fn sum(a: Seq<i16>, off: int, n: int) -> int {
    total(|k: int| a[off + k] as int, n)
}

/// Sum of the products of two windows, sample by sample.
pub open spec fn sum_prod(a: Seq<i16>, ao: int, b: Seq<i16>, bo: int, n: int) -> int {
    total(|k: int| a[ao + k] * b[bo + k], n)
}

/// `n * n` times the covariance of two windows.
pub open spec fn covariance(a: Seq<i16>, ao: int, b: Seq<i16>, bo: int, n: int) -> int {
    n * sum_prod(a, ao, b, bo, n) - sum(a, ao, n) * sum(b, bo, n)
}

/// `n * n` times the variance of a window.
pub open spec fn variance(a: Seq<i16>, off: int, n: int) -> int {
    covariance(a, off, a, off, n)
}

pub open spec fn no_correlation() -> CorrelationView {
    CorrelationView { cross: 0, energy: 1 }
}

/// Normalized cross-correlation of two windows of `n` samples. It is zero where a
/// window is empty or runs past its track, and where the two are all but silent: for
/// samples scaled to `[-1, 1)`, the geometric mean of the two windows' energies about
/// their means is then no more than a billionth.
pub open spec fn correlation(
    a: Seq<i16>,
    ao: int,
    b: Seq<i16>,
    bo: int,
    n: int,
) -> CorrelationView {
    let energy = variance(a, ao, n) * variance(b, bo, n);
    if n == 0 || ao + n > a.len() || bo + n > b.len() {
        no_correlation()
    } else if energy * 1_000_000_000_000_000_000 > n * n * 0x1000_0000_0000_0000 {
        CorrelationView { cross: covariance(a, ao, b, bo, n), energy }
    } else {
        no_correlation()
    }
}

pub open spec fn abs(x: int) -> int {
    if x < 0 {
        -x
    } else {
        x
    }
}

impl CorrelationView {
    /// The correlation's value is at most that of `o`. `v -> v * |v|` is increasing, so
    /// this compares `cross * |cross| / energy`.
    pub open spec fn le(self, o: CorrelationView) -> bool {
        self.cross * abs(self.cross) * o.energy <= o.cross * abs(o.cross) * self.energy
    }

    /// The value is not negative and at most one.
    pub open spec fn is_confidence(self) -> bool {
        0 <= self.cross && self.cross * self.cross <= self.energy
    }
}

impl Correlation {
    /// The value is a number.
    pub open spec fn wf(self) -> bool {
        &&& self.cross > i128::MIN
        &&& self.energy_a > 0
        &&& self.energy_b > 0
    }

    fn at_most(&self, o: &Correlation) -> (r: bool)
        requires
            self.wf(),
            o.wf(),
        ensures
            r == self@.le(o@),
    {
        let ghost (c1, e1, c2, e2) = (self@.cross, self@.energy, o@.cross, o@.energy);
        let m1: u128 = if self.cross < 0 { (-self.cross) as u128 } else { self.cross as u128 };
        let m2: u128 = if o.cross < 0 { (-o.cross) as u128 } else { o.cross as u128 };
        let ghost (s1, s2) = (m1 * m1, m2 * m2);
        proof {
            lemma_energy(*self);
            lemma_energy(*o);
            let (p, q) = (c1 * abs(c1), c2 * abs(c2));
            if c1 < 0 {
                assert(c1 * abs(c1) == -(m1 * m1)) by (nonlinear_arith)
                    requires
                        c1 == -m1,
                        abs(c1) == m1,
                ;
                assert(p < 0) by (nonlinear_arith)
                    requires
                        p == -(m1 * m1),
                        m1 > 0,
                ;
            }
            if c2 < 0 {
                assert(c2 * abs(c2) == -(m2 * m2)) by (nonlinear_arith)
                    requires
                        c2 == -m2,
                        abs(c2) == m2,
                ;
                assert(q < 0) by (nonlinear_arith)
                    requires
                        q == -(m2 * m2),
                        m2 > 0,
                ;
            }
            assert(p >= 0 <==> c1 >= 0) by {
                assert(s1 >= 0) by (nonlinear_arith)
                    requires
                        s1 == m1 * m1,
                ;
            }
            assert(q >= 0 <==> c2 >= 0) by {
                assert(s2 >= 0) by (nonlinear_arith)
                    requires
                        s2 == m2 * m2,
                ;
            }
            assert(p * e2 >= 0 <==> p >= 0) by (nonlinear_arith)
                requires
                    e2 > 0,
            ;
            assert(q * e1 >= 0 <==> q >= 0) by (nonlinear_arith)
                requires
                    e1 > 0,
            ;
            assert((-s1) * e2 == -(s1 * e2)) by (nonlinear_arith);
            assert((-s2) * e1 == -(s2 * e1)) by (nonlinear_arith);
        }
        if self.cross < 0 {
            if o.cross < 0 {
                products_le(
                    [m2, m2, self.energy_a, self.energy_b],
                    [m1, m1, o.energy_a, o.energy_b],
                )
            } else {
                true
            }
        } else if o.cross < 0 {
            false
        } else {
            products_le([m1, m1, o.energy_a, o.energy_b], [m2, m2, self.energy_a, self.energy_b])
        }
    }
}

proof fn lemma_energy(c: Correlation)
    requires
        c.wf(),
    ensures
        c@.energy > 0,
{
    let (x, y) = (c.energy_a, c.energy_b);
    assert(x * y > 0) by (nonlinear_arith)
        requires
            x > 0,
            y > 0,
    ;
}

proof fn lemma_total_bounds(f: spec_fn(int) -> int, n: int, lo: int, hi: int)
    requires
        n >= 0,
        forall|k: int| 0 <= k < n ==> lo <= #[trigger] f(k) <= hi,
    ensures
        n * lo <= total(f, n) <= n * hi,
    decreases n,
{
    if n > 0 {
        lemma_total_bounds(f, n - 1, lo, hi);
        assert(lo <= f(n - 1) <= hi);
        assert(n * lo == (n - 1) * lo + lo && n * hi == (n - 1) * hi + hi) by (nonlinear_arith);
    } else {
        assert(n * lo == 0 && n * hi == 0) by (nonlinear_arith)
            requires
                n == 0,
        ;
    }
}

proof fn lemma_total_linear(
    f: spec_fn(int) -> int,
    g: spec_fn(int) -> int,
    h: spec_fn(int) -> int,
    x: int,
    y: int,
    n: int,
)
    requires
        forall|k: int| 0 <= k < n ==> #[trigger] h(k) == x * f(k) + y * g(k),
    ensures
        total(h, n) == x * total(f, n) + y * total(g, n),
    decreases n,
{
    if n > 0 {
        lemma_total_linear(f, g, h, x, y, n - 1);
        assert(h(n - 1) == x * f(n - 1) + y * g(n - 1));
        let (tf, tg, vf, vg) = (total(f, n - 1), total(g, n - 1), f(n - 1), g(n - 1));
        assert(x * (tf + vf) == x * tf + x * vf) by (nonlinear_arith);
        assert(y * (tg + vg) == y * tg + y * vg) by (nonlinear_arith);
    } else {
        assert(x * 0 + y * 0 == 0) by (nonlinear_arith);
    }
}

/// The square of a sum of `n` numbers is at most `n` times the sum of their squares.
proof fn lemma_square_of_total(f: spec_fn(int) -> int, sq: spec_fn(int) -> int, n: int)
    requires
        n >= 0,
        forall|k: int| 0 <= k < n ==> #[trigger] sq(k) == f(k) * f(k),
    ensures
        total(f, n) * total(f, n) <= n * total(sq, n),
        total(sq, n) >= 0,
    decreases n,
{
    if n > 0 {
        let m = n - 1;
        lemma_square_of_total(f, sq, m);
        let (t, s, v) = (total(f, m), total(sq, m), f(m));
        assert(sq(m) == v * v);
        assert(v * v >= 0) by (nonlinear_arith);
        if m == 0 {
            assert((t + v) * (t + v) <= n * (s + v * v)) by (nonlinear_arith)
                requires
                    t == 0,
                    s == 0,
                    n == 1,
            ;
        } else {
            // m * s >= t * t gives m * (s - 2 t v + m v v) >= (t - m v)^2 >= 0.
            assert((t - m * v) * (t - m * v) >= 0) by (nonlinear_arith);
            assert((t - m * v) * (t - m * v) == t * t - 2 * (m * (t * v)) + m * (m * (v * v)))
                by (nonlinear_arith);
            let d = s - 2 * (t * v) + m * (v * v);
            assert(m * d == m * s - 2 * (m * (t * v)) + m * (m * (v * v))) by (nonlinear_arith)
                requires
                    d == s - 2 * (t * v) + m * (v * v),
            ;
            assert(d >= 0) by (nonlinear_arith)
                requires
                    m * d >= 0,
                    m > 0,
            ;
            assert((t + v) * (t + v) == t * t + 2 * (t * v) + v * v) by (nonlinear_arith);
            assert(n * (s + v * v) == m * s + s + m * (v * v) + v * v) by (nonlinear_arith)
                requires
                    n == m + 1,
            ;
        }
    } else {
        assert(n * total(sq, n) == 0) by (nonlinear_arith)
            requires
                n == 0,
        ;
    }
}

/// What is summed over a window stays within 128 bits.
proof fn lemma_window_bounds(a: Seq<i16>, ao: int, b: Seq<i16>, bo: int, n: int)
    requires
        0 <= n <= MAX_TRACK,
    ensures
        -0x200_0000_0000_0000 <= sum(a, ao, n) <= 0x200_0000_0000_0000,
        -0x100_0000_0000_0000_0000 <= sum_prod(a, ao, b, bo, n) <= 0x100_0000_0000_0000_0000,
        0 <= variance(a, ao, n) <= 0x4_0000_0000_0000_0000_0000_0000_0000,
        -0x4_0000_0000_0000_0000_0000_0000_0000 <= covariance(a, ao, b, bo, n)
            <= 0x4_0000_0000_0000_0000_0000_0000_0000,
{
    let f = |k: int| a[ao + k] as int;
    let p = |k: int| a[ao + k] * b[bo + k];
    assert forall|k: int| 0 <= k < n implies -0x4000_0000 <= #[trigger] p(k) <= 0x4000_0000 by {
        let (x, y) = (a[ao + k] as int, b[bo + k] as int);
        assert(-0x4000_0000 <= x * y <= 0x4000_0000) by (nonlinear_arith)
            requires
                -0x8000 <= x <= 0x8000,
                -0x8000 <= y <= 0x8000,
        ;
    }
    lemma_total_bounds(f, n, -0x8000, 0x8000);
    lemma_total_bounds(p, n, -0x4000_0000, 0x4000_0000);
    lemma_variance_bounds(a, ao, n);
    lemma_variance_bounds(b, bo, n);
    lemma_cauchy_schwarz(a, ao, b, bo, n);
    let (va, vb, cv) = (variance(a, ao, n), variance(b, bo, n), covariance(a, ao, b, bo, n));
    let most = 0x4_0000_0000_0000_0000_0000_0000_0000int;
    assert(va * vb <= most * most) by (nonlinear_arith)
        requires
            0 <= va <= most,
            0 <= vb <= most,
    ;
    assert(-most <= cv <= most) by (nonlinear_arith)
        requires
            cv * cv <= most * most,
            most >= 0,
    ;
}

proof fn lemma_variance_bounds(a: Seq<i16>, ao: int, n: int)
    requires
        0 <= n <= MAX_TRACK,
    ensures
        0 <= variance(a, ao, n) <= 0x4_0000_0000_0000_0000_0000_0000_0000,
{
    let f = |k: int| a[ao + k] as int;
    let q = |k: int| a[ao + k] * a[ao + k];
    assert forall|k: int| 0 <= k < n implies 0 <= #[trigger] q(k) <= 0x4000_0000 by {
        let x = a[ao + k] as int;
        assert(0 <= x * x <= 0x4000_0000) by (nonlinear_arith)
            requires
                -0x8000 <= x <= 0x8000,
        ;
    }
    lemma_total_bounds(q, n, 0, 0x4000_0000);
    assert forall|k: int| 0 <= k < n implies #[trigger] q(k) == f(k) * f(k) by {}
    lemma_square_of_total(f, q, n);
    let (sa, sq) = (total(f, n), total(q, n));
    assert(sa * sa >= 0) by (nonlinear_arith);
    assert(n * sq <= 0x4_0000_0000_0000_0000_0000_0000_0000) by (nonlinear_arith)
        requires
            0 <= n <= 0x400_0000_0000,
            0 <= sq <= 0x100_0000_0000_0000_0000,
    ;
}

/// A normalized correlation lies in `[-1, 1]`.
pub proof fn law_correlation_in_unit_interval(
    a: Seq<i16>,
    ao: int,
    b: Seq<i16>,
    bo: int,
    n: int,
)
    requires
        n >= 0,
    ensures
        ({
            let c = correlation(a, ao, b, bo, n);
            c.energy > 0 && c.cross * c.cross <= c.energy
        }),
{
    lemma_cauchy_schwarz(a, ao, b, bo, n);
    assert(n * n >= 0) by (nonlinear_arith);
    let c = correlation(a, ao, b, bo, n);
    if c == no_correlation() {
        assert(c.cross * c.cross == 0) by (nonlinear_arith)
            requires
                c.cross == 0,
        ;
    }
}

proof fn lemma_binomial(x: int, u: int, y: int, v: int)
    ensures
        (x * u + y * v) * (x * u + y * v) == x * x * (u * u) + 2 * (x * y) * (u * v) + y * y * (v
            * v),
{
    let (p, q) = (x * u, y * v);
    assert((p + q) * (p + q) == p * p + 2 * (p * q) + q * q) by (nonlinear_arith);
    assert((x * u) * (x * u) == x * x * (u * u)) by (nonlinear_arith);
    assert((y * v) * (y * v) == y * y * (v * v)) by (nonlinear_arith);
    assert((x * u) * (y * v) == (x * y) * (u * v)) by (nonlinear_arith);
    let (e, w) = (x * y, u * v);
    assert(2 * (e * w) == 2 * e * w) by (nonlinear_arith);
}

/// The variance of `x` times one window plus `y` times another is not negative.
proof fn lemma_combined_variance(
    a: Seq<i16>,
    ao: int,
    b: Seq<i16>,
    bo: int,
    n: int,
    x: int,
    y: int,
)
    requires
        n >= 0,
    ensures
        x * x * variance(a, ao, n) + 2 * (x * y) * covariance(a, ao, b, bo, n) + y * y * variance(
            b,
            bo,
            n,
        ) >= 0,
{
    let f = |k: int| a[ao + k] as int;
    let g = |k: int| b[bo + k] as int;
    let ff = |k: int| a[ao + k] * a[ao + k];
    let gg = |k: int| b[bo + k] * b[bo + k];
    let fg = |k: int| a[ao + k] * b[bo + k];
    let z = |k: int| x * f(k) + y * g(k);
    let zz = |k: int| z(k) * z(k);
    lemma_total_linear(f, g, z, x, y, n);
    let half = |k: int| x * x * ff(k) + 2 * (x * y) * fg(k);
    lemma_total_linear(ff, fg, half, x * x, 2 * (x * y), n);
    assert forall|k: int| 0 <= k < n implies #[trigger] zz(k) == 1 * half(k) + y * y * gg(k) by {
        let (u, v) = (f(k), g(k));
        lemma_binomial(x, u, y, v);
    }
    lemma_total_linear(half, gg, zz, 1, y * y, n);
    lemma_square_of_total(z, zz, n);
    let (sf, sg, sff, sgg, sfg) = (total(f, n), total(g, n), total(ff, n), total(gg, n), total(fg, n));
    let (xx, xy, yy) = (x * x, 2 * (x * y), y * y);
    lemma_binomial(x, sf, y, sg);
    let (p, q, r) = (xx * sff, xy * sfg, yy * sgg);
    assert(n * (p + q + r) == n * p + n * q + n * r) by (nonlinear_arith);
    assert(n * (xx * sff) == xx * (n * sff)) by (nonlinear_arith);
    assert(n * (xy * sfg) == xy * (n * sfg)) by (nonlinear_arith);
    assert(n * (yy * sgg) == yy * (n * sgg)) by (nonlinear_arith);
    assert(xx * (n * sff - sf * sf) == xx * (n * sff) - xx * (sf * sf)) by (nonlinear_arith);
    assert(xy * (n * sfg - sf * sg) == xy * (n * sfg) - xy * (sf * sg)) by (nonlinear_arith);
    assert(yy * (n * sgg - sg * sg) == yy * (n * sgg) - yy * (sg * sg)) by (nonlinear_arith);
}

/// The square of the covariance is at most the product of the variances.
proof fn lemma_cauchy_schwarz(a: Seq<i16>, ao: int, b: Seq<i16>, bo: int, n: int)
    requires
        n >= 0,
    ensures
        covariance(a, ao, b, bo, n) * covariance(a, ao, b, bo, n) <= variance(a, ao, n) * variance(
            b,
            bo,
            n,
        ),
{
    let (va, vb, cv) = (variance(a, ao, n), variance(b, bo, n), covariance(a, ao, b, bo, n));
    lemma_combined_variance(a, ao, b, bo, n, 0, 1);
    assert(vb >= 0) by (nonlinear_arith)
        requires
            0 * 0 * va + 2 * (0 * 1) * cv + 1 * 1 * vb >= 0,
    ;
    if vb > 0 {
        lemma_combined_variance(a, ao, b, bo, n, vb, -cv);
        assert(vb * vb * va + 2 * (vb * -cv) * cv + (-cv) * (-cv) * vb == vb * (va * vb - cv * cv))
            by (nonlinear_arith);
        assert(va * vb - cv * cv >= 0) by (nonlinear_arith)
            requires
                vb * (va * vb - cv * cv) >= 0,
                vb > 0,
        ;
    } else {
        // A constant window: va - 2 t cv >= 0 for every t forces the covariance to zero.
        let t = va + 1;
        lemma_combined_variance(a, ao, b, bo, n, 1, t * cv);
        lemma_combined_variance(a, ao, b, bo, n, 1, -(t * cv));
        assert(2 * (1 * -(t * cv)) * cv == -2 * (t * (cv * cv))) by (nonlinear_arith);
        assert((t * cv) * (t * cv) * vb == 0 && (-(t * cv)) * (-(t * cv)) * vb == 0)
            by (nonlinear_arith)
            requires
                vb == 0,
        ;
        assert(1 * 1 * va == va);
        lemma_combined_variance(a, ao, b, bo, n, 1, 0);
        assert(va >= 0) by (nonlinear_arith)
            requires
                1 * 1 * va + 2 * (1 * 0) * cv + 0 * 0 * vb >= 0,
        ;
        assert(cv * cv <= 0) by (nonlinear_arith)
            requires
                va - 2 * (t * (cv * cv)) >= 0,
                t == va + 1,
                va >= 0,
        ;
        assert(va * vb == 0) by (nonlinear_arith)
            requires
                vb == 0,
        ;
    }
}

/// Sum of the squared samples of a window.
pub open spec fn energy(a: Seq<i16>, off: int, n: int) -> int {
    sum_prod(a, off, a, off, n)
}

/// The position on the grid `lo`, `lo + step`, ... of `n` points where the score is
/// highest; of equally high ones the last.
pub open spec fn peak(score: spec_fn(int) -> CorrelationView, lo: int, step: int, n: int) -> int
    decreases n,
{
    if n <= 1 {
        lo
    } else {
        let best = peak(score, lo, step, n - 1);
        let next = lo + step * (n - 1);
        if score(best).le(score(next)) {
            next
        } else {
            best
        }
    }
}

/// The score of placing the local window at cloud position `t`.
pub open spec fn placement(
    cloud: Seq<i16>,
    local: Seq<i16>,
    local_off: int,
    win: int,
) -> spec_fn(int) -> CorrelationView {
    |t: int| correlation(local, local_off, cloud, t, win)
}

/// The cloud position in `[lo, hi]` that best matches the local window: the highest on a
/// half-second grid, then the highest on a ten-millisecond grid half a second around it, as
/// far as that lies in `[lo, hi]`.
pub open spec fn search(
    cloud: Seq<i16>,
    local: Seq<i16>,
    local_off: int,
    win: int,
    lo: int,
    hi: int,
) -> int {
    let score = placement(cloud, local, local_off, win);
    let top = min_int(hi, max_int(cloud.len() - win, 0));
    if top <= lo {
        lo
    } else {
        let coarse = peak(score, lo, 8_000, (top - lo) / 8_000 + 1);
        let from = max_int(coarse - 8_000, lo);
        let to = min_int(coarse + 8_000, top);
        peak(score, from, 160, (to - from) / 160 + 1)
    }
}

/// Of the first `n` windows that start a second apart, the first loudest one.
pub open spec fn loudest(a: Seq<i16>, win: int, n: int) -> int
    decreases n,
{
    if n <= 1 {
        0
    } else {
        let best = loudest(a, win, n - 1);
        if energy(a, 16_000 * (n - 1), win) > energy(a, 16_000 * best, win) {
            n - 1
        } else {
            best
        }
    }
}

/// Where the window begins that a track is anchored by: its most active one, or its
/// start if the root mean square there is below a thousandth of full scale.
pub open spec fn anchor(a: Seq<i16>, win: int) -> int {
    let best = 16_000 * loudest(a, win, (a.len() - win) / 16_000 + 1);
    if energy(a, best, win) * 1_000_000 < win * 0x4000_0000 {
        0
    } else {
        best
    }
}

/// Division that drops the fraction.
pub open spec fn div_toward_zero(a: int, b: int) -> int {
    if a >= 0 {
        a / b
    } else {
        -((-a) / b)
    }
}

/// A rate difference as a fraction; `den` is positive.
#[derive(Debug, Clone, Copy, PartialEq, Eq, Structural)]
pub struct Drift {
    pub num: i64,
    pub den: i64,
}

/// How a local track lies against the cloud master.
#[derive(Debug, Clone, Copy, PartialEq, Eq, Structural)]
pub struct Alignment {
    /// Cloud time at which the local track begins.
    pub offset_ns: i64,
    /// Fractional rate difference of the local track against the cloud.
    pub drift: Drift,
    /// Correlation at the peak, in `[0, 1]`.
    pub confidence: Correlation,
}

/// `Alignment` over mathematical values; the drift is a numerator and a denominator.
pub struct AlignmentView {
    pub offset_ns: int,
    pub drift: (int, int),
    pub confidence: CorrelationView,
}

impl View for Alignment {
    type V = AlignmentView;

    open spec fn view(&self) -> AlignmentView {
        AlignmentView {
            offset_ns: self.offset_ns as int,
            drift: (self.drift.num as int, self.drift.den as int),
            confidence: self.confidence@,
        }
    }
}

/// Cloud position, in samples, at which the sample `at` of a track with this offset lands.
pub open spec fn landing(offset_ns: int, at: int) -> int {
    div_toward_zero(offset_ns + at * 62_500, 62_500)
}

/// Where the anchor window is found in the cloud. A hint confines the search to five
/// seconds around the place that it predicts.
pub open spec fn anchored(cloud: Seq<i16>, local: Seq<i16>, win: int, hint: Option<i64>) -> int {
    let best = anchor(local, win);
    let last = max_int(cloud.len() - win, 0);
    match hint {
        Some(h) => {
            let center = landing(h as int, best);
            let lo = max_int(center - 80_000, 0);
            let hi = max_int(min_int(center + 80_000, last), lo);
            search(cloud, local, best, win, lo, hi)
        },
        None => search(cloud, local, best, win, 0, last),
    }
}

/// Rate difference between the anchor window, which lies at `start` in the cloud, and the
/// track's last window: how far the last window is from where a constant rate would put it,
/// per sample between the two.
pub open spec fn drift_of(cloud: Seq<i16>, local: Seq<i16>, win: int, start: int) -> (int, int) {
    let best = anchor(local, win);
    let last = max_int(cloud.len() - win, 0);
    let end = local.len() - win;
    let gap = end - best;
    let found = search(
        cloud,
        local,
        end,
        win,
        max_int(start + gap - 80_000, 0),
        min_int(start + gap + 80_000, last),
    );
    (found - start - gap, max_int(gap, 16_000))
}

/// How sure a correlation makes an alignment: its value where that is positive, or zero.
pub open spec fn confidence_in(c: CorrelationView) -> CorrelationView {
    if c.cross > 0 {
        c
    } else {
        no_correlation()
    }
}

/// Where the track begins in cloud time, and where the anchor window lies in the cloud: where
/// it was found. A hint stands where nothing correlates around it, and the window lies where
/// the hint puts it.
pub open spec fn settled(
    cloud: Seq<i16>,
    local: Seq<i16>,
    win: int,
    hint: Option<i64>,
) -> (int, int) {
    let best = anchor(local, win);
    let found = anchored(cloud, local, win, hint);
    match hint {
        Some(h) => if correlation(local, best, cloud, found, win).cross <= 0 {
            (h as int, max_int(landing(h as int, best), 0))
        } else {
            ((found - best) * 62_500, found)
        },
        None => ((found - best) * 62_500, found),
    }
}

/// The alignment of a local track against the cloud master.
pub open spec fn alignment(cloud: Seq<i16>, local: Seq<i16>, hint: Option<i64>) -> AlignmentView {
    if local.len() < 16_000 || cloud.len() < 16_000 {
        AlignmentView {
            offset_ns: match hint {
                Some(h) => h as int,
                None => 0,
            },
            drift: (0, 1),
            confidence: no_correlation(),
        }
    } else {
        let win = min_int(32_000, local.len() as int);
        let best = anchor(local, win);
        let found = anchored(cloud, local, win, hint);
        let (offset, start) = settled(cloud, local, win, hint);
        AlignmentView {
            offset_ns: offset,
            drift: if local.len() > 640_000 {
                drift_of(cloud, local, win, start)
            } else {
                (0, 1)
            },
            confidence: confidence_in(correlation(local, best, cloud, found, win)),
        }
    }
}

/// The peak of a grid is on the grid, and no grid point scores higher.
pub proof fn law_peak_is_highest(
    score: spec_fn(int) -> CorrelationView,
    lo: int,
    step: int,
    n: int,
)
    requires
        n >= 1,
        step >= 1,
        forall|t: int| (#[trigger] score(t)).energy > 0,
    ensures
        exists|k: int| 0 <= k < n && peak(score, lo, step, n) == lo + #[trigger] (step * k),
        forall|k: int|
            0 <= k < n ==> score(lo + #[trigger] (step * k)).le(score(peak(score, lo, step, n))),
    decreases n,
{
    if n == 1 {
        assert(lo == lo + step * 0) by (nonlinear_arith);
        assert forall|k: int| 0 <= k < n implies score(lo + #[trigger] (step * k)).le(
            score(peak(score, lo, step, n)),
        ) by {
            assert(k == 0);
            assert(step * k == 0) by (nonlinear_arith)
                requires
                    k == 0,
            ;
        }
    } else {
        law_peak_is_highest(score, lo, step, n - 1);
        let best = peak(score, lo, step, n - 1);
        let next = lo + step * (n - 1);
        let r = peak(score, lo, step, n);
        lemma_le_total(score(best), score(next));
        assert forall|k: int| 0 <= k < n implies score(lo + #[trigger] (step * k)).le(
            score(r),
        ) by {
            if k < n - 1 {
                assert(score(lo + step * k).le(score(best)));
                if r == next {
                    lemma_le_transitive(score(lo + step * k), score(best), score(next));
                }
            }
        }
        if r == best && !score(best).le(score(next)) {
            let k = choose|k: int| 0 <= k < n - 1 && best == lo + #[trigger] (step * k);
            assert(0 <= k < n && r == lo + step * k);
        } else {
            assert(r == lo + step * (n - 1));
        }
    }
}

proof fn lemma_le_total(p: CorrelationView, q: CorrelationView)
    ensures
        p.le(q) || q.le(p),
        p.le(p),
{
}

proof fn lemma_le_transitive(p: CorrelationView, q: CorrelationView, r: CorrelationView)
    requires
        p.energy > 0,
        q.energy > 0,
        r.energy > 0,
        p.le(q),
        q.le(r),
    ensures
        p.le(r),
{
    let (a, b, c) = (
        p.cross * abs(p.cross),
        q.cross * abs(q.cross),
        r.cross * abs(r.cross),
    );
    let (x, y, z) = (p.energy, q.energy, r.energy);
    // a y <= b x and b z <= c y.
    assert(a * y * z <= b * x * z) by (nonlinear_arith)
        requires
            a * y <= b * x,
            z > 0,
    ;
    assert(b * z * x <= c * y * x) by (nonlinear_arith)
        requires
            b * z <= c * y,
            x > 0,
    ;
    assert(a * y * z == y * (a * z)) by (nonlinear_arith);
    assert(b * x * z == b * z * x) by (nonlinear_arith);
    assert(c * y * x == y * (c * x)) by (nonlinear_arith);
    assert(a * z <= c * x) by (nonlinear_arith)
        requires
            y * (a * z) <= y * (c * x),
            y > 0,
    ;
}

/// No correlation.
fn silence() -> (r: Correlation)
    ensures
        r@ == no_correlation(),
        r == (Correlation { cross: 0, energy_a: 1, energy_b: 1 }),
{
    Correlation { cross: 0, energy_a: 1, energy_b: 1 }
}

/// Normalized cross-correlation of `a[ao..ao + win]` with `b[bo..bo + win]`.
pub fn ncc(a: &[i16], ao: u64, b: &[i16], bo: u64, win: usize) -> (r: Correlation)
    requires
        win <= MAX_TRACK,
    ensures
        r@ == correlation(a@, ao as int, b@, bo as int, win as int),
        r.wf(),
{
    if win == 0 || win > a.len() || ao > (a.len() - win) as u64 || win > b.len() || bo > (b.len()
        - win) as u64 {
        return silence();
    }
    let (pa, pb) = (ao as usize, bo as usize);
    let ghost fa = |k: int| a@[ao + k] as int;
    let ghost fb = |k: int| b@[bo + k] as int;
    let ghost fab = |k: int| a@[ao + k] * b@[bo + k];
    let ghost faa = |k: int| a@[ao + k] * a@[ao + k];
    let ghost fbb = |k: int| b@[bo + k] * b@[bo + k];
    let mut sa: i128 = 0;
    let mut sb: i128 = 0;
    let mut sab: i128 = 0;
    let mut saa: i128 = 0;
    let mut sbb: i128 = 0;
    let mut k: usize = 0;
    while k < win
        invariant
            k <= win <= MAX_TRACK,
            pa == ao,
            pb == bo,
            pa + win <= a@.len(),
            pb + win <= b@.len(),
            a@.len() <= usize::MAX,
            b@.len() <= usize::MAX,
            fa == (|k: int| a@[ao + k] as int),
            fb == (|k: int| b@[bo + k] as int),
            fab == (|k: int| a@[ao + k] * b@[bo + k]),
            faa == (|k: int| a@[ao + k] * a@[ao + k]),
            fbb == (|k: int| b@[bo + k] * b@[bo + k]),
            sa == total(fa, k as int),
            sb == total(fb, k as int),
            sab == total(fab, k as int),
            saa == total(faa, k as int),
            sbb == total(fbb, k as int),
            -0x8000 * k <= sa <= 0x8000 * k,
            -0x8000 * k <= sb <= 0x8000 * k,
            -0x4000_0000 * k <= sab <= 0x4000_0000 * k,
            0 <= saa <= 0x4000_0000 * k,
            0 <= sbb <= 0x4000_0000 * k,
        decreases win - k,
    {
        let x: i64 = a[pa + k] as i64;
        let y: i64 = b[pb + k] as i64;
        assert(-0x4000_0000 <= x * y <= 0x4000_0000 && 0 <= x * x <= 0x4000_0000 && 0 <= y * y
            <= 0x4000_0000) by (nonlinear_arith)
            requires
                -0x8000 <= x <= 0x8000,
                -0x8000 <= y <= 0x8000,
        ;
        assert(fa(k as int) == x && fb(k as int) == y && fab(k as int) == x * y && faa(k as int)
            == x * x && fbb(k as int) == y * y);
        sa = sa + x as i128;
        sb = sb + y as i128;
        sab = sab + (x * y) as i128;
        saa = saa + (x * x) as i128;
        sbb = sbb + (y * y) as i128;
        k = k + 1;
    }
    proof {
        lemma_window_bounds(a@, ao as int, b@, bo as int, win as int);
        lemma_window_bounds(b@, bo as int, a@, ao as int, win as int);
        let n = win as int;
        let most = 0x4_0000_0000_0000_0000_0000_0000_0000int;
        assert(-most <= sa * sb <= most && 0 <= sa * sa <= most && 0 <= sb * sb <= most)
            by (nonlinear_arith)
            requires
                most == 0x200_0000_0000_0000int * 0x200_0000_0000_0000int,
                -0x200_0000_0000_0000 <= sa <= 0x200_0000_0000_0000,
                -0x200_0000_0000_0000 <= sb <= 0x200_0000_0000_0000,
        ;
        assert(-most <= n * sab <= most && 0 <= n * saa <= most && 0 <= n * sbb <= most)
            by (nonlinear_arith)
            requires
                most == 0x400_0000_0000int * 0x100_0000_0000_0000_0000int,
                0 <= n <= 0x400_0000_0000,
                -0x100_0000_0000_0000_0000 <= sab <= 0x100_0000_0000_0000_0000,
                0 <= saa <= 0x100_0000_0000_0000_0000,
                0 <= sbb <= 0x100_0000_0000_0000_0000,
        ;
    }
    let n: i128 = win as i128;
    let cross: i128 = n * sab - sa * sb;
    let va: u128 = (n * saa - sa * sa) as u128;
    let vb: u128 = (n * sbb - sb * sb) as u128;
    proof {
        assert(va == variance(a@, ao as int, win as int));
        assert(vb == variance(b@, bo as int, win as int));
        assert(win * win >= 0) by (nonlinear_arith);
    }
    if products_le(
        [va, vb, 1_000_000_000_000_000_000, 1],
        [win as u128, win as u128, 0x1000_0000_0000_0000, 1],
    ) {
        silence()
    } else {
        assert(va > 0 && vb > 0) by (nonlinear_arith)
            requires
                va * vb > 0,
                va >= 0,
                vb >= 0,
        ;
        Correlation { cross, energy_a: va, energy_b: vb }
    }
}

/// Sum of the squared samples of `a[off..off + win]`, which orders windows of one length
/// by their root mean square. Zero if the window runs past the track.
pub fn window_energy(a: &[i16], off: usize, win: usize) -> (r: u128)
    requires
        win <= MAX_TRACK,
    ensures
        off + win <= a@.len() ==> r == energy(a@, off as int, win as int),
        off + win > a@.len() ==> r == 0,
        r <= 0x4000_0000 * win,
{
    if win > a.len() || off > a.len() - win {
        return 0;
    }
    let ghost f = |k: int| a@[off + k] * a@[off + k];
    let mut s: u128 = 0;
    let mut k: usize = 0;
    while k < win
        invariant
            k <= win <= MAX_TRACK,
            off + win <= a@.len(),
            a@.len() <= usize::MAX,
            f == (|k: int| a@[off + k] * a@[off + k]),
            s == total(f, k as int),
            s <= 0x4000_0000 * k,
        decreases win - k,
    {
        let x: i64 = a[off + k] as i64;
        assert(0 <= x * x <= 0x4000_0000) by (nonlinear_arith)
            requires
                -0x8000 <= x <= 0x8000,
        ;
        assert(f(k as int) == x * x);
        s = s + (x * x) as u128;
        k = k + 1;
    }
    s
}

proof fn lemma_peak_on_grid(score: spec_fn(int) -> CorrelationView, lo: int, step: int, n: int)
    requires
        n >= 1,
        step >= 1,
    ensures
        lo <= peak(score, lo, step, n) <= lo + step * (n - 1),
    decreases n,
{
    if n > 1 {
        lemma_peak_on_grid(score, lo, step, n - 1);
        assert(step * (n - 1) == step * (n - 2) + step && step * (n - 1) >= 0) by (nonlinear_arith)
            requires
                step >= 1,
                n > 1,
        ;
    } else {
        assert(step * (n - 1) == 0) by (nonlinear_arith)
            requires
                n == 1,
        ;
    }
}

/// The highest point of the grid `lo`, `lo + step`, ... up to `top`, and its score.
fn best_in_grid(
    cloud: &[i16],
    local: &[i16],
    local_off: u64,
    win: usize,
    lo: u64,
    step: u64,
    top: u64,
) -> (r: (u64, Correlation))
    requires
        win <= MAX_TRACK,
        lo <= top <= MAX_TRACK,
        1 <= step <= 8_000,
    ensures
        r.0 == peak(
            placement(cloud@, local@, local_off as int, win as int),
            lo as int,
            step as int,
            (top - lo) / (step as int) + 1,
        ),
        r.1@ == correlation(local@, local_off as int, cloud@, r.0 as int, win as int),
        r.1.wf(),
        lo <= r.0 <= top,
{
    let ghost score = placement(cloud@, local@, local_off as int, win as int);
    let ghost count = (top - lo) / (step as int) + 1;
    let mut best: u64 = lo;
    let mut conf: Correlation = ncc(local, local_off, cloud, lo, win);
    let mut t: u64 = lo + step;
    let ghost mut n: int = 1;
    assert(step * 1 == step);
    while t <= top
        invariant
            win <= MAX_TRACK,
            lo <= top <= MAX_TRACK,
            1 <= step <= 8_000,
            score == placement(cloud@, local@, local_off as int, win as int),
            n >= 1,
            t == lo + step * n,
            t <= top + step,
            best == peak(score, lo as int, step as int, n),
            conf@ == score(best as int),
            conf.wf(),
            lo <= best <= top,
        decreases top + step - t,
    {
        let c = ncc(local, local_off, cloud, t, win);
        assert(c@ == score(t as int));
        if conf.at_most(&c) {
            best = t;
            conf = c;
        }
        proof {
            assert(step * (n + 1) == step * n + step) by (nonlinear_arith);
            assert(t == lo + step * ((n + 1) - 1));
            n = n + 1;
        }
        t = t + step;
    }
    proof {
        // The grid's last point is at most `top`, and the next one is beyond it.
        let d = top - lo;
        assert(step * (n - 1) == step * n - step) by (nonlinear_arith);
        assert(n == count) by {
            vstd::arithmetic::div_mod::lemma_fundamental_div_mod_converse(
                d,
                step as int,
                n - 1,
                d - step * (n - 1),
            );
        }
    }
    (best, conf)
}

/// Find the cloud position in `[lo, hi]` that best matches the local window at
/// `local_off`, with its correlation: first on a half-second grid, then on a
/// ten-millisecond grid around the best of those. An empty range gives `lo`.
pub fn best_offset_at(
    cloud: &[i16],
    local: &[i16],
    local_off: u64,
    win: usize,
    lo: u64,
    hi: u64,
) -> (r: (u64, Correlation))
    requires
        win <= MAX_TRACK,
        cloud@.len() <= MAX_TRACK,
    ensures
        r.0 == search(cloud@, local@, local_off as int, win as int, lo as int, hi as int),
        r.1@ == correlation(local@, local_off as int, cloud@, r.0 as int, win as int),
        r.1.wf(),
        lo <= r.0,
        lo <= hi ==> r.0 <= hi,
{
    let last: u64 = if cloud.len() >= win { (cloud.len() - win) as u64 } else { 0 };
    let top: u64 = if hi <= last { hi } else { last };
    if top <= lo {
        return (lo, ncc(local, local_off, cloud, lo, win));
    }
    let (coarse, _) = best_in_grid(cloud, local, local_off, win, lo, 8_000, top);
    let from: u64 = if coarse - lo >= 8_000 { coarse - 8_000 } else { lo };
    let to: u64 = if coarse + 8_000 <= top { coarse + 8_000 } else { top };
    best_in_grid(cloud, local, local_off, win, from, 160, to)
}

/// Where the window begins that the track is anchored by.
fn anchor_of(local: &[i16], win: usize) -> (r: usize)
    requires
        0 < win <= MAX_TRACK,
        win <= local@.len() <= MAX_TRACK,
    ensures
        r == anchor(local@, win as int),
        r + win <= local@.len(),
{
    let last: usize = local.len() - win;
    let ghost count = last as int / 16_000 + 1;
    let mut best: usize = 0;
    let mut best_energy: u128 = window_energy(local, 0, win);
    let mut off: usize = 0;
    let ghost mut n: int = 1;
    while last - off >= 16_000
        invariant
            0 < win <= MAX_TRACK,
            last + win == local@.len(),
            n >= 1,
            off == 16_000 * (n - 1),
            off <= last,
            best == 16_000 * loudest(local@, win as int, n),
            best <= last,
            best_energy == energy(local@, best as int, win as int),
            best_energy <= 0x4000_0000 * win,
        decreases last - off,
    {
        off = off + 16_000;
        proof {
            n = n + 1;
        }
        let e: u128 = window_energy(local, off, win);
        if e > best_energy {
            best = off;
            best_energy = e;
        }
    }
    assert(n == count);
    if best_energy * 1_000_000 < (win as u128) * 0x4000_0000 {
        0
    } else {
        best
    }
}

/// Cloud position at which the sample `at` lands.
fn landing_of(offset_ns: i64, at: u64) -> (r: i128)
    requires
        at <= MAX_TRACK,
    ensures
        r == landing(offset_ns as int, at as int),
        -0x1_0000_0000_0000 <= r <= 0x1_0000_0000_0000 + at,
{
    let ns: i128 = offset_ns as i128 + at as i128 * 62_500;
    if ns >= 0 {
        ns / 62_500
    } else {
        -((-ns) / 62_500)
    }
}

/// Where the anchor window at `best` is found in the cloud, and its correlation there.
fn find_anchor(cloud: &[i16], local: &[i16], win: usize, best: u64, hint_ns: Option<i64>) -> (r: (
    u64,
    Correlation,
))
    requires
        win <= MAX_TRACK,
        cloud@.len() <= MAX_TRACK,
        best <= MAX_TRACK,
        best == anchor(local@, win as int),
    ensures
        r.0 == anchored(cloud@, local@, win as int, hint_ns),
        r.1@ == correlation(local@, best as int, cloud@, r.0 as int, win as int),
        r.1.wf(),
        r.0 <= 0x2_0000_0000_0000,
        -0x8000_0000_0000_0000 <= (r.0 - best) * 62_500 <= 0x7fff_ffff_ffff_ffff,
{
    let last: u64 = if cloud.len() >= win { (cloud.len() - win) as u64 } else { 0 };
    match hint_ns {
        Some(h) => {
            let center: i128 = landing_of(h, best);
            let lo: u64 = if center >= 80_000 { (center - 80_000) as u64 } else { 0 };
            let near: i128 = if center + 80_000 <= last as i128 {
                center + 80_000
            } else {
                last as i128
            };
            let hi: u64 = if near >= lo as i128 { near as u64 } else { lo };
            proof {
                lemma_search_bound(cloud@, local@, best as int, win as int, lo as int, hi as int);
            }
            best_offset_at(cloud, local, best, win, lo, hi)
        },
        None => {
            proof {
                lemma_search_bound(cloud@, local@, best as int, win as int, 0, last as int);
            }
            best_offset_at(cloud, local, best, win, 0, last)
        },
    }
}

/// Rate difference between the anchor window, at `best` in the track and `start` in the
/// cloud, and the track's last window.
fn measure_drift(cloud: &[i16], local: &[i16], win: usize, best: u64, start: u64) -> (r: Drift)
    requires
        win <= MAX_TRACK,
        cloud@.len() <= MAX_TRACK,
        local@.len() <= MAX_TRACK,
        best == anchor(local@, win as int),
        best + win <= local@.len(),
        start <= 0x2_0000_0000_0000,
    ensures
        ({
            let d = drift_of(cloud@, local@, win as int, start as int);
            r.num == d.0 && r.den == d.1
        }),
        r.den > 0,
{
    let last: u64 = if cloud.len() >= win { (cloud.len() - win) as u64 } else { 0 };
    let end: u64 = (local.len() - win) as u64;
    let gap: u64 = end - best;
    let expected: u64 = start + gap;
    let lo: u64 = if expected >= 80_000 { expected - 80_000 } else { 0 };
    let hi: u64 = if expected + 80_000 <= last { expected + 80_000 } else { last };
    let (t, _) = best_offset_at(cloud, local, end, win, lo, hi);
    proof {
        lemma_search_bound(cloud@, local@, end as int, win as int, lo as int, hi as int);
    }
    Drift {
        num: t as i64 - start as i64 - gap as i64,
        den: if gap >= 16_000 { gap as i64 } else { 16_000 },
    }
}

/// The offset of a track whose anchor window at `best` was found at `found`, and where the
/// window then lies: a hint stands where the correlation there is not positive.
fn settle(best: u64, found: u64, c: &Correlation, hint_ns: Option<i64>) -> (r: (i64, u64))
    requires
        best <= MAX_TRACK,
        found <= 0x2_0000_0000_0000,
        -0x8000_0000_0000_0000 <= (found - best) * 62_500 <= 0x7fff_ffff_ffff_ffff,
    ensures
        r.1 <= 0x2_0000_0000_0000,
        match hint_ns {
            Some(h) => if c.cross <= 0 {
                r.0 == h && r.1 == max_int(landing(h as int, best as int), 0)
            } else {
                r.0 == (found - best) * 62_500 && r.1 == found
            },
            None => r.0 == (found - best) * 62_500 && r.1 == found,
        },
{
    if let Some(h) = hint_ns {
        if c.cross <= 0 {
            let at: i128 = landing_of(h, best);
            return (h, if at >= 0 { at as u64 } else { 0 });
        }
    }
    ((found as i64 - best as i64) * NANOS_PER_SAMPLE, found)
}

/// Align one local track against the cloud master.
///
/// `hint_ns` is an offset known beforehand, such as the start time in a file's name. The
/// search is then confined to five seconds around it: finding a short utterance in an hour
/// of mix is ambiguous, but refining a known start is reliable. Where nothing correlates
/// there, and of a track or a cloud shorter than a second, the hint stands. Without a hint
/// the whole cloud is searched. The anchor is the track's most active window, since the
/// first seconds are often silent.
pub fn align(cloud: &[i16], local: &[i16], hint_ns: Option<i64>) -> (r: Alignment)
    requires
        cloud@.len() <= MAX_TRACK,
        local@.len() <= MAX_TRACK,
    ensures
        r@ == alignment(cloud@, local@, hint_ns),
        hint_ns is Some && r.confidence.cross == 0 ==> r.offset_ns == hint_ns->0,
        r.drift.den > 0,
        r.confidence.wf(),
        r.confidence@.is_confidence(),
{
    let silent = silence();
    assert(silent@.cross * silent@.cross == 0) by (nonlinear_arith)
        requires
            silent@.cross == 0,
    ;
    if local.len() < ANALYSIS_SR || cloud.len() < ANALYSIS_SR {
        let offset_ns: i64 = match hint_ns {
            Some(h) => h,
            None => 0,
        };
        return Alignment { offset_ns, drift: Drift { num: 0, den: 1 }, confidence: silent };
    }
    let win: usize = if local.len() >= WINDOW { WINDOW } else { local.len() };
    let best: u64 = anchor_of(local, win) as u64;
    let (found, c) = find_anchor(cloud, local, win, best, hint_ns);
    proof {
        law_correlation_in_unit_interval(local@, best as int, cloud@, found as int, win as int);
    }
    let confidence = if c.cross > 0 { c } else { silent };
    let (offset_ns, start) = settle(best, found, &c, hint_ns);
    let drift = if local.len() > 640_000 {
        measure_drift(cloud, local, win, best, start)
    } else {
        Drift { num: 0, den: 1 }
    };
    Alignment { offset_ns, drift, confidence }
}

/// A search ends in its range, and at its lower limit or inside the cloud.
proof fn lemma_search_bound(
    cloud: Seq<i16>,
    local: Seq<i16>,
    local_off: int,
    win: int,
    lo: int,
    hi: int,
)
    requires
        lo >= 0,
        win >= 0,
    ensures
        lo <= search(cloud, local, local_off, win, lo, hi) <= max_int(lo, cloud.len() as int),
        lo <= hi ==> search(cloud, local, local_off, win, lo, hi) <= hi,
{
    let score = placement(cloud, local, local_off, win);
    let top = min_int(hi, max_int(cloud.len() - win, 0));
    if top > lo {
        let n = (top - lo) / 8_000 + 1;
        lemma_peak_on_grid(score, lo, 8_000, n);
        let coarse = peak(score, lo, 8_000, n);
        let from = max_int(coarse - 8_000, lo);
        let to = min_int(coarse + 8_000, top);
        lemma_peak_on_grid(score, from, 160, (to - from) / 160 + 1);
    }
}

/// A hint is refined by at most five seconds, up to one sample, and only by a place that
/// correlates: it stands where the alignment has no confidence.
pub proof fn law_hint_is_refined(cloud: Seq<i16>, local: Seq<i16>, hint: i64)
    ensures
        ({
            let r = alignment(cloud, local, Some(hint));
            &&& r.confidence.cross <= 0 ==> r.offset_ns == hint
            &&& landing(hint as int, anchor(local, min_int(32_000, local.len() as int))) >= -80_000
                ==> hint - 5_000_062_500 < r.offset_ns < hint + 5_000_062_500
        }),
{
    let win = min_int(32_000, local.len() as int);
    let best = anchor(local, win);
    let last = max_int(cloud.len() - win, 0);
    let center = landing(hint as int, best);
    let lo = max_int(center - 80_000, 0);
    let hi = max_int(min_int(center + 80_000, last), lo);
    lemma_search_bound(cloud, local, best, win, lo, hi);
}

/// Two windows that are equal sample by sample, and not all but silent, correlate fully:
/// the value is one.
pub proof fn law_equal_windows_correlate_fully(
    a: Seq<i16>,
    ao: int,
    b: Seq<i16>,
    bo: int,
    n: int,
)
    requires
        0 < n,
        ao + n <= a.len(),
        bo + n <= b.len(),
        forall|k: int| 0 <= k < n ==> #[trigger] a[ao + k] == b[bo + k],
        correlation(a, ao, b, bo, n) != no_correlation(),
    ensures
        ({
            let c = correlation(a, ao, b, bo, n);
            c.cross > 0 && c.cross * c.cross == c.energy
        }),
{
    let fa = |k: int| a[ao + k] as int;
    let fb = |k: int| b[bo + k] as int;
    let faa = |k: int| a[ao + k] * a[ao + k];
    let fbb = |k: int| b[bo + k] * b[bo + k];
    let fab = |k: int| a[ao + k] * b[bo + k];
    assert forall|k: int| 0 <= k < n implies #[trigger] fa(k) == fb(k) by {
        assert(a[ao + k] == b[bo + k]);
    }
    assert forall|k: int| 0 <= k < n implies #[trigger] faa(k) == fbb(k) by {
        assert(a[ao + k] == b[bo + k]);
    }
    assert forall|k: int| 0 <= k < n implies #[trigger] faa(k) == fab(k) by {
        assert(a[ao + k] == b[bo + k]);
    }
    lemma_total_same(fa, fb, n);
    lemma_total_same(faa, fbb, n);
    lemma_total_same(faa, fab, n);
    let v = variance(a, ao, n);
    assert(variance(b, bo, n) == v);
    assert(covariance(a, ao, b, bo, n) == v);
    lemma_square_of_total(fa, faa, n);
    assert(v >= 0);
    assert(n * n >= 0) by (nonlinear_arith);
    assert(v > 0) by (nonlinear_arith)
        requires
            v * v > 0,
            v >= 0,
    ;
}

proof fn lemma_total_same(f: spec_fn(int) -> int, g: spec_fn(int) -> int, n: int)
    requires
        forall|k: int| 0 <= k < n ==> #[trigger] f(k) == g(k),
    ensures
        total(f, n) == total(g, n),
    decreases n,
{
    if n > 0 {
        lemma_total_same(f, g, n - 1);
        assert(f(n - 1) == g(n - 1));
    }
}

/// It does not matter which of the two windows is named first.
pub proof fn law_correlation_is_symmetric(a: Seq<i16>, ao: int, b: Seq<i16>, bo: int, n: int)
    ensures
        correlation(a, ao, b, bo, n) == correlation(b, bo, a, ao, n),
{
    let fab = |k: int| a[ao + k] * b[bo + k];
    let fba = |k: int| b[bo + k] * a[ao + k];
    assert forall|k: int| 0 <= k < n implies #[trigger] fab(k) == fba(k) by {
        let (x, y) = (a[ao + k] as int, b[bo + k] as int);
        assert(x * y == y * x) by (nonlinear_arith);
    }
    lemma_total_same(fab, fba, n);
    let (sa, sb) = (sum(a, ao, n), sum(b, bo, n));
    assert(sa * sb == sb * sa) by (nonlinear_arith);
    let (va, vb) = (variance(a, ao, n), variance(b, bo, n));
    assert(va * vb == vb * va) by (nonlinear_arith);
}

/// Turning a window over turns the sign of its correlation, and changes nothing else.
pub proof fn law_negated_window(
    a: Seq<i16>,
    ao: int,
    b: Seq<i16>,
    bo: int,
    c: Seq<i16>,
    co: int,
    n: int,
)
    requires
        0 <= n,
        bo + n <= b.len(),
        co + n <= c.len(),
        forall|k: int| 0 <= k < n ==> #[trigger] b[bo + k] == -c[co + k],
    ensures
        ({
            let (p, q) = (correlation(a, ao, b, bo, n), correlation(a, ao, c, co, n));
            p.cross == -q.cross && p.energy == q.energy
        }),
{
    let fb = |k: int| b[bo + k] as int;
    let fc = |k: int| c[co + k] as int;
    let fab = |k: int| a[ao + k] * b[bo + k];
    let fac = |k: int| a[ao + k] * c[co + k];
    let fbb = |k: int| b[bo + k] * b[bo + k];
    let fcc = |k: int| c[co + k] * c[co + k];
    assert forall|k: int| 0 <= k < n implies #[trigger] fb(k) == -1 * fc(k) + 0 * fc(k) by {
        assert(b[bo + k] == -c[co + k]);
    }
    assert forall|k: int| 0 <= k < n implies #[trigger] fab(k) == -1 * fac(k) + 0 * fac(k) by {
        assert(b[bo + k] == -c[co + k]);
        let (x, y) = (a[ao + k] as int, c[co + k] as int);
        assert(x * (-y) == -(x * y)) by (nonlinear_arith);
    }
    assert forall|k: int| 0 <= k < n implies #[trigger] fbb(k) == fcc(k) by {
        assert(b[bo + k] == -c[co + k]);
        let y = c[co + k] as int;
        assert((-y) * (-y) == y * y) by (nonlinear_arith);
    }
    lemma_total_linear(fc, fc, fb, -1, 0, n);
    lemma_total_linear(fac, fac, fab, -1, 0, n);
    lemma_total_same(fbb, fcc, n);
    let (sa, sb, sc) = (sum(a, ao, n), sum(b, bo, n), sum(c, co, n));
    let (sab, sac) = (sum_prod(a, ao, b, bo, n), sum_prod(a, ao, c, co, n));
    assert(sb == -sc && sab == -sac);
    assert(sb * sb == sc * sc) by (nonlinear_arith)
        requires
            sb == -sc,
    ;
    assert(sa * sb == -(sa * sc)) by (nonlinear_arith)
        requires
            sb == -sc,
    ;
    assert(n * sab == -(n * sac)) by (nonlinear_arith)
        requires
            sab == -sac,
    ;
}

/// What a search finds scores at least as high as every point of the half-second grid.
pub proof fn law_search_keeps_the_coarse_peak(
    cloud: Seq<i16>,
    local: Seq<i16>,
    local_off: int,
    win: int,
    lo: int,
    hi: int,
    k: int,
)
    requires
        0 <= win,
        lo >= 0,
        0 <= k,
        lo + 8_000 * k <= min_int(hi, cloud.len() - win),
    ensures
        ({
            let score = placement(cloud, local, local_off, win);
            score(lo + 8_000 * k).le(score(search(cloud, local, local_off, win, lo, hi)))
        }),
{
    let score = placement(cloud, local, local_off, win);
    let top = min_int(hi, max_int(cloud.len() - win, 0));
    assert forall|t: int| (#[trigger] score(t)).energy > 0 by {
        law_correlation_in_unit_interval(local, local_off, cloud, t, win);
    }
    if top > lo {
        let n = (top - lo) / 8_000 + 1;
        law_peak_is_highest(score, lo, 8_000, n);
        lemma_peak_on_grid(score, lo, 8_000, n);
        let coarse = peak(score, lo, 8_000, n);
        assert(k < n);
        assert(score(lo + 8_000 * k).le(score(coarse)));
        let from = max_int(coarse - 8_000, lo);
        let to = min_int(coarse + 8_000, top);
        let m = (to - from) / 160 + 1;
        law_peak_is_highest(score, from, 160, m);
        let fine = peak(score, from, 160, m);
        let j = (coarse - from) / 160;
        assert(coarse == from + 160 * j) by {
            let i = choose|i: int| 0 <= i < n && coarse == lo + #[trigger] (8_000 * i);
            assert(i == 0 || from == coarse - 8_000);
        }
        assert(0 <= j < m);
        assert(score(from + 160 * j).le(score(fine)));
        lemma_le_transitive(score(lo + 8_000 * k), score(coarse), score(fine));
    } else {
        assert(k == 0);
        lemma_le_total(score(lo), score(lo));
    }
}

/// A window that stands verbatim on the half-second grid of a search, and is not all but
/// silent, is found: the place that the search ends at correlates fully.
pub proof fn law_verbatim_window_is_found(
    cloud: Seq<i16>,
    local: Seq<i16>,
    local_off: int,
    win: int,
    lo: int,
    hi: int,
    k: int,
)
    requires
        0 < win,
        local_off + win <= local.len(),
        lo >= 0,
        0 <= k,
        lo + 8_000 * k <= min_int(hi, cloud.len() - win),
        forall|i: int|
            0 <= i < win ==> #[trigger] local[local_off + i] == cloud[lo + 8_000 * k + i],
        correlation(local, local_off, cloud, lo + 8_000 * k, win) != no_correlation(),
    ensures
        ({
            let found = search(cloud, local, local_off, win, lo, hi);
            let c = correlation(local, local_off, cloud, found, win);
            c.cross > 0 && c.cross * c.cross == c.energy
        }),
{
    let t = lo + 8_000 * k;
    let found = search(cloud, local, local_off, win, lo, hi);
    let p = correlation(local, local_off, cloud, t, win);
    let q = correlation(local, local_off, cloud, found, win);
    law_equal_windows_correlate_fully(local, local_off, cloud, t, win);
    law_search_keeps_the_coarse_peak(cloud, local, local_off, win, lo, hi, k);
    law_correlation_in_unit_interval(local, local_off, cloud, t, win);
    law_correlation_in_unit_interval(local, local_off, cloud, found, win);
    let (c, e, d, f) = (p.cross, p.energy, q.cross, q.energy);
    let s = d * abs(d);
    assert(c * abs(c) == e);
    assert(e * f <= s * e);
    assert(f <= s) by (nonlinear_arith)
        requires
            e * f <= s * e,
            e > 0,
    ;
    if d <= 0 {
        assert(s <= 0) by (nonlinear_arith)
            requires
                s == d * abs(d),
                d <= 0,
                abs(d) >= 0,
        ;
    }
}

/// The row of the synchronization report for an aligned participant.
pub fn to_sync_row(id: &str, name: &str, source: &str, alignment: &Alignment) -> (r:
    ParticipantSync)
    ensures
        r.id@ == id@,
        r.name@ == name@,
        r.source@ == source@,
        r.offset_ns == alignment.offset_ns,
        r.drift == alignment.drift,
        r.confidence == alignment.confidence,
{
    ParticipantSync {
        id: id.to_string(),
        name: name.to_string(),
        source: source.to_string(),
        offset_ns: alignment.offset_ns,
        drift: alignment.drift,
        confidence: alignment.confidence,
    }
}

proof fn lemma_total_joins(f: spec_fn(int) -> int, g: spec_fn(int) -> int, n: int, m: int)
    requires
        0 <= n,
        0 <= m,
        forall|k: int| 0 <= k < m ==> #[trigger] g(k) == f(n + k),
    ensures
        total(f, n + m) == total(f, n) + total(g, m),
    decreases m,
{
    if m > 0 {
        lemma_total_joins(f, g, n, m - 1);
        assert(g(m - 1) == f(n + (m - 1)));
    }
}

/// The energy of a window is made up of its samples': that of one sample is its square, and
/// that of two windows side by side is the sum of both.
pub proof fn law_energy_adds_up(a: Seq<i16>, off: int, n: int, m: int)
    requires
        0 <= n,
        0 <= m,
    ensures
        energy(a, off, 0) == 0,
        energy(a, off, 1) == a[off] * a[off],
        energy(a, off, n + m) == energy(a, off, n) + energy(a, off + n, m),
{
    let f = |k: int| a[off + k] * a[off + k];
    let g = |k: int| a[off + n + k] * a[off + n + k];
    assert(total(f, 0) == 0);
    assert(total(f, 1) == total(f, 0) + f(0));
    assert forall|k: int| 0 <= k < m implies #[trigger] g(k) == f(n + k) by {}
    lemma_total_joins(f, g, n, m);
}

/// The energy of the window of `win` samples that starts on second `k`.
pub open spec fn energy_at(a: Seq<i16>, win: int, k: int) -> int {
    energy(a, 16_000 * k, win)
}

/// The window that starts on second `k` lies in the track, and its root mean square is a
/// thousandth of full scale or more.
pub open spec fn is_loud(a: Seq<i16>, win: int, k: int) -> bool {
    0 <= k && 16_000 * k + win <= a.len() && energy_at(a, win, k) * 1_000_000 >= win * (32_768
        * 32_768)
}

proof fn lemma_loudest(a: Seq<i16>, win: int, n: int)
    requires
        n >= 1,
    ensures
        0 <= loudest(a, win, n) < n,
        forall|k: int|
            0 <= k < n ==> #[trigger] energy_at(a, win, k) <= energy_at(
                a,
                win,
                loudest(a, win, n),
            ),
        forall|k: int|
            0 <= k < loudest(a, win, n) ==> #[trigger] energy_at(a, win, k) < energy_at(
                a,
                win,
                loudest(a, win, n),
            ),
    decreases n,
{
    if n > 1 {
        lemma_loudest(a, win, n - 1);
        assert(energy_at(a, win, n - 1) == energy(a, 16_000 * (n - 1), win));
        let best = loudest(a, win, n - 1);
        assert(energy_at(a, win, best) == energy(a, 16_000 * best, win));
    }
}

/// A track is anchored by its most active window: of those that start on a whole second, none
/// has more energy, and none before it as much. A track whose windows are all below the
/// threshold of silence is anchored at its start.
pub proof fn law_anchor_is_most_active(a: Seq<i16>, win: int)
    requires
        0 < win <= a.len(),
    ensures
        ({
            let p = anchor(a, win);
            &&& 0 <= p
            &&& p + win <= a.len()
            &&& p % 16_000 == 0
            &&& (exists|k: int| #[trigger] is_loud(a, win, k)) ==> forall|k: int|
                0 <= k && 16_000 * k + win <= a.len() ==> #[trigger] energy_at(a, win, k) <= energy(
                    a,
                    p,
                    win,
                ) && (16_000 * k < p ==> energy_at(a, win, k) < energy(a, p, win))
            &&& (exists|k: int| #[trigger] is_loud(a, win, k)) ==> is_loud(a, win, p / 16_000)
            &&& (forall|k: int| !#[trigger] is_loud(a, win, k)) ==> p == 0
        }),
{
    let n = (a.len() - win) / 16_000 + 1;
    lemma_loudest(a, win, n);
    let best = loudest(a, win, n);
    assert(energy_at(a, win, best) == energy(a, 16_000 * best, win));
    if exists|k: int| #[trigger] is_loud(a, win, k) {
        let k = choose|k: int| #[trigger] is_loud(a, win, k);
        assert(k < n);
        assert(energy_at(a, win, k) <= energy_at(a, win, best));
        assert(anchor(a, win) == 16_000 * best);
        assert(is_loud(a, win, best));
    } else {
        assert(!is_loud(a, win, best));
    }
}

/// How correlations are ordered: a negative one is below any other, and otherwise the squares
/// are compared, each divided by its energy.
pub proof fn law_order_of_correlations(p: CorrelationView, q: CorrelationView)
    requires
        p.energy > 0,
        q.energy > 0,
    ensures
        p.cross >= 0 && q.cross >= 0 ==> (p.le(q) <==> (p.cross * p.cross) * q.energy <= (q.cross
            * q.cross) * p.energy),
        p.cross < 0 && q.cross < 0 ==> (p.le(q) <==> (q.cross * q.cross) * p.energy <= (p.cross
            * p.cross) * q.energy),
        p.cross < 0 <= q.cross ==> p.le(q) && !q.le(p),
{
    let (c, d, e, f) = (p.cross, q.cross, p.energy, q.energy);
    let (x, y) = (c * abs(c), d * abs(d));
    if c < 0 {
        assert(x == -(c * c) && x < 0) by (nonlinear_arith)
            requires
                x == c * (-c),
                c < 0,
        ;
        assert(x * f == -((c * c) * f)) by (nonlinear_arith)
            requires
                x == -(c * c),
        ;
        assert(x * f < 0) by (nonlinear_arith)
            requires
                x < 0,
                f > 0,
        ;
    }
    if d < 0 {
        assert(y == -(d * d)) by (nonlinear_arith)
            requires
                y == d * (-d),
        ;
        assert(y * e == -((d * d) * e)) by (nonlinear_arith)
            requires
                y == -(d * d),
        ;
    } else {
        assert(y >= 0 && y * e >= 0) by (nonlinear_arith)
            requires
                y == d * d,
                e > 0,
        ;
    }
}

/// The peak of a grid is its last highest point: every later one scores lower.
pub proof fn law_peak_is_the_last_highest(
    score: spec_fn(int) -> CorrelationView,
    lo: int,
    step: int,
    n: int,
    k: int,
)
    requires
        n >= 1,
        step >= 1,
        0 <= k < n,
        forall|t: int| (#[trigger] score(t)).energy > 0,
        peak(score, lo, step, n) < lo + step * k,
    ensures
        !score(peak(score, lo, step, n)).le(score(lo + step * k)),
    decreases n,
{
    if n > 1 {
        let best = peak(score, lo, step, n - 1);
        let next = lo + step * (n - 1);
        if k < n - 1 {
            assert(step * k < step * (n - 1)) by (nonlinear_arith)
                requires
                    k < n - 1,
                    step >= 1,
            ;
            law_peak_is_the_last_highest(score, lo, step, n - 1, k);
        }
    } else {
        assert(step * k == 0) by (nonlinear_arith)
            requires
                k == 0,
        ;
    }
}

/// A place on the half-second grid of a search at which the score is highest.
pub open spec fn is_coarse_peak(
    score: spec_fn(int) -> CorrelationView,
    lo: int,
    top: int,
    c: int,
) -> bool {
    &&& lo <= c <= top
    &&& (c - lo) % 8_000 == 0
    &&& forall|k: int|
        0 <= k && lo + 8_000 * k <= top ==> score(lo + #[trigger] (8_000 * k)).le(score(c))
}

/// A search goes in two steps. The highest place on the half-second grid counts first, and
/// what is found scores at least as high as every place that lies a multiple of ten
/// milliseconds from that one, up to half a second before and behind it, in the range that is
/// searched and where the window still fits in the cloud.
pub proof fn law_search_refines_the_peak(
    cloud: Seq<i16>,
    local: Seq<i16>,
    local_off: int,
    win: int,
    lo: int,
    hi: int,
)
    requires
        0 <= win,
        0 <= lo < hi,
        lo + win < cloud.len(),
    ensures
        ({
            let score = placement(cloud, local, local_off, win);
            let found = search(cloud, local, local_off, win, lo, hi);
            let top = min_int(hi, cloud.len() - win);
            &&& lo <= found <= top
            &&& exists|c: int| #[trigger]
                is_coarse_peak(score, lo, top, c) && -8_000 <= found - c <= 8_000 && forall|j: int|
                    -50 <= j <= 50 && lo <= c + 160 * j <= top ==> score(c + #[trigger] (160 * j)).le(
                        score(found),
                    )
        }),
{
    let score = placement(cloud, local, local_off, win);
    let found = search(cloud, local, local_off, win, lo, hi);
    let top = min_int(hi, cloud.len() - win);
    assert(top == min_int(hi, max_int(cloud.len() - win, 0)));
    assert forall|t: int| (#[trigger] score(t)).energy > 0 by {
        law_correlation_in_unit_interval(local, local_off, cloud, t, win);
    }
    let n = (top - lo) / 8_000 + 1;
    law_peak_is_highest(score, lo, 8_000, n);
    lemma_peak_on_grid(score, lo, 8_000, n);
    let c = peak(score, lo, 8_000, n);
    let at = choose|k: int| 0 <= k < n && c == lo + #[trigger] (8_000 * k);
    assert forall|k: int| 0 <= k && lo + 8_000 * k <= top implies score(
        lo + #[trigger] (8_000 * k),
    ).le(score(c)) by {
        assert(k < n);
    }
    assert(is_coarse_peak(score, lo, top, c));
    let from = max_int(c - 8_000, lo);
    let to = min_int(c + 8_000, top);
    let m = (to - from) / 160 + 1;
    law_peak_is_highest(score, from, 160, m);
    lemma_peak_on_grid(score, from, 160, m);
    assert(from == lo || from == c - 8_000);
    assert((c - from) % 160 == 0);
    assert forall|j: int| -50 <= j <= 50 && lo <= c + 160 * j <= top implies score(
        c + #[trigger] (160 * j),
    ).le(score(found)) by {
        let i = (c - from) / 160 + j;
        assert(from + 160 * i == c + 160 * j);
        assert(0 <= i < m);
        assert(score(from + 160 * i).le(score(found)));
    }
}

/// Where a sample lands: the whole sample of the cloud on the near side of its time.
pub proof fn law_landing(offset_ns: int, at: int)
    ensures
        ({
            let t = offset_ns + at * 62_500;
            let r = landing(offset_ns, at);
            &&& t >= 0 ==> 0 <= t - r * 62_500 < 62_500
            &&& t < 0 ==> 0 <= r * 62_500 - t < 62_500
        }),
{
}

/// Where a local track has a window that is not silent, its loud windows are not constant,
/// and the whole track stands in the cloud on the half-second grid, the track is found: the
/// alignment has full confidence, and its offset puts the track's most active window on a
/// place of the cloud that correlates with it fully.
pub proof fn law_track_in_the_cloud_is_found(cloud: Seq<i16>, local: Seq<i16>, at: int, k: int)
    requires
        local.len() >= 16_000,
        at >= 0,
        at % 8_000 == 0,
        at + local.len() <= cloud.len(),
        forall|i: int| 0 <= i < local.len() ==> #[trigger] local[i] == cloud[at + i],
        is_loud(local, min_int(32_000, local.len() as int), k),
        forall|j: int|
            #[trigger] is_loud(local, min_int(32_000, local.len() as int), j) ==> correlation(
                local,
                16_000 * j,
                local,
                16_000 * j,
                min_int(32_000, local.len() as int),
            ) != no_correlation(),
    ensures
        ({
            let win = min_int(32_000, local.len() as int);
            let r = alignment(cloud, local, None);
            &&& r.confidence.cross > 0
            &&& r.confidence.cross * r.confidence.cross == r.confidence.energy
            &&& exists|j: int, p: int|
                #![trigger is_loud(local, win, j), correlation(local, 16_000 * j, cloud, p, win)]
                {
                    &&& is_loud(local, win, j)
                    &&& forall|i: int|
                        0 <= i && 16_000 * i + win <= local.len() ==> #[trigger] energy_at(
                            local,
                            win,
                            i,
                        ) <= energy_at(local, win, j)
                    &&& r.confidence == correlation(local, 16_000 * j, cloud, p, win)
                    &&& r.offset_ns == (p - 16_000 * j) * 62_500
                }
        }),
{
    let win = min_int(32_000, local.len() as int);
    let best = anchor(local, win);
    law_anchor_is_most_active(local, win);
    let j = best / 16_000;
    assert(best == 16_000 * j);
    assert(is_loud(local, win, j));
    let t = at + best;
    let last = max_int(cloud.len() - win, 0);
    let g = t / 8_000;
    assert(t == 0 + 8_000 * g);
    assert forall|i: int| 0 <= i < win implies #[trigger] local[best + i] == cloud[0 + 8_000 * g
        + i] by {
        assert(local[best + i] == cloud[at + (best + i)]);
    }
    lemma_same_correlation(local, best, cloud, t, win);
    law_verbatim_window_is_found(cloud, local, best, win, 0, last, g);
    let p = anchored(cloud, local, win, None);
    assert(correlation(local, 16_000 * j, cloud, p, win) == alignment(
        cloud,
        local,
        None,
    ).confidence);
    assert forall|i: int| 0 <= i && 16_000 * i + win <= local.len() implies #[trigger] energy_at(
        local,
        win,
        i,
    ) <= energy_at(local, win, j) by {}
}

/// A window and its copy have the same variance, so they correlate wherever the window does
/// with itself.
proof fn lemma_same_correlation(a: Seq<i16>, ao: int, b: Seq<i16>, bo: int, n: int)
    requires
        0 < n,
        ao + n <= a.len(),
        bo + n <= b.len(),
        forall|k: int| 0 <= k < n ==> #[trigger] a[ao + k] == b[bo + k],
        correlation(a, ao, a, ao, n) != no_correlation(),
    ensures
        correlation(a, ao, b, bo, n) == correlation(a, ao, a, ao, n),
{
    let fa = |k: int| a[ao + k] as int;
    let fb = |k: int| b[bo + k] as int;
    let faa = |k: int| a[ao + k] * a[ao + k];
    let fbb = |k: int| b[bo + k] * b[bo + k];
    let fab = |k: int| a[ao + k] * b[bo + k];
    assert forall|k: int| 0 <= k < n implies #[trigger] fa(k) == fb(k) && faa(k) == fbb(k)
        && faa(k) == fab(k) by {
        assert(a[ao + k] == b[bo + k]);
    }
    assert forall|k: int| 0 <= k < n implies #[trigger] faa(k) == fbb(k) by {
        assert(fa(k) == fb(k));
    }
    assert forall|k: int| 0 <= k < n implies #[trigger] faa(k) == fab(k) by {
        assert(fa(k) == fb(k));
    }
    lemma_total_same(fa, fb, n);
    lemma_total_same(faa, fbb, n);
    lemma_total_same(faa, fab, n);
}

/// A confidence is the correlation at the offset that comes with it.
pub proof fn law_confidence_is_of_the_offset(cloud: Seq<i16>, local: Seq<i16>, hint: Option<i64>)
    requires
        local.len() >= 16_000,
        cloud.len() >= 16_000,
    ensures
        ({
            let win = min_int(32_000, local.len() as int);
            let best = anchor(local, win);
            let r = alignment(cloud, local, hint);
            r.confidence.cross > 0 ==> exists|p: int|
                r.confidence == #[trigger] correlation(local, best, cloud, p, win) && r.offset_ns
                    == (p - best) * 62_500
        }),
{
    let win = min_int(32_000, local.len() as int);
    let best = anchor(local, win);
    let p = anchored(cloud, local, win, hint);
    assert(correlation(local, best, cloud, p, win) == correlation(local, best, cloud, p, win));
}

/// Drift is how far the track's last window was found from where it would lie if the two ran
/// at one rate, per sample between the anchor and that window, or per second if they are less
/// than one apart. The place found correlates with the last window at least as well as every place on the
/// half-second grid up to five seconds around the expected one.
pub proof fn law_drift_is_of_the_last_window(cloud: Seq<i16>, local: Seq<i16>, win: int, start: int)
    requires
        0 < win <= local.len(),
        0 <= start,
    ensures
        ({
            let end = local.len() - win;
            let gap = end - anchor(local, win);
            let (num, den) = drift_of(cloud, local, win, start);
            let found = start + gap + num;
            let lo = max_int(start + gap - 80_000, 0);
            &&& den == max_int(gap, 16_000)
            &&& lo <= found
            &&& forall|k: int|
                0 <= k && lo + 8_000 * k <= min_int(start + gap + 80_000, cloud.len() - win)
                    ==> correlation(local, end, cloud, lo + #[trigger] (8_000 * k), win).le(
                    correlation(local, end, cloud, found, win),
                )
        }),
{
    let end = local.len() - win;
    law_anchor_is_most_active(local, win);
    let gap = end - anchor(local, win);
    let lo = max_int(start + gap - 80_000, 0);
    let last = max_int(cloud.len() - win, 0);
    let hi = min_int(start + gap + 80_000, last);
    let found = search(cloud, local, end, win, lo, hi);
    lemma_search_bound(cloud, local, end, win, lo, hi);
    assert(drift_of(cloud, local, win, start).0 == found - start - gap);
    assert forall|k: int|
        0 <= k && lo + 8_000 * k <= min_int(start + gap + 80_000, cloud.len() - win) implies
        correlation(local, end, cloud, lo + #[trigger] (8_000 * k), win).le(
        correlation(local, end, cloud, found, win),
    ) by {
        law_search_keeps_the_coarse_peak(cloud, local, end, win, lo, hi, k);
    }
}

/// When drift is measured, and from where: a track of 40 seconds or less has none, and of a
/// longer one that was found, or had no hint, it is measured from the place of the anchor
/// that the offset gives.
pub proof fn law_drift_is_of_long_tracks(cloud: Seq<i16>, local: Seq<i16>, hint: Option<i64>)
    requires
        local.len() >= 16_000,
        cloud.len() >= 16_000,
    ensures
        ({
            let win = min_int(32_000, local.len() as int);
            let best = anchor(local, win);
            let r = alignment(cloud, local, hint);
            &&& local.len() <= 40 * 16_000 ==> r.drift.0 == 0
            &&& local.len() > 40 * 16_000 && (hint is None || r.confidence.cross > 0) ==> exists|
                p: int,
            |
                r.drift == #[trigger] drift_of(cloud, local, win, p) && r.offset_ns == (p - best)
                    * 62_500
            &&& local.len() > 40 * 16_000 && hint is Some && r.confidence.cross <= 0 ==> r.drift
                == drift_of(cloud, local, win, max_int(landing(hint->0 as int, best), 0))
        }),
{
    let win = min_int(32_000, local.len() as int);
    let p = anchored(cloud, local, win, hint);
    assert(drift_of(cloud, local, win, p) == drift_of(cloud, local, win, p));
}

proof fn lemma_differences(
    f: spec_fn(int) -> int,
    g: spec_fn(int) -> int,
    fg: spec_fn(int) -> int,
    d: spec_fn(int) -> int,
    x: int,
    y: int,
    n: int,
)
    requires
        n >= 0,
        forall|k: int| 0 <= k < n ==> #[trigger] d(k) == (x - f(k)) * (y - g(k)),
        forall|k: int| 0 <= k < n ==> #[trigger] fg(k) == f(k) * g(k),
    ensures
        total(d, n) == n * (x * y) - x * total(g, n) - y * total(f, n) + total(fg, n),
    decreases n,
{
    if n > 0 {
        let m = n - 1;
        lemma_differences(f, g, fg, d, x, y, m);
        let (u, v) = (f(m), g(m));
        let (tf, tg) = (total(f, m), total(g, m));
        assert(d(m) == (x - u) * (y - v));
        assert(fg(m) == u * v);
        assert((x - u) * (y - v) == x * y - x * v - y * u + u * v) by (nonlinear_arith);
        assert(x * (tg + v) == x * tg + x * v) by (nonlinear_arith);
        assert(y * (tf + u) == y * tf + y * u) by (nonlinear_arith);
        let xy = x * y;
        assert(n * xy == m * xy + xy) by (nonlinear_arith)
            requires
                n == m + 1,
        ;
    } else {
        assert(n * (x * y) == 0 && x * 0 == 0 && y * 0 == 0) by (nonlinear_arith)
            requires
                n == 0,
        ;
    }
}

/// What is correlated is how the samples of both windows differ from one another, not their
/// level: one more sample adds the products of its differences from all the others.
pub proof fn law_covariance_is_of_differences(a: Seq<i16>, ao: int, b: Seq<i16>, bo: int, n: int)
    requires
        n >= 0,
    ensures
        covariance(a, ao, b, bo, 0) == 0,
        covariance(a, ao, b, bo, n + 1) == covariance(a, ao, b, bo, n) + total(
            |k: int| (a[ao + n] - a[ao + k]) * (b[bo + n] - b[bo + k]),
            n,
        ),
{
    let f = |k: int| a[ao + k] as int;
    let g = |k: int| b[bo + k] as int;
    let fg = |k: int| a[ao + k] * b[bo + k];
    let d = |k: int| (a[ao + n] - a[ao + k]) * (b[bo + n] - b[bo + k]);
    let (x, y) = (a[ao + n] as int, b[bo + n] as int);
    lemma_differences(f, g, fg, d, x, y, n);
    let (s, t, p) = (total(f, n), total(g, n), total(fg, n));
    assert(total(f, n + 1) == s + x && total(g, n + 1) == t + y && total(fg, n + 1) == p + x * y);
    assert((s + x) * (t + y) == s * t + s * y + x * t + x * y) by (nonlinear_arith);
    let xy = x * y;
    assert((n + 1) * (p + xy) == n * p + n * xy + p + xy) by (nonlinear_arith);
    assert(s * y == y * s) by (nonlinear_arith);
    assert(total(f, 0) == 0 && total(g, 0) == 0 && total(fg, 0) == 0);
    assert(0 * total(fg, 0) - total(f, 0) * total(g, 0) == 0) by (nonlinear_arith)
        requires
            total(f, 0) == 0,
    ;
}

/// A sum has one term more than the sum before.
pub proof fn law_total_adds_a_term(f: spec_fn(int) -> int, n: int)
    requires
        n >= 0,
    ensures
        total(f, 0) == 0,
        total(f, n + 1) - total(f, n) == f(n),
{
}

/// Raising one track by a constant changes no correlation.
pub proof fn law_correlation_ignores_the_level(
    a: Seq<i16>,
    ao: int,
    b: Seq<i16>,
    bo: int,
    c: Seq<i16>,
    co: int,
    n: int,
    d: int,
)
    requires
        0 <= n,
        bo + n <= b.len(),
        co + n <= c.len(),
        forall|k: int| 0 <= k < n ==> #[trigger] c[co + k] == b[bo + k] + d,
    ensures
        correlation(a, ao, c, co, n) == correlation(a, ao, b, bo, n),
{
    lemma_level(a, ao, b, bo, c, co, n, d);
    lemma_level_twice(b, bo, c, co, n, d);
}

proof fn lemma_level(
    a: Seq<i16>,
    ao: int,
    b: Seq<i16>,
    bo: int,
    c: Seq<i16>,
    co: int,
    n: int,
    d: int,
)
    requires
        0 <= n,
        forall|k: int| 0 <= k < n ==> #[trigger] c[co + k] == b[bo + k] + d,
    ensures
        covariance(a, ao, c, co, n) == covariance(a, ao, b, bo, n),
    decreases n,
{
    if n > 0 {
        let m = n - 1;
        lemma_level(a, ao, b, bo, c, co, m, d);
        law_covariance_is_of_differences(a, ao, b, bo, m);
        law_covariance_is_of_differences(a, ao, c, co, m);
        let f = |k: int| (a[ao + m] - a[ao + k]) * (b[bo + m] - b[bo + k]);
        let g = |k: int| (a[ao + m] - a[ao + k]) * (c[co + m] - c[co + k]);
        assert forall|k: int| 0 <= k < m implies #[trigger] f(k) == g(k) by {
            assert(c[co + k] == b[bo + k] + d);
            assert(c[co + m] == b[bo + m] + d);
        }
        lemma_total_same(f, g, m);
    } else {
        law_covariance_is_of_differences(a, ao, b, bo, 0);
        law_covariance_is_of_differences(a, ao, c, co, 0);
    }
}

proof fn lemma_level_twice(b: Seq<i16>, bo: int, c: Seq<i16>, co: int, n: int, d: int)
    requires
        0 <= n,
        forall|k: int| 0 <= k < n ==> #[trigger] c[co + k] == b[bo + k] + d,
    ensures
        variance(c, co, n) == variance(b, bo, n),
    decreases n,
{
    if n > 0 {
        let m = n - 1;
        lemma_level_twice(b, bo, c, co, m, d);
        law_covariance_is_of_differences(b, bo, b, bo, m);
        law_covariance_is_of_differences(c, co, c, co, m);
        let f = |k: int| (b[bo + m] - b[bo + k]) * (b[bo + m] - b[bo + k]);
        let g = |k: int| (c[co + m] - c[co + k]) * (c[co + m] - c[co + k]);
        assert forall|k: int| 0 <= k < m implies #[trigger] f(k) == g(k) by {
            assert(c[co + k] == b[bo + k] + d);
            assert(c[co + m] == b[bo + m] + d);
        }
        lemma_total_same(f, g, m);
    } else {
        law_covariance_is_of_differences(b, bo, b, bo, 0);
        law_covariance_is_of_differences(c, co, c, co, 0);
    }
}

/// Two windows correlate if both lie in their tracks and they are not all but silent: for
/// samples in `[-1, 1)`, the product of their summed squares about the mean is above the
/// square of a billionth. The correlation is then their covariance by the root of the product
/// of their variances.
pub proof fn law_when_windows_correlate(a: Seq<i16>, ao: int, b: Seq<i16>, bo: int, n: int)
    requires
        0 <= n,
    ensures
        ({
            let c = correlation(a, ao, b, bo, n);
            let (va, vb) = (covariance(a, ao, a, ao, n), covariance(b, bo, b, bo, n));
            let heard = 0 < n && ao + n <= a.len() && bo + n <= b.len() && (va * vb)
                * 1_000_000_000_000_000_000 > (n * n) * (32_768 * 32_768 * 32_768 * 32_768);
            &&& heard ==> c.cross == covariance(a, ao, b, bo, n) && c.energy == va * vb
            &&& !heard ==> c.cross == 0
        }),
{
}

/// With a hint the search covers five seconds before and behind the place where the hint puts
/// the anchor: no place there on the half-second grid correlates better than the one found.
pub proof fn law_hint_band_is_searched(
    cloud: Seq<i16>,
    local: Seq<i16>,
    win: int,
    hint: i64,
    k: int,
)
    requires
        0 < win,
        0 <= k,
        ({
            let center = landing(hint as int, anchor(local, win));
            let t = max_int(center - 80_000, 0) + 8_000 * k;
            t <= center + 80_000 && t + win <= cloud.len()
        }),
    ensures
        ({
            let best = anchor(local, win);
            let t = max_int(landing(hint as int, best) - 80_000, 0) + 8_000 * k;
            correlation(local, best, cloud, t, win).le(
                correlation(local, best, cloud, anchored(cloud, local, win, Some(hint)), win),
            )
        }),
{
    let best = anchor(local, win);
    let last = max_int(cloud.len() - win, 0);
    let center = landing(hint as int, best);
    let lo = max_int(center - 80_000, 0);
    let hi = max_int(min_int(center + 80_000, last), lo);
    law_search_keeps_the_coarse_peak(cloud, local, best, win, lo, hi, k);
}

/// Without a hint the whole cloud is searched: no place on its half-second grid correlates
/// better with the anchor than the one found.
pub proof fn law_whole_cloud_is_searched(cloud: Seq<i16>, local: Seq<i16>, win: int, k: int)
    requires
        0 < win,
        0 <= k,
        8_000 * k + win <= cloud.len(),
    ensures
        ({
            let best = anchor(local, win);
            correlation(local, best, cloud, 8_000 * k, win).le(
                correlation(local, best, cloud, anchored(cloud, local, win, None), win),
            )
        }),
{
    let best = anchor(local, win);
    law_search_keeps_the_coarse_peak(cloud, local, best, win, 0, max_int(cloud.len() - win, 0), k);
}

/// Of a track or a cloud shorter than a second nothing is measured: the hint stands, or the
/// track begins with the cloud.
pub proof fn law_short_tracks_are_not_searched(cloud: Seq<i16>, local: Seq<i16>, hint: Option<i64>)
    requires
        local.len() < 16_000 || cloud.len() < 16_000,
    ensures
        ({
            let r = alignment(cloud, local, hint);
            &&& hint matches Some(h) ==> r.offset_ns == h
            &&& hint is None ==> r.offset_ns == 0
            &&& r.drift.0 == 0
            &&& r.confidence.cross == 0
        }),
{
}

/// Where nothing is left to search, the search stays at its lower limit.
pub proof fn law_empty_search(
    cloud: Seq<i16>,
    local: Seq<i16>,
    local_off: int,
    win: int,
    lo: int,
    hi: int,
)
    requires
        0 <= lo,
        hi <= lo || cloud.len() <= lo + win,
    ensures
        search(cloud, local, local_off, win, lo, hi) == lo,
{
}

/// What stands for an alignment: its own offset, its drift by numerator and denominator, and
/// its correlation by the product of the two energies.
pub proof fn law_alignment_values(a: Alignment)
    ensures
        a@.offset_ns == a.offset_ns,
        a@.drift.0 == a.drift.num,
        a@.drift.1 == a.drift.den,
        a@.confidence.cross == a.confidence.cross,
        a@.confidence.energy == a.confidence.energy_a * a.confidence.energy_b,
{
}

} // verus!
