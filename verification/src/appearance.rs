//! Which frame and which part of it a participant is recognised by.
use vstd::prelude::*;

use crate::colour::{luma, spec_luma};
use crate::frame::PpmFrame;
use crate::geometry::Rect;
use crate::wide::product_le;

verus! {

/// A tenth of a length, to the nearest pixel, halfway the greater one.
pub open spec fn tenth(n: int) -> int {
    (n + 5) / 10
}

pub open spec fn saturated(v: int) -> int {
    if v > u32::MAX {
        u32::MAX as int
    } else {
        v
    }
}

pub open spec fn at_least(v: int, min: int) -> int {
    if v < min {
        min
    } else {
        v
    }
}

/// A rectangle without a tenth of its size on every side, but not without its last pixel.
pub open spec fn centre_of(r: Rect) -> Rect {
    Rect {
        x: saturated(r.x + tenth(r.w as int)) as u32,
        y: saturated(r.y + tenth(r.h as int)) as u32,
        w: at_least(r.w - 2 * tenth(r.w as int), 1) as u32,
        h: at_least(r.h - 2 * tenth(r.h as int), 1) as u32,
    }
}

fn inset(start: u32, length: u32) -> (r: (u32, u32))
    ensures
        r.0 == saturated(start + tenth(length as int)),
        r.1 == at_least(length - 2 * tenth(length as int), 1),
{
    let d: u64 = (length as u64 + 5) / 10;
    let s: u64 = start as u64 + d;
    let from: u32 = if s > u32::MAX as u64 { u32::MAX } else { s as u32 };
    let n: u32 = if length as u64 <= 2 * d { 1 } else { (length as u64 - 2 * d) as u32 };
    (from, n)
}

/// The middle of a tile. The person sits there; the room at the edges would otherwise
/// outweigh the shirt.
pub fn center_rect(r: &Rect) -> (c: Rect)
    ensures
        c == centre_of(*r),
{
    let (x, w) = inset(r.x, r.w);
    let (y, h) = inset(r.y, r.h);
    Rect { x, y, w, h }
}

/// The part of a `width` by `height` frame that a signature is taken of: without a tenth
/// (rounded down) on every side, to leave out letterboxing.
pub fn signature_rect(width: u32, height: u32) -> (r: Rect)
    ensures
        r.x == width as int / 10,
        r.y == height as int / 10,
        r.w == width - 2 * (width as int / 10),
        r.h == height - 2 * (height as int / 10),
        r.x + r.w <= width,
        r.y + r.h <= height,
{
    let (x, y) = (width / 10, height / 10);
    Rect { x, y, w: width - 2 * x, h: height - 2 * y }
}

/// The sum of the brightness of some pixels, in thousandths.
pub open spec fn luma_sum(p: Seq<[u8; 3]>) -> int
    decreases p.len(),
{
    if p.len() == 0 {
        0
    } else {
        luma_sum(p.drop_last()) + spec_luma(p.last())
    }
}

/// The sum of the squares of the brightness of some pixels, in millionths.
pub open spec fn luma_square_sum(p: Seq<[u8; 3]>) -> int
    decreases p.len(),
{
    if p.len() == 0 {
        0
    } else {
        luma_square_sum(p.drop_last()) + spec_luma(p.last()) * spec_luma(p.last())
    }
}

/// The sum of the squares of `n * luma - total`.
pub open spec fn deviation(p: Seq<[u8; 3]>, n: int, total: int) -> int
    decreases p.len(),
{
    if p.len() == 0 {
        0
    } else {
        let d = n * spec_luma(p.last()) - total;
        deviation(p.drop_last(), n, total) + d * d
    }
}

/// A variance of brightness, in millionths.
#[derive(Debug, Clone, Copy, PartialEq, Eq, Structural)]
pub struct Score {
    pub num: u128,
    pub den: u128,
}

impl Score {
    /// `self` is greater than `o`.
    pub open spec fn is_above(self, o: Score) -> bool {
        self.num * o.den > o.num * self.den
    }

    /// Below one: a frame without visible content.
    pub open spec fn is_blank(self) -> bool {
        self.num < 1_000_000 * self.den
    }

    pub fn above(&self, o: &Score) -> (r: bool)
        ensures
            r == self.is_above(*o),
    {
        !product_le(self.num, o.den, o.num, self.den)
    }

    pub fn blank(&self) -> (r: bool)
        ensures
            r == self.is_blank(),
    {
        !product_le(1_000_000, self.den, self.num, 1)
    }
}

proof fn lemma_sums(p: Seq<[u8; 3]>)
    ensures
        0 <= luma_sum(p) <= 255_000 * p.len(),
        0 <= luma_square_sum(p) <= 65_025_000_000 * p.len(),
    decreases p.len(),
{
    if p.len() > 0 {
        lemma_sums(p.drop_last());
        let l = spec_luma(p.last());
        assert(0 <= l <= 255_000);
        assert(0 <= l * l <= 255_000 * 255_000) by (nonlinear_arith)
            requires
                0 <= l <= 255_000,
        ;
    }
}

proof fn lemma_deviation(p: Seq<[u8; 3]>, n: int, total: int)
    ensures
        deviation(p, n, total) >= 0,
        deviation(p, n, total) == n * n * luma_square_sum(p) - 2 * n * total * luma_sum(p)
            + p.len() * (total * total),
    decreases p.len(),
{
    if p.len() > 0 {
        let t = p.drop_last();
        lemma_deviation(t, n, total);
        let l = spec_luma(p.last());
        let (q, s) = (luma_square_sum(t), luma_sum(t));
        let d = n * l - total;
        assert(d * d >= 0) by (nonlinear_arith);
        assert(d * d == n * n * (l * l) - 2 * n * total * l + total * total) by (nonlinear_arith)
            requires
                d == n * l - total,
        ;
        assert(n * n * (q + l * l) == n * n * q + n * n * (l * l)) by (nonlinear_arith);
        assert(2 * n * total * (s + l) == 2 * n * total * s + 2 * n * total * l)
            by (nonlinear_arith);
        let k = t.len() as int;
        assert((k + 1) * (total * total) == k * (total * total) + total * total)
            by (nonlinear_arith);
    } else {
        assert(n * n * 0 - 2 * n * total * 0 + 0 * (total * total) == 0) by (nonlinear_arith);
    }
}

/// The numerator of a frame's score, times the number of pixels, is the summed square of
/// the deviations from the mean, each times the number of pixels. So the score is the
/// variance, and it is not negative.
pub proof fn law_score_is_the_variance(p: Seq<[u8; 3]>)
    requires
        p.len() > 0,
    ensures
        ({
            let (n, s) = (p.len() as int, luma_sum(p));
            let num = n * luma_square_sum(p) - s * s;
            &&& num >= 0
            &&& n * num == deviation(p, n, s)
        }),
{
    let (n, s) = (p.len() as int, luma_sum(p));
    let q = luma_square_sum(p);
    lemma_deviation(p, n, s);
    let num = n * q - s * s;
    assert(n * num == n * n * q - 2 * n * s * s + n * (s * s)) by (nonlinear_arith)
        requires
            num == n * q - s * s,
    ;
    assert(num >= 0) by (nonlinear_arith)
        requires
            n * num >= 0,
            n > 0,
    ;
}

/// "Is there a person in the frame?" The variance of its brightness: about zero for a blank
/// frame (the camera is off), high for a person in a room.
pub fn content_score(frame: &PpmFrame) -> (r: Score)
    requires
        frame.pixels@.len() <= 0x2000_0000_0000,
    ensures
        frame.pixels@.len() == 0 ==> r == (Score { num: 0, den: 1 }),
        frame.pixels@.len() > 0 ==> {
            let (n, s) = (frame.pixels@.len() as int, luma_sum(frame.pixels@));
            &&& r.num == n * luma_square_sum(frame.pixels@) - s * s
            &&& r.den == n * n
        },
        r.den > 0,
{
    let len: usize = frame.pixels.len();
    if len == 0 {
        return Score { num: 0, den: 1 };
    }
    let ghost p = frame.pixels@;
    let mut sum: u128 = 0;
    let mut squares: u128 = 0;
    let mut i: usize = 0;
    while i < len
        invariant
            i <= len,
            len == p.len(),
            len <= 0x2000_0000_0000,
            p == frame.pixels@,
            sum == luma_sum(p.take(i as int)),
            squares == luma_square_sum(p.take(i as int)),
        decreases len - i,
    {
        let l: u128 = luma(&frame.pixels[i]) as u128;
        proof {
            assert(p.take(i + 1).drop_last() =~= p.take(i as int));
            assert(p.take(i + 1).last() == p[i as int]);
            lemma_sums(p.take(i as int));
            assert(0 <= l * l <= 255_000 * 255_000) by (nonlinear_arith)
                requires
                    0 <= l <= 255_000,
            ;
        }
        sum = sum + l;
        squares = squares + l * l;
        i = i + 1;
    }
    let n: u128 = len as u128;
    proof {
        assert(p.take(len as int) =~= p);
        lemma_sums(p);
        law_score_is_the_variance(p);
        assert(n * squares <= 0x2000_0000_0000 * (65_025_000_000 * 0x2000_0000_0000))
            by (nonlinear_arith)
            requires
                0 <= n <= 0x2000_0000_0000,
                0 <= squares <= 65_025_000_000 * 0x2000_0000_0000,
        ;
        assert(0 <= sum * sum <= n * squares);
        assert(0 < n * n <= 0x2000_0000_0000 * 0x2000_0000_0000) by (nonlinear_arith)
            requires
                0 < n <= 0x2000_0000_0000,
        ;
    }
    Score { num: n * squares - sum * sum, den: n * n }
}

/// Among the first `n` scores, the position of the first that is the greatest.
pub open spec fn best_score(s: Seq<Score>, n: int) -> Option<int>
    decreases n,
{
    if n <= 0 {
        None
    } else {
        match best_score(s, n - 1) {
            Some(p) => if s[n - 1].is_above(s[p]) {
                Some(n - 1)
            } else {
                Some(p)
            },
            None => Some(0),
        }
    }
}

/// No score is greater than the best one.
pub proof fn law_best_score(s: Seq<Score>, n: int)
    requires
        0 < n <= s.len(),
        forall|k: int| 0 <= k < n ==> (#[trigger] s[k]).den > 0,
    ensures
        best_score(s, n) is Some,
        0 <= best_score(s, n)->0 < n,
        forall|k: int| 0 <= k < n ==> !(#[trigger] s[k]).is_above(s[best_score(s, n)->0]),
    decreases n,
{
    if n > 1 {
        law_best_score(s, n - 1);
        let p = best_score(s, n - 1)->0;
        let q = best_score(s, n)->0;
        assert forall|k: int| 0 <= k < n implies !(#[trigger] s[k]).is_above(s[q]) by {
            if k < n - 1 && q == n - 1 {
                lemma_transitive(s[k], s[p], s[q]);
            }
        }
    }
}

proof fn lemma_transitive(a: Score, b: Score, c: Score)
    requires
        a.den > 0,
        b.den > 0,
        c.den > 0,
        !a.is_above(b),
        c.is_above(b),
    ensures
        !a.is_above(c),
{
    let (an, ad, bn, bd, cn, cd) = (
        a.num as int,
        a.den as int,
        b.num as int,
        b.den as int,
        c.num as int,
        c.den as int,
    );
    assert(an * bd * cd <= bn * ad * cd) by (nonlinear_arith)
        requires
            an * bd <= bn * ad,
            cd > 0,
    ;
    assert(bn * cd * ad <= cn * bd * ad) by (nonlinear_arith)
        requires
            bn * cd <= cn * bd,
            ad > 0,
    ;
    assert(bd * (an * cd) == an * bd * cd && bd * (cn * ad) == cn * bd * ad && bn * ad * cd == bn
        * cd * ad) by (nonlinear_arith);
    assert(an * cd <= cn * ad) by (nonlinear_arith)
        requires
            bd * (an * cd) <= bd * (cn * ad),
            bd > 0,
    ;
}

/// The frame with the most content: the first of those with the greatest score.
pub fn best_reference(scores: &[Score]) -> (r: Option<usize>)
    ensures
        r is Some <==> scores@.len() > 0,
        r matches Some(p) ==> p < scores@.len() && best_score(scores@, scores@.len() as int)
            == Some(p as int),
{
    let mut best: Option<usize> = None;
    let mut i: usize = 0;
    while i < scores.len()
        invariant
            i <= scores@.len(),
            best is Some <==> i > 0,
            best matches Some(p) ==> p < i && best_score(scores@, i as int) == Some(p as int),
        decreases scores@.len() - i,
    {
        let better = match best {
            Some(p) => scores[i].above(&scores[p]),
            None => true,
        };
        if better {
            best = Some(i);
        }
        i = i + 1;
    }
    best
}

/// The middle of a tile lies evenly in it: as much is left out on the left as on the right
/// and above as below, a tenth of its size to the nearest pixel; one pixel stays.
pub proof fn law_centre_is_in_the_middle(r: Rect)
    requires
        r.fits(),
    ensures
        ({
            let c = centre_of(r);
            &&& -5 < 10 * (c.x - r.x) - r.w <= 5
            &&& -5 < 10 * (c.y - r.y) - r.h <= 5
            &&& c.w >= 1 && c.h >= 1
            &&& c.w > 1 ==> c.x - r.x == (r.x + r.w) - (c.x + c.w)
            &&& c.h > 1 ==> c.y - r.y == (r.y + r.h) - (c.y + c.h)
            &&& c.w == 1 ==> r.w <= 2 * (c.x - r.x) + 1
            &&& c.h == 1 ==> r.h <= 2 * (c.y - r.y) + 1
        }),
{
    assert(r.x + tenth(r.w as int) <= r.x + r.w + 1);
    assert(tenth(r.w as int) <= r.w);
    assert(tenth(r.h as int) <= r.h);
}

/// Brightness adds up over the pixels, and so do its squares.
pub proof fn law_brightness_adds_up(a: Seq<[u8; 3]>, b: Seq<[u8; 3]>, p: [u8; 3])
    ensures
        luma_sum(Seq::empty()) == 0,
        luma_square_sum(Seq::empty()) == 0,
        luma_sum(seq![p]) == 299 * p@[0] + 587 * p@[1] + 114 * p@[2],
        luma_square_sum(seq![p]) == (299 * p@[0] + 587 * p@[1] + 114 * p@[2]) * (299 * p@[0] + 587
            * p@[1] + 114 * p@[2]),
        luma_sum(a + b) == luma_sum(a) + luma_sum(b),
        luma_square_sum(a + b) == luma_square_sum(a) + luma_square_sum(b),
    decreases b.len(),
{
    assert(seq![p].drop_last() =~= Seq::<[u8; 3]>::empty());
    assert(luma_sum(Seq::<[u8; 3]>::empty()) == 0);
    assert(luma_square_sum(Seq::<[u8; 3]>::empty()) == 0);
    if b.len() > 0 {
        law_brightness_adds_up(a, b.drop_last(), p);
        assert((a + b).drop_last() =~= a + b.drop_last());
        assert((a + b).last() == b.last());
    } else {
        assert(a + b =~= a);
    }
}

/// The frame that counts has a variance as great as that of every other, and greater than
/// that of every frame before it.
pub proof fn law_reference_has_the_most_content(s: Seq<Score>, n: int)
    requires
        0 < n <= s.len(),
        forall|k: int| 0 <= k < n ==> (#[trigger] s[k]).den > 0,
    ensures
        best_score(s, n) is Some,
        ({
            let b = s[best_score(s, n)->0];
            &&& 0 <= best_score(s, n)->0 < n
            &&& forall|k: int| 0 <= k < n ==> (#[trigger] s[k]).num * b.den <= b.num * s[k].den
            &&& forall|k: int|
                0 <= k < best_score(s, n)->0 ==> (#[trigger] s[k]).num * b.den < b.num * s[k].den
        }),
    decreases n,
{
    law_best_score(s, n);
    if n > 1 {
        law_reference_has_the_most_content(s, n - 1);
        let p = best_score(s, n - 1)->0;
        let q = best_score(s, n)->0;
        if q == n - 1 {
            let (bn, bd) = (s[q].num as int, s[q].den as int);
            let (pn, pd) = (s[p].num as int, s[p].den as int);
            assert(s[q].is_above(s[p]));
            assert forall|k: int| 0 <= k < q implies (#[trigger] s[k]).num * s[q].den < s[q].num
                * s[k].den by {
                let (kn, kd) = (s[k].num as int, s[k].den as int);
                assert(kn * pd <= pn * kd);
                assert(kn * bd < bn * kd) by (nonlinear_arith)
                    requires
                        kn * pd <= pn * kd,
                        bn * pd > pn * bd,
                        pd > 0,
                        kd > 0,
                        bd > 0,
                ;
            }
        }
    }
    let q = best_score(s, n)->0;
    assert forall|k: int| 0 <= k < n implies (#[trigger] s[k]).num * s[q].den <= s[q].num
        * s[k].den by {
        assert(!s[k].is_above(s[q]));
    }
}

/// A frame is blank if its variance is below one: `num / den` counts millionths.
pub proof fn law_blank(s: Score)
    ensures
        s.is_blank() <==> s.num < 1_000_000 * s.den,
{
}

} // verus!
