//! Rectangles on the pixel grid and exact overlap ratios between them.
use vstd::prelude::*;

verus! {

/// Axis-aligned rectangle in pixels.
#[derive(Debug, Clone, Copy, PartialEq, Eq, Structural)]
pub struct Rect {
    pub x: u32,
    pub y: u32,
    pub w: u32,
    pub h: u32,
}

/// A non-negative fraction. The constructors in this module never make `den` zero.
#[derive(Debug, Clone, Copy, PartialEq, Eq, Structural)]
pub struct Ratio {
    pub num: u128,
    pub den: u128,
}

pub open spec fn max_int(a: int, b: int) -> int {
    if a >= b {
        a
    } else {
        b
    }
}

pub open spec fn min_int(a: int, b: int) -> int {
    if a <= b {
        a
    } else {
        b
    }
}

/// Length of the intersection of `[a, a + n)` and `[b, b + m)`.
pub open spec fn shared_length(a: int, n: int, b: int, m: int) -> int {
    max_int(0, min_int(a + n, b + m) - max_int(a, b))
}

impl Rect {
    /// Both far edges are representable coordinates.
    pub open spec fn fits(self) -> bool {
        &&& self.x + self.w <= u32::MAX
        &&& self.y + self.h <= u32::MAX
    }

    pub open spec fn spec_area(self) -> int {
        self.w * self.h
    }

    /// Number of pixels that belong to both rectangles.
    pub open spec fn overlap(self, o: Rect) -> int {
        shared_length(self.x as int, self.w as int, o.x as int, o.w as int) * shared_length(
            self.y as int,
            self.h as int,
            o.y as int,
            o.h as int,
        )
    }

    /// Intersection over union is above one half.
    pub open spec fn same_place(self, o: Rect) -> bool {
        2 * self.overlap(o) > self.spec_area() + o.spec_area() - self.overlap(o)
    }

    /// More than seven tenths of `self` lies inside `o`.
    pub open spec fn mostly_inside(self, o: Rect) -> bool {
        10 * self.overlap(o) > 7 * self.spec_area()
    }

    /// Number of pixels in the rectangle.
    pub fn area(&self) -> (r: u64)
        ensures
            r == self.spec_area(),
    {
        assert(self.w * self.h <= 0xffff_ffff * 0xffff_ffff) by (nonlinear_arith)
            requires
                self.w <= 0xffff_ffff,
                self.h <= 0xffff_ffff,
        ;
        self.w as u64 * self.h as u64
    }

    fn intersection(&self, o: &Rect) -> (r: u64)
        requires
            self.fits(),
            o.fits(),
        ensures
            r == self.overlap(*o),
            r <= self.spec_area(),
            r <= o.spec_area(),
    {
        proof {
            lemma_overlap_bounds(*self, *o);
        }
        let x1: u32 = if self.x >= o.x { self.x } else { o.x };
        let y1: u32 = if self.y >= o.y { self.y } else { o.y };
        let x2: u32 = if self.x + self.w <= o.x + o.w { self.x + self.w } else { o.x + o.w };
        let y2: u32 = if self.y + self.h <= o.y + o.h { self.y + self.h } else { o.y + o.h };
        if x2 <= x1 || y2 <= y1 {
            assert(self.overlap(*o) == 0) by (nonlinear_arith)
                requires
                    self.overlap(*o) == shared_length(
                        self.x as int,
                        self.w as int,
                        o.x as int,
                        o.w as int,
                    ) * shared_length(self.y as int, self.h as int, o.y as int, o.h as int),
                    shared_length(self.x as int, self.w as int, o.x as int, o.w as int) == 0
                        || shared_length(self.y as int, self.h as int, o.y as int, o.h as int) == 0,
            ;
            0
        } else {
            assert((x2 - x1) * (y2 - y1) <= 0xffff_ffff * 0xffff_ffff) by (nonlinear_arith)
                requires
                    0 <= x2 - x1 <= 0xffff_ffff,
                    0 <= y2 - y1 <= 0xffff_ffff,
            ;
            (x2 - x1) as u64 * (y2 - y1) as u64
        }
    }

    /// Intersection over union. Rectangles that share no pixel give `0 / 1`.
    pub fn iou(&self, o: &Rect) -> (r: Ratio)
        requires
            self.fits(),
            o.fits(),
        ensures
            r.den > 0,
            r.num == self.overlap(*o),
            self.overlap(*o) > 0 ==> r.den == self.spec_area() + o.spec_area() - self.overlap(*o),
            self.overlap(*o) == 0 ==> r.den == 1,
    {
        let inter: u64 = self.intersection(o);
        if inter == 0 {
            Ratio { num: 0, den: 1 }
        } else {
            Ratio {
                num: inter as u128,
                den: self.area() as u128 + (o.area() - inter) as u128,
            }
        }
    }

    /// Fraction of `self` that lies inside `o`: `1` when it is fully contained.
    /// A small rectangle inside a large one has a tiny intersection over union, and
    /// this is what tells it apart from one that stands beside the large one.
    pub fn covered_by(&self, o: &Rect) -> (r: Ratio)
        requires
            self.fits(),
            o.fits(),
        ensures
            r.den > 0,
            r.num == self.overlap(*o),
            self.overlap(*o) > 0 ==> r.den == self.spec_area(),
            self.overlap(*o) == 0 ==> r.den == 1,
    {
        let inter: u64 = self.intersection(o);
        if inter == 0 {
            Ratio { num: 0, den: 1 }
        } else {
            Ratio { num: inter as u128, den: self.area() as u128 }
        }
    }

    /// `iou` is above one half.
    pub fn is_same_place(&self, o: &Rect) -> (r: bool)
        requires
            self.fits(),
            o.fits(),
        ensures
            r == self.same_place(*o),
    {
        proof {
            lemma_overlap_bounds(*self, *o);
        }
        let q = self.iou(o);
        assert(q.num <= 0xffff_ffff * 0xffff_ffff) by {
            assert(self.w * self.h <= 0xffff_ffff * 0xffff_ffff) by (nonlinear_arith)
                requires
                    self.w <= 0xffff_ffff,
                    self.h <= 0xffff_ffff,
            ;
        }
        2 * q.num > q.den
    }

    /// `covered_by` is above seven tenths.
    pub fn is_mostly_inside(&self, o: &Rect) -> (r: bool)
        requires
            self.fits(),
            o.fits(),
        ensures
            r == self.mostly_inside(*o),
    {
        proof {
            lemma_overlap_bounds(*self, *o);
            assert(self.w * self.h <= 0xffff_ffff * 0xffff_ffff) by (nonlinear_arith)
                requires
                    self.w <= 0xffff_ffff,
                    self.h <= 0xffff_ffff,
            ;
        }
        let q = self.covered_by(o);
        10 * q.num > 7 * q.den
    }
}

/// The shared part of two rectangles is no larger than either, and does not depend
/// on which of the two is named first.
pub proof fn lemma_overlap_bounds(a: Rect, b: Rect)
    ensures
        0 <= a.overlap(b) <= a.spec_area(),
        a.overlap(b) <= b.spec_area(),
        a.overlap(b) == b.overlap(a),
{
    let sx = shared_length(a.x as int, a.w as int, b.x as int, b.w as int);
    let sy = shared_length(a.y as int, a.h as int, b.y as int, b.h as int);
    assert(0 <= sx <= a.w && sx <= b.w);
    assert(0 <= sy <= a.h && sy <= b.h);
    assert(0 <= sx * sy <= a.w * a.h && sx * sy <= b.w * b.h) by (nonlinear_arith)
        requires
            0 <= sx <= a.w,
            sx <= b.w,
            0 <= sy <= a.h,
            sy <= b.h,
    ;
}

/// What two intervals share: exactly the places that lie in both, one after the other from
/// the later start on.
pub proof fn law_shared_length(a: int, n: int, b: int, m: int, t: int)
    requires
        n >= 0,
        m >= 0,
    ensures
        ({
            let start = if a >= b {
                a
            } else {
                b
            };
            &&& shared_length(a, n, b, m) >= 0
            &&& (a <= t < a + n && b <= t < b + m) <==> start <= t < start + shared_length(
                a,
                n,
                b,
                m,
            )
        }),
{
}

/// What two rectangles share: all of the one that lies inside the other, and nothing if they
/// lie beside, above or below each other. It is their shared width times their shared height.
pub proof fn law_overlap(a: Rect, b: Rect)
    ensures
        a.overlap(b) == b.overlap(a),
        b.x <= a.x && a.x + a.w <= b.x + b.w && b.y <= a.y && a.y + a.h <= b.y + b.h ==> a.overlap(b)
            == a.w * a.h,
        a.x + a.w <= b.x || a.y + a.h <= b.y ==> a.overlap(b) == 0,
        a.overlap(b) == shared_length(a.x as int, a.w as int, b.x as int, b.w as int)
            * shared_length(a.y as int, a.h as int, b.y as int, b.h as int),
{
    lemma_overlap_bounds(a, b);
    let sx = shared_length(a.x as int, a.w as int, b.x as int, b.w as int);
    let sy = shared_length(a.y as int, a.h as int, b.y as int, b.h as int);
    if sx == 0 || sy == 0 {
        assert(sx * sy == 0) by (nonlinear_arith)
            requires
                sx == 0 || sy == 0,
        ;
    }
}

/// Two rectangles take the same place if what they share is more than half of what they
/// cover together; it is then more than half of each. It does not matter which is named
/// first.
pub proof fn law_same_place(a: Rect, b: Rect)
    ensures
        a.same_place(b) <==> 2 * a.overlap(b) > a.w * a.h + b.w * b.h - a.overlap(b),
        a.same_place(b) ==> 2 * a.overlap(b) > a.w * a.h && 2 * a.overlap(b) > b.w * b.h,
        a.same_place(b) == b.same_place(a),
{
    lemma_overlap_bounds(a, b);
}

/// A rectangle lies mostly inside another if more than seven tenths of its own pixels do.
pub proof fn law_mostly_inside(a: Rect, b: Rect)
    ensures
        a.mostly_inside(b) <==> 10 * a.overlap(b) > 7 * (a.w * a.h),
        a.w > 0 && a.h > 0 && b.x <= a.x && a.x + a.w <= b.x + b.w && b.y <= a.y && a.y + a.h <= b.y
            + b.h ==> a.mostly_inside(b),
{
    law_overlap(a, b);
    if a.w > 0 && a.h > 0 {
        assert(a.w * a.h > 0) by (nonlinear_arith)
            requires
                a.w > 0,
                a.h > 0,
        ;
    }
}

} // verus!
