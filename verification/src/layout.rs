//! Whether two frames show the same layout, and when one layout gives way to another.
use vstd::arithmetic::power2::{lemma2_to64, lemma_pow2_pos, lemma_pow2_unfold, pow2};
use vstd::prelude::*;

use crate::geometry::Rect;
use crate::matching::TileScore;

verus! {

/// The places of the tiles.
pub open spec fn rects_of(tiles: Seq<TileScore>) -> Seq<Rect> {
    tiles.map_values(|t: TileScore| t.rect)
}

pub open spec fn all_fit(rects: Seq<Rect>) -> bool {
    forall|i: int| 0 <= i < rects.len() ==> (#[trigger] rects[i]).fits()
}

/// Some rectangle of `rects` takes the same place as `r`.
pub open spec fn has_match(r: Rect, rects: Seq<Rect>) -> bool {
    exists|j: int| 0 <= j < rects.len() && r.same_place(#[trigger] rects[j])
}

/// As many rectangles, and each of either side has a match on the other.
pub open spec fn is_same_layout(a: Seq<Rect>, b: Seq<Rect>) -> bool {
    &&& a.len() == b.len()
    &&& forall|i: int| 0 <= i < a.len() ==> has_match(#[trigger] a[i], b)
    &&& forall|i: int| 0 <= i < b.len() ==> has_match(#[trigger] b[i], a)
}

/// Whether two frames have the same layout does not depend on their order.
pub proof fn law_same_layout_is_symmetric(a: Seq<Rect>, b: Seq<Rect>)
    ensures
        is_same_layout(a, b) == is_same_layout(b, a),
{
}

/// A frame whose tiles all have an area has the same layout as itself.
pub proof fn law_same_layout_is_reflexive(a: Seq<Rect>)
    requires
        forall|i: int| 0 <= i < a.len() ==> (#[trigger] a[i]).w > 0 && a[i].h > 0,
    ensures
        is_same_layout(a, a),
{
    assert forall|i: int| 0 <= i < a.len() implies has_match(#[trigger] a[i], a) by {
        let r = a[i];
        assert(r.overlap(r) == r.w * r.h);
        assert(r.w * r.h > 0) by (nonlinear_arith)
            requires
                r.w > 0,
                r.h > 0,
        ;
        assert(r.same_place(a[i]));
    }
}

fn matches_any(r: &Rect, rects: &[Rect]) -> (b: bool)
    requires
        r.fits(),
        all_fit(rects@),
    ensures
        b == has_match(*r, rects@),
{
    let mut j: usize = 0;
    while j < rects.len()
        invariant
            j <= rects@.len(),
            r.fits(),
            all_fit(rects@),
            forall|k: int| 0 <= k < j ==> !r.same_place(#[trigger] rects@[k]),
        decreases rects@.len() - j,
    {
        if r.is_same_place(&rects[j]) {
            assert(r.same_place(rects@[j as int]));
            return true;
        }
        j = j + 1;
    }
    false
}

fn all_match(a: &[Rect], b: &[Rect]) -> (r: bool)
    requires
        all_fit(a@),
        all_fit(b@),
    ensures
        r == forall|i: int| 0 <= i < a@.len() ==> has_match(#[trigger] a@[i], b@),
{
    let mut i: usize = 0;
    while i < a.len()
        invariant
            i <= a@.len(),
            all_fit(a@),
            all_fit(b@),
            forall|k: int| 0 <= k < i ==> has_match(#[trigger] a@[k], b@),
        decreases a@.len() - i,
    {
        if !matches_any(&a[i], b) {
            assert(!has_match(a@[i as int], b@));
            return false;
        }
        i = i + 1;
    }
    true
}

/// Two frames have the same layout if they have the same number of tiles and every tile
/// of one overlaps a tile of the other. Whom the tiles show does not matter.
pub fn same_layout(a: &[Rect], b: &[Rect]) -> (r: bool)
    requires
        all_fit(a@),
        all_fit(b@),
    ensures
        r == is_same_layout(a@, b@),
{
    a.len() == b.len() && all_match(a, b) && all_match(b, a)
}

/// The rectangles of some tiles.
pub fn rects(tiles: &Vec<TileScore>) -> (r: Vec<Rect>)
    ensures
        r@ == rects_of(tiles@),
{
    let mut out: Vec<Rect> = Vec::new();
    let mut i: usize = 0;
    while i < tiles.len()
        invariant
            i <= tiles@.len(),
            out@ == rects_of(tiles@.take(i as int)),
        decreases tiles@.len() - i,
    {
        out.push(tiles[i].rect);
        assert(rects_of(tiles@.take(i + 1)) =~= rects_of(tiles@.take(i as int)).push(
            tiles@[i as int].rect,
        ));
        i = i + 1;
    }
    assert(tiles@.take(i as int) =~= tiles@);
    out
}

/// A gap below a quarter of a second is not searched.
pub const NARROW: i128 = 250_000_000;

/// The search ends when the gap is below half a second.
pub const SETTLED: i128 = 500_000_000;

/// How often the gap is halved at most.
pub const STEPS: u32 = 6;

pub open spec fn middle(lo: int, hi: int) -> int {
    (lo + hi) / 2
}

/// The half of a gap in which the layout changes.
pub open spec fn halved(
    look: spec_fn(int) -> Seq<Rect>,
    lo: int,
    hi: int,
    canon: Seq<Rect>,
    lo_is_canon: bool,
) -> (int, int) {
    if is_same_layout(look(middle(lo, hi)), canon) == lo_is_canon {
        (middle(lo, hi), hi)
    } else {
        (lo, middle(lo, hi))
    }
}

/// The gap after it has been halved up to `steps` times.
pub open spec fn narrowed(
    look: spec_fn(int) -> Seq<Rect>,
    lo: int,
    hi: int,
    canon: Seq<Rect>,
    lo_is_canon: bool,
    steps: nat,
) -> (int, int)
    decreases steps,
{
    if steps == 0 {
        (lo, hi)
    } else {
        let (a, b) = halved(look, lo, hi, canon, lo_is_canon);
        if b - a < SETTLED {
            (a, b)
        } else {
            narrowed(look, a, b, canon, lo_is_canon, (steps - 1) as nat)
        }
    }
}

/// Where between `lo` and `hi` the layout changes from or to `canon`.
pub open spec fn boundary(
    look: spec_fn(int) -> Seq<Rect>,
    lo: int,
    hi: int,
    canon: Seq<Rect>,
    lo_is_canon: bool,
) -> int {
    if hi - lo < NARROW {
        middle(lo, hi)
    } else {
        let (a, b) = narrowed(look, lo, hi, canon, lo_is_canon, STEPS as nat);
        middle(a, b)
    }
}

/// The classifier may be asked about every moment, and what it answers fits.
pub open spec fn is_usable<F: Fn(i64) -> Vec<TileScore>>(classifier: F) -> bool {
    &&& forall|t: i64| #[trigger] call_requires(classifier, (t,))
    &&& forall|t: i64, out: Vec<TileScore>| #[trigger]
        call_ensures(classifier, (t,), out) ==> all_fit(rects_of(out@))
}

/// The classifier sees the tiles `look(t)` at each moment `t`.
pub open spec fn describes<F: Fn(i64) -> Vec<TileScore>>(
    classifier: F,
    look: spec_fn(int) -> Seq<Rect>,
) -> bool {
    forall|t: i64, out: Vec<TileScore>| #[trigger]
        call_ensures(classifier, (t,), out) ==> rects_of(out@) == look(t as int)
}

fn midpoint(lo: i64, hi: i64) -> (r: i64)
    ensures
        r == middle(lo as int, hi as int),
        lo <= hi ==> lo <= r <= hi,
{
    let s: i128 = lo as i128 + hi as i128;
    if s >= 0 {
        (s / 2) as i64
    } else {
        (-((1 - s) / 2)) as i64
    }
}

/// Searches `[lo, hi]` for the moment at which the layout changes from or to `canon`.
/// `lo_is_canon` tells on which side of the change `lo` lies.
pub fn bisect_boundary<F: Fn(i64) -> Vec<TileScore>>(
    classifier: &F,
    lo: i64,
    hi: i64,
    canon: &[Rect],
    lo_is_canon: bool,
) -> (r: i64)
    requires
        is_usable(*classifier),
        all_fit(canon@),
    ensures
        lo <= hi ==> lo <= r <= hi,
        hi - lo < NARROW ==> r == middle(lo as int, hi as int),
        forall|look: spec_fn(int) -> Seq<Rect>| #[trigger]
            describes(*classifier, look) ==> r == boundary(
                look,
                lo as int,
                hi as int,
                canon@,
                lo_is_canon,
            ),
{
    if (hi as i128) - (lo as i128) < NARROW {
        return midpoint(lo, hi);
    }
    let mut a: i64 = lo;
    let mut b: i64 = hi;
    let mut k: u32 = 0;
    while k < STEPS
        invariant
            k <= STEPS,
            lo <= a <= b <= hi,
            hi - lo >= NARROW,
            is_usable(*classifier),
            all_fit(canon@),
            forall|look: spec_fn(int) -> Seq<Rect>| #[trigger]
                describes(*classifier, look) ==> narrowed(
                    look,
                    lo as int,
                    hi as int,
                    canon@,
                    lo_is_canon,
                    STEPS as nat,
                ) == narrowed(
                    look,
                    a as int,
                    b as int,
                    canon@,
                    lo_is_canon,
                    (STEPS - k) as nat,
                ),
        decreases STEPS - k,
    {
        let mid: i64 = midpoint(a, b);
        let tiles = classifier(mid);
        let found = rects(&tiles);
        let ghost (a0, b0, left) = (a, b, (STEPS - k) as nat);
        if same_layout(found.as_slice(), canon) == lo_is_canon {
            a = mid;
        } else {
            b = mid;
        }
        k = k + 1;
        assert forall|look: spec_fn(int) -> Seq<Rect>| #[trigger]
            describes(*classifier, look) implies (a as int, b as int) == halved(
            look,
            a0 as int,
            b0 as int,
            canon@,
            lo_is_canon,
        ) by {
            assert(found@ == look(mid as int));
        }
        if (b as i128) - (a as i128) < SETTLED {
            return midpoint(a, b);
        }
    }
    midpoint(a, b)
}

proof fn lemma_narrowed(
    look: spec_fn(int) -> Seq<Rect>,
    lo: int,
    hi: int,
    canon: Seq<Rect>,
    lo_is_canon: bool,
    change: int,
    steps: nat,
)
    requires
        lo < change <= hi,
        forall|t: int|
            lo <= t <= hi ==> (is_same_layout(#[trigger] look(t), canon) == lo_is_canon) == (t
                < change),
    ensures
        ({
            let (a, b) = narrowed(look, lo, hi, canon, lo_is_canon, steps);
            &&& lo <= a < change <= b <= hi
            &&& b - a < SETTLED || (b - a) * pow2(steps) <= hi - lo + pow2(steps) - 1
        }),
    decreases steps,
{
    if steps == 0 {
        lemma2_to64();
    } else {
        let (a, b) = halved(look, lo, hi, canon, lo_is_canon);
        let m = middle(lo, hi);
        assert((is_same_layout(look(m), canon) == lo_is_canon) == (m < change));
        assert(2 * (b - a) <= hi - lo + 1);
        lemma_pow2_unfold(steps);
        let half = pow2((steps - 1) as nat) as int;
        lemma_pow2_pos((steps - 1) as nat);
        if b - a >= SETTLED {
            lemma_narrowed(look, a, b, canon, lo_is_canon, change, (steps - 1) as nat);
            let (c, d) = narrowed(look, a, b, canon, lo_is_canon, (steps - 1) as nat);
            if d - c >= SETTLED {
                assert((d - c) * (2 * half) <= hi - lo + 2 * half - 1) by (nonlinear_arith)
                    requires
                        (d - c) * half <= b - a + half - 1,
                        2 * (b - a) <= hi - lo + 1,
                ;
            }
        }
    }
}

/// Where the layout changes exactly once between `lo` and `hi`, the boundary is at most a
/// quarter of a second away from the change, or a 128th of the gap (rounded up) if that
/// is more.
pub proof fn law_boundary_is_near_the_change(
    look: spec_fn(int) -> Seq<Rect>,
    lo: int,
    hi: int,
    canon: Seq<Rect>,
    lo_is_canon: bool,
    change: int,
)
    requires
        lo < change <= hi,
        forall|t: int|
            lo <= t <= hi ==> (is_same_layout(#[trigger] look(t), canon) == lo_is_canon) == (t
                < change),
    ensures
        ({
            let r = boundary(look, lo, hi, canon, lo_is_canon);
            let far = if r < change {
                change - r
            } else {
                r - change
            };
            &&& lo <= r <= hi
            &&& 2 * far <= SETTLED || 128 * far <= hi - lo + 127
        }),
{
    if hi - lo >= NARROW {
        lemma_narrowed(look, lo, hi, canon, lo_is_canon, change, STEPS as nat);
        lemma2_to64();
    }
}

/// The middle of a gap is as far from either end, to the nanosecond, and a gap below a quarter
/// of a second is not searched: the change counts as there.
pub proof fn law_narrow_gap(
    look: spec_fn(int) -> Seq<Rect>,
    lo: int,
    hi: int,
    canon: Seq<Rect>,
    lo_is_canon: bool,
)
    ensures
        0 <= lo + hi - 2 * middle(lo, hi) <= 1,
        4 * (hi - lo) < 1_000_000_000 ==> 0 <= lo + hi - 2 * boundary(
            look,
            lo,
            hi,
            canon,
            lo_is_canon,
        ) <= 1,
{
}

/// One of the rectangles shares more with `r` than a third of what the two have in all, which
/// is more than half of what they cover together.
pub open spec fn has_twin(r: Rect, rects: Seq<Rect>) -> bool {
    exists|j: int|
        0 <= j < rects.len() && 3 * r.overlap(#[trigger] rects[j]) > r.w * r.h + rects[j].w
            * rects[j].h
}

/// Two frames have the same layout if they have as many tiles and each tile of either has a
/// twin on the other.
pub proof fn law_same_layout(a: Seq<Rect>, b: Seq<Rect>)
    ensures
        is_same_layout(a, b) <==> a.len() == b.len() && (forall|i: int|
            0 <= i < a.len() ==> has_twin(#[trigger] a[i], b)) && (forall|i: int|
            0 <= i < b.len() ==> has_twin(#[trigger] b[i], a)),
{
    assert forall|r: Rect, s: Seq<Rect>| #[trigger] has_twin(r, s) == has_match(r, s) by {
        if has_twin(r, s) {
            let j = choose|j: int|
                0 <= j < s.len() && 3 * r.overlap(#[trigger] s[j]) > r.w * r.h + s[j].w * s[j].h;
            assert(r.same_place(s[j]));
        }
        if has_match(r, s) {
            let j = choose|j: int| 0 <= j < s.len() && r.same_place(#[trigger] s[j]);
            assert(3 * r.overlap(s[j]) > r.w * r.h + s[j].w * s[j].h);
        }
    }
    if is_same_layout(a, b) {
        assert forall|i: int| 0 <= i < a.len() implies has_twin(#[trigger] a[i], b) by {
            assert(has_match(a[i], b));
        }
        assert forall|i: int| 0 <= i < b.len() implies has_twin(#[trigger] b[i], a) by {
            assert(has_match(b[i], a));
        }
    }
    if (forall|i: int| 0 <= i < a.len() ==> has_twin(#[trigger] a[i], b)) && (forall|i: int|
        0 <= i < b.len() ==> has_twin(#[trigger] b[i], a)) {
        assert forall|i: int| 0 <= i < a.len() implies has_match(#[trigger] a[i], b) by {
            assert(has_twin(a[i], b));
        }
        assert forall|i: int| 0 <= i < b.len() implies has_match(#[trigger] b[i], a) by {
            assert(has_twin(b[i], a));
        }
    }
}

} // verus!
