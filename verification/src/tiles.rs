//! Where the participants' feeds sit in a frame.
//!
//! Feeds are composited on a near-black background, so they are the bright regions and
//! the black gaps between them are the borders. A fixed floor just above black tells
//! the two apart; a global threshold could split inside a darker feed. The brand-blue
//! overlays sit flush against the feeds and are masked out by colour. What is left over
//! (name bars, corner graphics) goes by aspect ratio and area.
//!
//! The background has to be dark: a bright branded one would need another split.
use vstd::prelude::*;

use crate::colour::{content, is_content};
use crate::components::{boxes_of, component_boxes};
use crate::frame::PpmFrame;
use crate::geometry::{max_int, Rect};
use crate::order::{is_ascending, lemma_order_of, lemma_sorted_by, lemma_sorted_by_all, sorted_by, sorted_positions};

verus! {

/// Which cells of the frame's grid show a feed.
pub open spec fn content_mask(f: PpmFrame) -> Seq<bool> {
    Seq::new((f.width * f.height) as nat, |k: int| is_content(f.pixels@[k]))
}

/// Aspect ratio strictly between 2:5 and 13:5, and at least 1.5% of the frame.
pub open spec fn is_plausible(r: Rect, width: int, height: int) -> bool {
    &&& 2 * r.h < 5 * r.w < 13 * r.h
    &&& 200 * r.spec_area() >= 3 * (width * height)
}

/// Largest first.
pub open spec fn by_area() -> spec_fn(Rect) -> int {
    |r: Rect| -r.spec_area()
}

/// Some larger rectangle of `kept` takes the same place as `r` or holds most of it.
pub open spec fn is_hidden(kept: Seq<Rect>, r: Rect) -> bool {
    exists|j: int|
        0 <= j < kept.len() && (#[trigger] kept[j]).spec_area() > r.spec_area() && (r.same_place(
            kept[j],
        ) || r.mostly_inside(kept[j]))
}

/// What is kept of the first `n` candidates: each one that nothing kept before it
/// hides, until `max` are kept.
pub open spec fn select(s: Seq<Rect>, n: int, max: int) -> Seq<Rect>
    decreases n,
{
    if n <= 0 {
        Seq::empty()
    } else {
        let kept = select(s, n - 1, max);
        if kept.len() >= max || is_hidden(kept, s[n - 1]) {
            kept
        } else {
            kept.push(s[n - 1])
        }
    }
}

/// The plausible feed boxes of a frame, largest first.
pub open spec fn candidates(f: PpmFrame) -> Seq<Rect> {
    sorted_by(
        boxes_of(content_mask(f), f.width as int).filter(
            |r: Rect| is_plausible(r, f.width as int, f.height as int),
        ),
        by_area(),
    )
}

/// The tiles of a frame, at most `max` of them.
pub open spec fn tiles_of(f: PpmFrame, max: int) -> Seq<Rect> {
    select(candidates(f), candidates(f).len() as int, max)
}

/// The rectangle lies on a `width` by `height` grid.
pub open spec fn lies_in(r: Rect, width: int, height: int) -> bool {
    r.x + r.w <= width && r.y + r.h <= height
}

proof fn lemma_select_shape(s: Seq<Rect>, n: int, max: int)
    requires
        0 <= n <= s.len(),
        max >= 0,
        is_ascending(s, by_area()),
    ensures
        select(s, n, max).len() <= n,
        select(s, n, max).len() <= max,
        forall|k: int|
            0 <= k < select(s, n, max).len() ==> exists|j: int|
                0 <= j < n && #[trigger] select(s, n, max)[k] == s[j],
        is_ascending(select(s, n, max), by_area()),
        forall|i: int, j: int|
            0 <= i < select(s, n, max).len() && 0 <= j < select(s, n, max).len()
                && select(s, n, max)[i].spec_area() > select(s, n, max)[j].spec_area() ==> !(
            #[trigger] select(s, n, max)[j]).same_place(#[trigger] select(s, n, max)[i])
                && !select(s, n, max)[j].mostly_inside(select(s, n, max)[i]),
    decreases n,
{
    if n > 0 {
        lemma_select_shape(s, n - 1, max);
        let kept = select(s, n - 1, max);
        let out = select(s, n, max);
        assert forall|k: int| 0 <= k < out.len() implies exists|j: int|
            0 <= j < n && #[trigger] out[k] == s[j] by {
            if k < kept.len() {
                let j = choose|j: int| 0 <= j < n - 1 && kept[k] == s[j];
                assert(out[k] == s[j]);
            } else {
                assert(out[k] == s[n - 1]);
            }
        }
        assert forall|i: int, j: int| 0 <= i <= j < out.len() implies by_area()(#[trigger] out[i])
            <= by_area()(#[trigger] out[j]) by {
            if j < kept.len() {
                assert(out[i] == kept[i] && out[j] == kept[j]);
            } else if i < kept.len() {
                let a = choose|a: int| 0 <= a < n - 1 && kept[i] == s[a];
                assert(by_area()(s[a]) <= by_area()(s[n - 1]));
            }
        }
        assert forall|i: int, j: int|
            0 <= i < out.len() && 0 <= j < out.len() && out[i].spec_area()
                > out[j].spec_area() implies !(#[trigger] out[j]).same_place(#[trigger] out[i])
            && !out[j].mostly_inside(out[i]) by {
            if i < kept.len() && j < kept.len() {
                assert(out[i] == kept[i] && out[j] == kept[j]);
            } else if j == kept.len() && i < kept.len() {
                assert(out[i] == kept[i]);
            } else if i == kept.len() && j < kept.len() {
                assert(by_area()(out[j]) <= by_area()(out[i]));
            }
        }
    }
}

/// Find the tiles in a frame, largest first. Boxes that repeat a larger kept box, or
/// lie mostly inside one (clutter within a feed, not a window of its own), are dropped.
/// At most `max_tiles` are returned.
pub fn detect_tiles(frame: &PpmFrame, max_tiles: usize) -> (r: Vec<Rect>)
    requires
        frame.wf(),
    ensures
        r@ == tiles_of(*frame, max_tiles as int),
        r@.len() <= max_tiles,
        forall|k: int|
            0 <= k < r@.len() ==> lies_in(
                #[trigger] r@[k],
                frame.width as int,
                frame.height as int,
            ) && is_plausible(r@[k], frame.width as int, frame.height as int),
        forall|i: int, j: int|
            0 <= i <= j < r@.len() ==> (#[trigger] r@[i]).spec_area() >= (
            #[trigger] r@[j]).spec_area(),
        forall|i: int, j: int|
            0 <= i < r@.len() && 0 <= j < r@.len() && r@[i].spec_area() > r@[j].spec_area() ==> !(
            #[trigger] r@[j]).same_place(#[trigger] r@[i]) && !r@[j].mostly_inside(r@[i]),
{
    let (w, h) = (frame.width, frame.height);
    let ghost (wi, hi) = (w as int, h as int);
    assert(0 <= w * h <= 0xffff_ffff * 0xffff_ffff) by (nonlinear_arith)
        requires
            0 <= w <= 0xffff_ffff,
            0 <= h <= 0xffff_ffff,
    ;
    let cells: u64 = w as u64 * h as u64;
    assert(frame.pixels.len() == frame.pixels@.len());
    let n: usize = cells as usize;
    let mut mask: Vec<bool> = Vec::new();
    let mut k: usize = 0;
    while k < n
        invariant
            k <= n,
            n == w * h,
            w == frame.width,
            h == frame.height,
            frame.wf(),
            mask@.len() == k,
            forall|j: int| 0 <= j < k ==> #[trigger] mask@[j] == is_content(frame.pixels@[j]),
        decreases n - k,
    {
        mask.push(content(&frame.pixels[k]));
        k = k + 1;
    }
    assert(mask@ =~= content_mask(*frame));
    let boxes = component_boxes(&mask, w, h);
    let ghost ok = |r: Rect| is_plausible(r, wi, hi);
    let mut rects: Vec<Rect> = Vec::new();
    let mut keys: Vec<i128> = Vec::new();
    let mut b: usize = 0;
    while b < boxes.len()
        invariant
            b <= boxes@.len(),
            wi == w,
            hi == h,
            cells == w * h,
            ok == (|r: Rect| is_plausible(r, wi, hi)),
            rects@ == boxes@.take(b as int).filter(ok),
            keys@.len() == rects@.len(),
            forall|j: int| 0 <= j < keys@.len() ==> #[trigger] keys@[j] == by_area()(rects@[j]),
            forall|j: int|
                0 <= j < boxes@.len() ==> lies_in(#[trigger] boxes@[j], wi, hi),
            forall|j: int|
                0 <= j < rects@.len() ==> lies_in(#[trigger] rects@[j], wi, hi) && is_plausible(
                    rects@[j],
                    wi,
                    hi,
                ),
        decreases boxes@.len() - b,
    {
        let r = boxes[b];
        let a: u64 = r.area();
        proof {
            let t = boxes@.take(b + 1);
            assert(t.drop_last() =~= boxes@.take(b as int));
            assert(t.last() == r);
            reveal(Seq::filter);
        }
        let (rw, rh) = (r.w as u64, r.h as u64);
        if 2 * rh < 5 * rw && 5 * rw < 13 * rh && 200 * a as u128 >= 3 * cells as u128 {
            rects.push(r);
            keys.push(-(a as i128));
        }
        b = b + 1;
    }
    assert(boxes@.take(b as int) =~= boxes@);
    let order = sorted_positions(&keys);
    let ghost s = candidates(*frame);
    proof {
        let len = rects.len();
        lemma_order_of(rects@, keys@, by_area());
        lemma_sorted_by(rects@, by_area());
        lemma_sorted_by_all(
            rects@,
            by_area(),
            |r: Rect| lies_in(r, wi, hi) && is_plausible(r, wi, hi),
        );
        assert forall|j: int| 0 <= j < s.len() implies lies_in(#[trigger] s[j], wi, hi)
            && is_plausible(s[j], wi, hi) by {
            assert((|r: Rect| lies_in(r, wi, hi) && is_plausible(r, wi, hi))(s[j]));
        }
    }
    let mut out: Vec<Rect> = Vec::new();
    let mut i: usize = 0;
    let mut full: bool = max_tiles == 0;
    while i < order.len() && !full
        invariant
            i <= order@.len(),
            order@.len() == s.len(),
            rects@.len() == s.len(),
            forall|j: int|
                0 <= j < s.len() ==> #[trigger] order@[j] < s.len() && rects@[order@[j] as int]
                    == s[j],
            forall|j: int| 0 <= j < s.len() ==> lies_in(#[trigger] s[j], wi, hi),
            wi == w,
            hi == h,
            out@ == select(s, i as int, max_tiles as int),
            full == (out@.len() >= max_tiles),
            forall|j: int| 0 <= j < out@.len() ==> lies_in(#[trigger] out@[j], wi, hi),
        decreases order@.len() - i,
    {
        let r = rects[order[i]];
        assert(r == s[i as int]);
        let ra: u64 = r.area();
        let mut hidden: bool = false;
        let mut j: usize = 0;
        while j < out.len() && !hidden
            invariant
                j <= out@.len(),
                ra == r.spec_area(),
                lies_in(r, wi, hi),
                wi == w,
                hi == h,
                forall|j: int| 0 <= j < out@.len() ==> lies_in(#[trigger] out@[j], wi, hi),
                hidden ==> is_hidden(out@, r),
                !hidden ==> forall|k: int|
                    0 <= k < j ==> !((#[trigger] out@[k]).spec_area() > r.spec_area() && (
                    r.same_place(out@[k]) || r.mostly_inside(out@[k]))),
            decreases out@.len() - j,
        {
            let kept = out[j];
            assert(lies_in(out@[j as int], wi, hi));
            if kept.area() > ra && (r.is_same_place(&kept) || r.is_mostly_inside(&kept)) {
                hidden = true;
            }
            j = j + 1;
        }
        if !hidden {
            out.push(r);
            if out.len() == max_tiles {
                full = true;
            }
        }
        i = i + 1;
    }
    proof {
        if full {
            lemma_select_full(s, i as int, s.len() as int, max_tiles as int);
        }
        lemma_select_shape(s, s.len() as int, max_tiles as int);
        assert forall|k: int| 0 <= k < out@.len() implies lies_in(#[trigger] out@[k], wi, hi)
            && is_plausible(out@[k], wi, hi) by {
            let j = choose|j: int| 0 <= j < s.len() && out@[k] == s[j];
            assert(lies_in(s[j], wi, hi));
        }
        assert forall|i: int, j: int| 0 <= i <= j < out@.len() implies (
        #[trigger] out@[i]).spec_area() >= (#[trigger] out@[j]).spec_area() by {
            assert(by_area()(out@[i]) <= by_area()(out@[j]));
        }
    }
    out
}

/// The tiles of a frame that may show one of so many participants: at most one for each,
/// but the largest one even if there are none.
pub fn participant_tiles(frame: &PpmFrame, participants: usize) -> (r: Vec<Rect>)
    requires
        frame.wf(),
    ensures
        r@ == tiles_of(*frame, max_int(participants as int, 1)),
        forall|k: int|
            0 <= k < r@.len() ==> lies_in(
                #[trigger] r@[k],
                frame.width as int,
                frame.height as int,
            ),
{
    detect_tiles(frame, if participants > 1 { participants } else { 1 })
}

/// Once the limit is reached nothing more is kept.
proof fn lemma_select_full(s: Seq<Rect>, i: int, n: int, max: int)
    requires
        0 <= i <= n,
        select(s, i, max).len() >= max,
    ensures
        select(s, n, max) == select(s, i, max),
    decreases n,
{
    if i < n {
        lemma_select_full(s, i, n - 1, max);
    }
}

/// A box is plausible if it is less than 2.6 times as wide as it is high, more than 0.4 times,
/// and covers 1.5 hundredths of the frame or more.
pub proof fn law_plausible(r: Rect, width: int, height: int)
    ensures
        is_plausible(r, width, height) <==> 10 * r.w < 26 * r.h && 10 * r.w > 4 * r.h && 1000 * (r.w
            * r.h) >= 15 * (width * height),
{
}

/// The candidates are the bounding boxes of the regions of feed pixels that are plausible:
/// all of them and no others, the largest first. A cell belongs to such a region if its pixel
/// is brighter than 20 and not the brand's blue.
pub proof fn law_candidates(f: PpmFrame, r: Rect, k: int)
    requires
        0 <= k < f.width * f.height,
    ensures
        candidates(f).contains(r) <==> boxes_of(content_mask(f), f.width as int).contains(r) && 10
            * r.w < 26 * r.h && 10 * r.w > 4 * r.h && 1000 * (r.w * r.h) >= 15 * (f.width
            * f.height),
        forall|i: int, j: int|
            0 <= i <= j < candidates(f).len() ==> (#[trigger] candidates(f)[i]).w
                * candidates(f)[i].h >= (#[trigger] candidates(f)[j]).w * candidates(f)[j].h,
        content_mask(f).len() == f.width * f.height,
        ({
            let p = f.pixels@[k]@;
            content_mask(f)[k] <==> 299 * p[0] + 587 * p[1] + 114 * p[2] > 20_000 && !(p[2] > 120
                && p[2] - p[0] > 40 && p[2] - p[1] > 20)
        }),
{
    broadcast use vstd::seq_lib::group_to_multiset_ensures;

    let (w, h) = (f.width as int, f.height as int);
    let boxes = boxes_of(content_mask(f), w);
    let ok = |r: Rect| is_plausible(r, w, h);
    let kept = boxes.filter(ok);
    let s = candidates(f);
    lemma_sorted_by(kept, by_area());
    law_plausible(r, w, h);
    if s.contains(r) {
        assert(s.to_multiset().contains(r));
        assert(kept.to_multiset().contains(r));
        assert(kept.contains(r));
        boxes.lemma_filter_contains_rev(ok, r);
        let i = choose|i: int| 0 <= i < kept.len() && kept[i] == r;
        boxes.lemma_filter_pred(ok, i);
    }
    if boxes.contains(r) && ok(r) {
        let i = choose|i: int| 0 <= i < boxes.len() && boxes[i] == r;
        boxes.lemma_filter_contains(ok, i);
        assert(kept.to_multiset().contains(r));
        assert(s.to_multiset().contains(r));
    }
    assert forall|i: int, j: int| 0 <= i <= j < s.len() implies (#[trigger] s[i]).w * s[i].h >= (
    #[trigger] s[j]).w * s[j].h by {
        assert(by_area()(s[i]) <= by_area()(s[j]));
    }
}

proof fn lemma_select_all(s: Seq<Rect>, n: int, max: int, j: int)
    requires
        0 <= j < n <= s.len(),
    ensures
        select(s, n, max).contains(s[j]) || select(s, n, max).len() >= max || is_hidden(
            select(s, n, max),
            s[j],
        ),
    decreases n,
{
    let kept = select(s, n - 1, max);
    let out = select(s, n, max);
    if j < n - 1 {
        lemma_select_all(s, n - 1, max, j);
        if kept.contains(s[j]) {
            let k = choose|k: int| 0 <= k < kept.len() && kept[k] == s[j];
            assert(out[k] == s[j]);
        } else if is_hidden(kept, s[j]) {
            let r = s[j];
            let k = choose|k: int|
                0 <= k < kept.len() && (#[trigger] kept[k]).spec_area() > r.spec_area() && (
                r.same_place(kept[k]) || r.mostly_inside(kept[k]));
            assert(out[k] == kept[k]);
            assert(is_hidden(out, r));
        }
    } else if kept.len() < max && !is_hidden(kept, s[j]) {
        assert(out[out.len() - 1] == s[j]);
    }
}

/// No candidate is left out without a reason: it is a tile, or as many tiles as asked for were
/// found, or a larger tile takes its place or holds more than seven tenths of it. Every tile
/// is a candidate.
pub proof fn law_no_tile_is_missed(f: PpmFrame, max: int, r: Rect)
    requires
        max >= 0,
    ensures
        candidates(f).contains(r) ==> tiles_of(f, max).contains(r) || tiles_of(f, max).len() == max
            || exists|k: int|
            0 <= k < tiles_of(f, max).len() && {
                let t = #[trigger] tiles_of(f, max)[k];
                t.w * t.h > r.w * r.h && (3 * r.overlap(t) > r.w * r.h + t.w * t.h || 10
                    * r.overlap(t) > 7 * (r.w * r.h))
            },
        tiles_of(f, max).contains(r) ==> candidates(f).contains(r),
{
    let s = candidates(f);
    let n = s.len() as int;
    let out = tiles_of(f, max);
    lemma_sorted_by(
        boxes_of(content_mask(f), f.width as int).filter(
            |r: Rect| is_plausible(r, f.width as int, f.height as int),
        ),
        by_area(),
    );
    lemma_select_shape(s, n, max);
    if s.contains(r) {
        let j = choose|j: int| 0 <= j < s.len() && s[j] == r;
        lemma_select_all(s, n, max, j);
        if is_hidden(out, r) {
            let k = choose|k: int|
                0 <= k < out.len() && (#[trigger] out[k]).spec_area() > r.spec_area() && (
                r.same_place(out[k]) || r.mostly_inside(out[k]));
            let t = out[k];
            assert(t.w * t.h > r.w * r.h && (3 * r.overlap(t) > r.w * r.h + t.w * t.h || 10
                * r.overlap(t) > 7 * (r.w * r.h)));
        }
    }
    if out.contains(r) {
        let k = choose|k: int| 0 <= k < out.len() && out[k] == r;
        let j = choose|j: int| 0 <= j < n && out[k] == s[j];
        assert(s[j] == r);
    }
}

} // verus!
