//! When each layout begins and ends, and who sits where while it lasts.
//!
//! Consecutive samples with the same tiles form a run. Whom a box shows is decided by the
//! evidence of the whole run, so a mistake in one frame does not count. The moment at
//! which a run begins is searched for by halving the gap between it and the run before.
use vstd::prelude::*;

use crate::geometry::Rect;
use crate::layout::{
    all_fit, bisect_boundary, boundary, describes, has_match, is_same_layout, is_usable,
    law_boundary_is_near_the_change, law_same_layout_is_reflexive, middle, rects, rects_of, same_layout, NARROW,
};
use crate::matching::{at_least_one, TileScore};
use crate::model::{LayoutTimeline, SpatialSegment};
use crate::order::{
    is_ascending, lemma_order_of, lemma_sorted_by, lemma_sorted_by_all, sorted_by, sorted_positions,
};

verus! {

/// A sampled moment and the tiles seen at it.
pub struct Seen {
    pub time: int,
    pub tiles: Seq<TileScore>,
}

pub open spec fn seen(s: (i64, Vec<TileScore>)) -> Seen {
    Seen { time: s.0 as int, tiles: s.1@ }
}

pub open spec fn all_seen(s: Seq<(i64, Vec<TileScore>)>) -> Seq<Seen> {
    s.map_values(|x: (i64, Vec<TileScore>)| seen(x))
}

pub open spec fn by_time() -> spec_fn(Seen) -> int {
    |s: Seen| s.time
}

/// A row of samples, from one position up to another.
#[derive(Clone, Copy)]
pub struct Run {
    pub from: usize,
    pub to: usize,
}

/// The first `n` samples as runs: one continues as long as a sample has the same layout
/// as the one before.
pub open spec fn runs_of(s: Seq<Seen>, n: int) -> Seq<Run>
    decreases n,
{
    if n <= 0 {
        Seq::empty()
    } else {
        let before = runs_of(s, n - 1);
        if n > 1 && is_same_layout(rects_of(s[n - 2].tiles), rects_of(s[n - 1].tiles)) {
            before.drop_last().push(Run { from: before.last().from, to: n as usize })
        } else {
            before.push(Run { from: (n - 1) as usize, to: n as usize })
        }
    }
}

/// At least two samples, and tiles in one of them. A single sample caught a layout in
/// the middle of a change, and a blank state has no feed to replace.
pub open spec fn is_layout(s: Seq<Seen>, r: Run) -> bool {
    &&& r.to - r.from >= 2
    &&& exists|k: int| r.from <= k < r.to && (#[trigger] s[k]).tiles.len() > 0
}

pub open spec fn layouts_of(s: Seq<Seen>) -> Seq<Run> {
    runs_of(s, s.len() as int).filter(|r: Run| is_layout(s, r))
}

/// The position in `from..to` of the sample with the most tiles, the last of several.
pub open spec fn fullest(s: Seq<Seen>, from: int, to: int) -> int
    decreases to - from,
{
    if to <= from + 1 {
        from
    } else {
        let p = fullest(s, from, to - 1);
        if s[to - 1].tiles.len() >= s[p].tiles.len() {
            to - 1
        } else {
            p
        }
    }
}

/// The boxes of a run: those of its most populated sample.
pub open spec fn canon_of(s: Seq<Seen>, r: Run) -> Seq<Rect> {
    rects_of(s[fullest(s, r.from as int, r.to as int)].tiles)
}

/// The runs follow one another within the first `n` samples and none is empty.
pub open spec fn are_runs(runs: Seq<Run>, n: int) -> bool {
    &&& forall|i: int| 0 <= i < runs.len() ==> (#[trigger] runs[i]).from < runs[i].to <= n
    &&& forall|i: int, j: int|
        0 <= i < j < runs.len() ==> (#[trigger] runs[i]).to <= (#[trigger] runs[j]).from
}

proof fn lemma_runs(s: Seq<Seen>, n: int)
    requires
        0 <= n <= s.len() <= usize::MAX,
    ensures
        are_runs(runs_of(s, n), n),
        n > 0 ==> runs_of(s, n).len() > 0 && runs_of(s, n).last().to == n,
    decreases n,
{
    if n > 0 {
        lemma_runs(s, n - 1);
        let before = runs_of(s, n - 1);
        let all = runs_of(s, n);
        let last = all.len() - 1;
        assert forall|i: int| 0 <= i < all.len() implies (#[trigger] all[i]).from < all[i].to
            <= n by {
            if i < last {
                assert(all[i] == before[i]);
            } else if n > 1 {
                assert(before[before.len() - 1].from < n);
            }
        }
        assert forall|i: int, j: int| 0 <= i < j < all.len() implies (#[trigger] all[i]).to <= (
        #[trigger] all[j]).from by {
            assert(all[i] == before[i]);
            if j < last {
                assert(all[j] == before[j]);
            } else if all.len() == before.len() {
                assert(all[j].from == before[j].from);
            }
        }
    }
}

proof fn lemma_filtered_runs(runs: Seq<Run>, keep: spec_fn(Run) -> bool, n: int)
    requires
        are_runs(runs, n),
    ensures
        are_runs(runs.filter(keep), n),
        forall|i: int|
            0 <= i < runs.filter(keep).len() ==> keep(#[trigger] runs.filter(keep)[i])
                && runs.filter(keep)[i].to <= runs.last().to,
    decreases runs.len(),
{
    reveal(Seq::filter);
    if runs.len() > 0 {
        let t = runs.drop_last();
        let all = runs.filter(keep);
        let before = t.filter(keep);
        assert forall|i: int| 0 <= i < t.len() implies (#[trigger] t[i]).from < t[i].to <= n by {
            assert(t[i] == runs[i]);
        }
        assert forall|i: int, j: int| 0 <= i < j < t.len() implies (#[trigger] t[i]).to <= (
        #[trigger] t[j]).from by {
            assert(t[i] == runs[i] && t[j] == runs[j]);
        }
        lemma_filtered_runs(t, keep, n);
        let last = runs[runs.len() - 1];
        if t.len() > 0 {
            assert(t.last() == runs[runs.len() - 2]);
            assert(t.last().to <= last.from);
        }
        assert forall|i: int| 0 <= i < before.len() implies (#[trigger] before[i]).to
            <= last.from by {
            assert(t.len() > 0);
        }
        assert forall|i: int| 0 <= i < all.len() implies keep(#[trigger] all[i]) && all[i].to
            <= last.to by {
            if i < before.len() {
                assert(all[i] == before[i]);
            }
        }
        assert forall|i: int| 0 <= i < all.len() implies (#[trigger] all[i]).from < all[i].to
            <= n by {
            if i < before.len() {
                assert(all[i] == before[i]);
            }
        }
        assert forall|i: int, j: int| 0 <= i < j < all.len() implies (#[trigger] all[i]).to <= (
        #[trigger] all[j]).from by {
            assert(all[i] == before[i]);
            if j < before.len() {
                assert(all[j] == before[j]);
            }
        }
    }
}

/// The runs that are layouts follow one another, and each has two samples or more.
pub proof fn lemma_layouts(s: Seq<Seen>)
    requires
        s.len() <= usize::MAX,
    ensures
        are_runs(layouts_of(s), s.len() as int),
        forall|i: int| 0 <= i < layouts_of(s).len() ==> is_layout(s, #[trigger] layouts_of(s)[i]),
{
    let keep = |r: Run| is_layout(s, r);
    lemma_runs(s, s.len() as int);
    lemma_filtered_runs(runs_of(s, s.len() as int), keep, s.len() as int);
    assert forall|i: int| 0 <= i < layouts_of(s).len() implies is_layout(
        s,
        #[trigger] layouts_of(s)[i],
    ) by {
        assert(keep(runs_of(s, s.len() as int).filter(keep)[i]));
    }
}

pub open spec fn tiles_fit(s: Seq<Seen>) -> bool {
    forall|i: int| 0 <= i < s.len() ==> all_fit(rects_of((#[trigger] s[i]).tiles))
}

fn copy_tiles(tiles: &Vec<TileScore>) -> (r: Vec<TileScore>)
    ensures
        r@ == tiles@,
{
    let mut out: Vec<TileScore> = Vec::new();
    let mut i: usize = 0;
    while i < tiles.len()
        invariant
            i <= tiles@.len(),
            out@ == tiles@.take(i as int),
        decreases tiles@.len() - i,
    {
        out.push(tiles[i].clone());
        assert(tiles@.take(i + 1) =~= tiles@.take(i as int).push(tiles@[i as int]));
        i = i + 1;
    }
    assert(tiles@.take(i as int) =~= tiles@);
    out
}

/// The samples in order of time.
fn sort_samples(coarse: &Vec<(i64, Vec<TileScore>)>) -> (r: Vec<(i64, Vec<TileScore>)>)
    ensures
        all_seen(r@) == sorted_by(all_seen(coarse@), by_time()),
{
    let n: usize = coarse.len();
    let ghost all = all_seen(coarse@);
    let mut keys: Vec<i128> = Vec::new();
    let mut i: usize = 0;
    while i < n
        invariant
            i <= n,
            n == coarse@.len(),
            all == all_seen(coarse@),
            keys@.len() == i,
            forall|j: int| 0 <= j < i ==> #[trigger] keys@[j] == by_time()(all[j]),
        decreases n - i,
    {
        keys.push(coarse[i].0 as i128);
        i = i + 1;
    }
    let order = sorted_positions(&keys);
    let ghost sorted = sorted_by(all, by_time());
    proof {
        lemma_order_of(all, keys@, by_time());
    }
    let mut out: Vec<(i64, Vec<TileScore>)> = Vec::new();
    let mut k: usize = 0;
    while k < n
        invariant
            k <= n,
            n == coarse@.len(),
            n == order@.len(),
            n == sorted.len(),
            all == all_seen(coarse@),
            forall|i: int| 0 <= i < n ==> #[trigger] order@[i] < n,
            sorted == order@.map_values(|i: usize| all[i as int]),
            out@.len() == k,
            all_seen(out@) == sorted.take(k as int),
        decreases n - k,
    {
        let at: usize = order[k];
        let tiles = copy_tiles(&coarse[at].1);
        let ghost before = out@;
        out.push((coarse[at].0, tiles));
        proof {
            assert(sorted[k as int] == seen(coarse@[at as int]));
            assert(seen(out@[k as int]) == sorted[k as int]);
            assert(all_seen(out@) =~= all_seen(before).push(seen(out@[k as int])));
            assert(sorted.take(k + 1) =~= sorted.take(k as int).push(sorted[k as int]));
        }
        k = k + 1;
    }
    assert(sorted.take(n as int) =~= sorted);
    out
}

/// Groups the samples into runs.
fn group(samples: &Vec<(i64, Vec<TileScore>)>) -> (r: Vec<Run>)
    requires
        tiles_fit(all_seen(samples@)),
    ensures
        r@ == runs_of(all_seen(samples@), samples@.len() as int),
{
    let n: usize = samples.len();
    let ghost s = all_seen(samples@);
    let mut out: Vec<Run> = Vec::new();
    let mut i: usize = 0;
    while i < n
        invariant
            i <= n,
            n == samples@.len(),
            s == all_seen(samples@),
            tiles_fit(s),
            out@ == runs_of(s, i as int),
        decreases n - i,
    {
        proof {
            lemma_runs(s, i as int);
        }
        let mut joins = false;
        if i > 0 {
            let a = rects(&samples[i - 1].1);
            let b = rects(&samples[i].1);
            proof {
                assert(s[i - 1].tiles == samples@[i - 1].1@);
                assert(s[i as int].tiles == samples@[i as int].1@);
            }
            joins = same_layout(a.as_slice(), b.as_slice());
        }
        if joins {
            let last: usize = out.len() - 1;
            let from: usize = out[last].from;
            let ghost before = out@;
            out.set(last, Run { from, to: i + 1 });
            assert(out@ =~= before.drop_last().push(Run { from, to: (i + 1) as usize }));
        } else {
            out.push(Run { from: i, to: i + 1 });
        }
        i = i + 1;
    }
    out
}

fn layout(samples: &Vec<(i64, Vec<TileScore>)>, r: Run) -> (b: bool)
    requires
        r.from < r.to <= samples@.len(),
    ensures
        b == is_layout(all_seen(samples@), r),
{
    if r.to - r.from < 2 {
        return false;
    }
    let ghost s = all_seen(samples@);
    let mut k: usize = r.from;
    while k < r.to
        invariant
            r.from <= k <= r.to <= samples@.len(),
            s == all_seen(samples@),
            r.to - r.from >= 2,
            forall|j: int| r.from <= j < k ==> (#[trigger] s[j]).tiles.len() == 0,
        decreases r.to - k,
    {
        assert(s[k as int].tiles == samples@[k as int].1@);
        if samples[k].1.len() > 0 {
            return true;
        }
        k = k + 1;
    }
    false
}

fn keep_layouts(samples: &Vec<(i64, Vec<TileScore>)>, runs: &Vec<Run>) -> (r: Vec<Run>)
    requires
        are_runs(runs@, samples@.len() as int),
    ensures
        r@ == runs@.filter(|r: Run| is_layout(all_seen(samples@), r)),
{
    let ghost keep = |r: Run| is_layout(all_seen(samples@), r);
    let mut out: Vec<Run> = Vec::new();
    let mut i: usize = 0;
    assert(runs@.take(0).filter(keep) =~= Seq::<Run>::empty()) by {
        reveal(Seq::filter);
    }
    while i < runs.len()
        invariant
            i <= runs@.len(),
            are_runs(runs@, samples@.len() as int),
            keep == (|r: Run| is_layout(all_seen(samples@), r)),
            out@ == runs@.take(i as int).filter(keep),
        decreases runs@.len() - i,
    {
        proof {
            reveal(Seq::filter);
            assert(runs@.take(i + 1).drop_last() =~= runs@.take(i as int));
            assert(runs@.take(i + 1).last() == runs@[i as int]);
        }
        if layout(samples, runs[i]) {
            out.push(runs[i]);
        }
        i = i + 1;
    }
    assert(runs@.take(i as int) =~= runs@);
    out
}

/// The boxes of a run: those of its most populated sample.
fn canon_boxes(samples: &Vec<(i64, Vec<TileScore>)>, r: Run) -> (b: Vec<Rect>)
    requires
        r.from < r.to <= samples@.len(),
        tiles_fit(all_seen(samples@)),
    ensures
        b@ == canon_of(all_seen(samples@), r),
        all_fit(b@),
{
    let ghost s = all_seen(samples@);
    let mut best: usize = r.from;
    let mut k: usize = r.from + 1;
    while k < r.to
        invariant
            r.from < k <= r.to <= samples@.len(),
            r.from <= best < k,
            s == all_seen(samples@),
            best == fullest(s, r.from as int, k as int),
        decreases r.to - k,
    {
        proof {
            assert(s[k as int].tiles == samples@[k as int].1@);
            assert(s[best as int].tiles == samples@[best as int].1@);
        }
        if samples[k].1.len() >= samples[best].1.len() {
            best = k;
        }
        k = k + 1;
    }
    assert(s[best as int].tiles == samples@[best as int].1@);
    rects(&samples[best].1)
}

/// Where the search for the beginning of run `i` starts: the last sample of the run
/// before, or zero.
pub open spec fn gap_start(s: Seq<Seen>, runs: Seq<Run>, i: int) -> int {
    if i == 0 || s[runs[i - 1].to - 1].time < 0 {
        0
    } else {
        s[runs[i - 1].to - 1].time
    }
}

/// Where the search for the beginning of run `i` ends: its first sample.
pub open spec fn gap_end(s: Seq<Seen>, runs: Seq<Run>, i: int) -> int {
    s[runs[i].from as int].time
}

/// The moments at which the runs begin, and `duration` as the end of the last one. Run
/// `i` lasts from `bounds[i]` to `bounds[i + 1]`.
pub open spec fn bounds_of(
    look: spec_fn(int) -> Seq<Rect>,
    s: Seq<Seen>,
    runs: Seq<Run>,
    duration: int,
) -> Seq<int> {
    Seq::new(
        runs.len() + 1,
        |i: int|
            if i == runs.len() {
                duration
            } else {
                boundary(
                    look,
                    gap_start(s, runs, i),
                    gap_end(s, runs, i),
                    canon_of(s, runs[i]),
                    false,
                )
            },
    )
}

/// Each run begins in the gap before it, in the middle of a narrow one, and the last one
/// ends at `duration`.
pub open spec fn in_gaps(s: Seq<Seen>, runs: Seq<Run>, duration: int, bounds: Seq<int>) -> bool {
    &&& bounds.len() == runs.len() + 1
    &&& bounds[runs.len() as int] == duration
    &&& forall|i: int|
        0 <= i < runs.len() && gap_start(s, runs, i) <= gap_end(s, runs, i) ==> gap_start(
            s,
            runs,
            i,
        ) <= #[trigger] bounds[i] <= gap_end(s, runs, i)
    &&& forall|i: int|
        0 <= i < runs.len() && gap_end(s, runs, i) - gap_start(s, runs, i) < NARROW
            ==> #[trigger] bounds[i] == middle(gap_start(s, runs, i), gap_end(s, runs, i))
}

/// Moments that the classifier's answers lead to. The same answer for every question
/// about one moment leaves only one choice; other answers still keep the runs in their
/// gaps.
pub open spec fn are_bounds<F: Fn(i64) -> Vec<TileScore>>(
    classifier: F,
    s: Seq<Seen>,
    runs: Seq<Run>,
    duration: int,
    bounds: Seq<int>,
) -> bool {
    &&& in_gaps(s, runs, duration, bounds)
    &&& forall|look: spec_fn(int) -> Seq<Rect>| #[trigger]
        describes(classifier, look) ==> bounds == bounds_of(look, s, runs, duration)
}

pub open spec fn ints(v: Seq<i64>) -> Seq<int> {
    v.map_values(|x: i64| x as int)
}

fn find_bounds<F: Fn(i64) -> Vec<TileScore>>(
    samples: &Vec<(i64, Vec<TileScore>)>,
    runs: &Vec<Run>,
    classifier: &F,
    duration: i64,
) -> (r: Vec<i64>)
    requires
        is_usable(*classifier),
        tiles_fit(all_seen(samples@)),
        are_runs(runs@, samples@.len() as int),
    ensures
        are_bounds(*classifier, all_seen(samples@), runs@, duration as int, ints(r@)),
{
    let ghost s = all_seen(samples@);
    let mut out: Vec<i64> = Vec::new();
    let mut i: usize = 0;
    while i < runs.len()
        invariant
            i <= runs@.len(),
            s == all_seen(samples@),
            is_usable(*classifier),
            tiles_fit(s),
            are_runs(runs@, samples@.len() as int),
            out@.len() == i,
            forall|k: int|
                0 <= k < i && gap_start(s, runs@, k) <= gap_end(s, runs@, k) ==> gap_start(
                    s,
                    runs@,
                    k,
                ) <= #[trigger] out@[k] <= gap_end(s, runs@, k),
            forall|k: int|
                0 <= k < i && gap_end(s, runs@, k) - gap_start(s, runs@, k) < NARROW
                    ==> #[trigger] out@[k] == middle(gap_start(s, runs@, k), gap_end(s, runs@, k)),
            forall|look: spec_fn(int) -> Seq<Rect>, k: int|
                0 <= k < i && describes(*classifier, look) ==> #[trigger] bounds_of(
                    look,
                    s,
                    runs@,
                    duration as int,
                )[k] == out@[k],
        decreases runs@.len() - i,
    {
        let run: Run = runs[i];
        let canon = canon_boxes(samples, run);
        let hi: i64 = samples[run.from].0;
        let mut lo: i64 = 0;
        assert(s[run.from as int].time == samples@[run.from as int].0);
        if i > 0 {
            let prev: Run = runs[i - 1];
            assert(prev == runs@[i - 1]);
            let t: i64 = samples[prev.to - 1].0;
            assert(s[prev.to - 1].time == samples@[prev.to - 1].0);
            if t > 0 {
                lo = t;
            }
        }
        assert(lo == gap_start(s, runs@, i as int));
        let b: i64 = bisect_boundary(classifier, lo, hi, canon.as_slice(), false);
        out.push(b);
        i = i + 1;
    }
    out.push(duration);
    proof {
        let bounds = ints(out@);
        assert forall|i: int|
            0 <= i < runs@.len() && gap_start(s, runs@, i) <= gap_end(s, runs@, i) implies gap_start(
            s,
            runs@,
            i,
        ) <= #[trigger] bounds[i] <= gap_end(s, runs@, i) by {
            assert(bounds[i] == out@[i]);
        }
        assert forall|i: int|
            0 <= i < runs@.len() && gap_end(s, runs@, i) - gap_start(s, runs@, i)
                < NARROW implies #[trigger] bounds[i] == middle(
            gap_start(s, runs@, i),
            gap_end(s, runs@, i),
        ) by {
            assert(bounds[i] == out@[i]);
        }
        assert forall|look: spec_fn(int) -> Seq<Rect>| #[trigger]
            describes(*classifier, look) implies bounds == bounds_of(
            look,
            s,
            runs@,
            duration as int,
        ) by {
            assert(bounds =~= bounds_of(look, s, runs@, duration as int));
        }
    }
    out
}

/// The tiles of samples `from..to` that take the place of `place`.
pub open spec fn evidence(s: Seq<Seen>, from: int, to: int, place: Rect) -> Seq<TileScore>
    decreases to - from,
{
    if to <= from {
        Seq::empty()
    } else {
        evidence(s, from, to - 1, place) + s[to - 1].tiles.filter(
            |t: TileScore| t.rect.same_place(place),
        )
    }
}

/// The summed similarity of the tiles that show `id`.
pub open spec fn support(tiles: Seq<TileScore>, id: Seq<char>) -> int
    decreases tiles.len(),
{
    if tiles.len() == 0 {
        0
    } else {
        support(tiles.drop_last(), id) + if tiles.last().participant_id@ == id {
            tiles.last().sim as int
        } else {
            0
        }
    }
}

/// Among the first `n` tiles, the position of the first whose participant has the
/// highest support of all `tiles`.
pub open spec fn leader(tiles: Seq<TileScore>, n: int) -> int
    decreases n,
{
    if n <= 1 {
        0
    } else {
        let p = leader(tiles, n - 1);
        if support(tiles, tiles[n - 1].participant_id@) > support(tiles, tiles[p].participant_id@) {
            n - 1
        } else {
            p
        }
    }
}

/// Nobody whom the tiles show has more support than the leader.
pub proof fn law_leader_has_most_support(tiles: Seq<TileScore>, n: int)
    requires
        0 < n <= tiles.len(),
    ensures
        0 <= leader(tiles, n) < n,
        forall|k: int|
            0 <= k < n ==> support(tiles, (#[trigger] tiles[k]).participant_id@) <= support(
                tiles,
                tiles[leader(tiles, n)].participant_id@,
            ),
    decreases n,
{
    if n > 1 {
        law_leader_has_most_support(tiles, n - 1);
    }
}

/// The sum over the tiles of `f` of their rectangle.
pub open spec fn total_of(tiles: Seq<TileScore>, f: spec_fn(Rect) -> int) -> int
    decreases tiles.len(),
{
    if tiles.len() == 0 {
        0
    } else {
        total_of(tiles.drop_last(), f) + f(tiles.last().rect)
    }
}

/// The mean over the tiles of `f` of their rectangle, to the nearest integer, halfway the
/// greater one.
pub open spec fn mean_of(tiles: Seq<TileScore>, f: spec_fn(Rect) -> int) -> int {
    (2 * total_of(tiles, f) + tiles.len() as int) / (2 * tiles.len() as int)
}

pub open spec fn column_of() -> spec_fn(Rect) -> int {
    |r: Rect| r.x as int
}

pub open spec fn row_of() -> spec_fn(Rect) -> int {
    |r: Rect| r.y as int
}

pub open spec fn width_of() -> spec_fn(Rect) -> int {
    |r: Rect| r.w as int
}

pub open spec fn height_of() -> spec_fn(Rect) -> int {
    |r: Rect| r.h as int
}

/// A segment over mathematical values.
pub struct Placement {
    pub start: int,
    pub end: int,
    pub id: Seq<char>,
    pub place: (int, int, int, int),
}

pub open spec fn placement(s: SpatialSegment) -> Placement {
    Placement {
        start: s.start_time as int,
        end: s.end_time as int,
        id: s.participant_id@,
        place: (
            s.bounding_box.0 as int,
            s.bounding_box.1 as int,
            s.bounding_box.2 as int,
            s.bounding_box.3 as int,
        ),
    }
}

pub open spec fn all_placements(s: Seq<SpatialSegment>) -> Seq<Placement> {
    s.map_values(|x: SpatialSegment| placement(x))
}

/// Who sits at a box, and where exactly: the participant with the most support, at the
/// mean of the places. Nobody if there is no evidence or the participant has no name.
pub open spec fn occupant(tiles: Seq<TileScore>, start: int, end: int) -> Option<Placement> {
    let id = tiles[leader(tiles, tiles.len() as int)].participant_id@;
    if tiles.len() == 0 || id.len() == 0 {
        None
    } else {
        Some(
            Placement {
                start,
                end,
                id,
                place: (
                    mean_of(tiles, column_of()),
                    mean_of(tiles, row_of()),
                    at_least_one(mean_of(tiles, width_of())),
                    at_least_one(mean_of(tiles, height_of())),
                ),
            },
        )
    }
}

/// The occupants of the first `n` boxes of a run.
pub open spec fn occupants(s: Seq<Seen>, r: Run, start: int, end: int, n: int) -> Seq<Placement>
    decreases n,
{
    if n <= 0 {
        Seq::empty()
    } else {
        let before = occupants(s, r, start, end, n - 1);
        match occupant(
            evidence(s, r.from as int, r.to as int, canon_of(s, r)[n - 1]),
            start,
            end,
        ) {
            Some(p) => before.push(p),
            None => before,
        }
    }
}

/// The occupants of the first `n` runs. A run without a duration has none.
pub open spec fn placements_of(s: Seq<Seen>, runs: Seq<Run>, bounds: Seq<int>, n: int) -> Seq<
    Placement,
>
    decreases n,
{
    if n <= 0 {
        Seq::empty()
    } else {
        let before = placements_of(s, runs, bounds, n - 1);
        if bounds[n] <= bounds[n - 1] {
            before
        } else {
            before + occupants(
                s,
                runs[n - 1],
                bounds[n - 1],
                bounds[n],
                canon_of(s, runs[n - 1]).len() as int,
            )
        }
    }
}

pub open spec fn by_start() -> spec_fn(Placement) -> int {
    |p: Placement| p.start
}

fn gather(samples: &Vec<(i64, Vec<TileScore>)>, r: Run, place: &Rect) -> (out: Vec<TileScore>)
    requires
        r.from < r.to <= samples@.len(),
        tiles_fit(all_seen(samples@)),
        place.fits(),
    ensures
        out@ == evidence(all_seen(samples@), r.from as int, r.to as int, *place),
{
    let ghost s = all_seen(samples@);
    let ghost near = |t: TileScore| t.rect.same_place(*place);
    let mut out: Vec<TileScore> = Vec::new();
    let mut k: usize = r.from;
    while k < r.to
        invariant
            r.from <= k <= r.to <= samples@.len(),
            s == all_seen(samples@),
            tiles_fit(s),
            place.fits(),
            near == (|t: TileScore| t.rect.same_place(*place)),
            out@ == evidence(s, r.from as int, k as int, *place),
        decreases r.to - k,
    {
        let tiles = &samples[k].1;
        let ghost before = out@;
        proof {
            assert(s[k as int].tiles == tiles@);
            reveal(Seq::filter);
            assert(tiles@.take(0).filter(near) =~= Seq::<TileScore>::empty());
            assert(before + tiles@.take(0).filter(near) =~= before);
        }
        let mut i: usize = 0;
        while i < tiles.len()
            invariant
                i <= tiles@.len(),
                place.fits(),
                all_fit(rects_of(tiles@)),
                near == (|t: TileScore| t.rect.same_place(*place)),
                out@ == before + tiles@.take(i as int).filter(near),
            decreases tiles@.len() - i,
        {
            proof {
                reveal(Seq::filter);
                assert(rects_of(tiles@)[i as int] == tiles@[i as int].rect);
                assert(tiles@.take(i + 1).drop_last() =~= tiles@.take(i as int));
                assert(tiles@.take(i + 1).last() == tiles@[i as int]);
            }
            if tiles[i].rect.is_same_place(place) {
                let ghost so_far = out@;
                out.push(tiles[i].clone());
                assert(out@ =~= so_far.push(tiles@[i as int]));
            }
            i = i + 1;
        }
        assert(tiles@.take(i as int) =~= tiles@);
        k = k + 1;
    }
    out
}

fn support_of(tiles: &Vec<TileScore>, id: &String) -> (r: u128)
    ensures
        r == support(tiles@, id@),
{
    let n: usize = tiles.len();
    let mut sum: u128 = 0;
    let mut i: usize = 0;
    while i < n
        invariant
            i <= n,
            n == tiles@.len(),
            sum == support(tiles@.take(i as int), id@),
            sum <= i * 0xffff_ffff_ffff_ffff,
        decreases n - i,
    {
        proof {
            assert(tiles@.take(i + 1).drop_last() =~= tiles@.take(i as int));
            assert(tiles@.take(i + 1).last() == tiles@[i as int]);
        }
        if tiles[i].participant_id == *id {
            sum = sum + tiles[i].sim as u128;
        }
        i = i + 1;
    }
    assert(tiles@.take(i as int) =~= tiles@);
    sum
}

fn find_leader(tiles: &Vec<TileScore>) -> (r: usize)
    requires
        tiles@.len() > 0,
    ensures
        r == leader(tiles@, tiles@.len() as int),
        r < tiles@.len(),
{
    let mut best: usize = 0;
    let mut i: usize = 1;
    while i < tiles.len()
        invariant
            1 <= i <= tiles@.len(),
            best < i,
            best == leader(tiles@, i as int),
        decreases tiles@.len() - i,
    {
        if support_of(tiles, &tiles[i].participant_id) > support_of(
            tiles,
            &tiles[best].participant_id,
        ) {
            best = i;
        }
        i = i + 1;
    }
    best
}

proof fn lemma_mean(total: int, n: int)
    requires
        n > 0,
        0 <= total <= n * 0xffff_ffff,
    ensures
        0 <= (2 * total + n) / (2 * n) <= 0xffff_ffff,
{
    let q = (2 * total + n) / (2 * n);
    vstd::arithmetic::div_mod::lemma_fundamental_div_mod(2 * total + n, 2 * n);
    vstd::arithmetic::div_mod::lemma_mod_bound(2 * total + n, 2 * n);
    assert(q <= 0xffff_ffff) by (nonlinear_arith)
        requires
            (2 * n) * q <= 2 * total + n,
            total <= n * 0xffff_ffff,
            n > 0,
    ;
    assert(0 <= q) by (nonlinear_arith)
        requires
            (2 * n) * q > 2 * total + n - 2 * n,
            total >= 0,
            n > 0,
    ;
}

fn mean(total: u128, n: usize) -> (r: u32)
    requires
        n > 0,
        total <= n * 0xffff_ffff,
    ensures
        r == (2 * total + n) / (2 * n as int),
{
    proof {
        lemma_mean(total as int, n as int);
        assert(n * 0xffff_ffff <= 0xffff_ffff_ffff_ffff * 0xffff_ffff);
    }
    ((2 * total + n as u128) / (2 * n as u128)) as u32
}

/// The mean of the tiles' places.
fn mean_place(tiles: &Vec<TileScore>) -> (r: (u32, u32, u32, u32))
    requires
        tiles@.len() > 0,
    ensures
        r.0 == mean_of(tiles@, column_of()),
        r.1 == mean_of(tiles@, row_of()),
        r.2 == at_least_one(mean_of(tiles@, width_of())),
        r.3 == at_least_one(mean_of(tiles@, height_of())),
{
    let n: usize = tiles.len();
    let mut x: u128 = 0;
    let mut y: u128 = 0;
    let mut w: u128 = 0;
    let mut h: u128 = 0;
    let mut i: usize = 0;
    while i < n
        invariant
            i <= n,
            n == tiles@.len(),
            x == total_of(tiles@.take(i as int), column_of()),
            y == total_of(tiles@.take(i as int), row_of()),
            w == total_of(tiles@.take(i as int), width_of()),
            h == total_of(tiles@.take(i as int), height_of()),
            x <= i * 0xffff_ffff,
            y <= i * 0xffff_ffff,
            w <= i * 0xffff_ffff,
            h <= i * 0xffff_ffff,
        decreases n - i,
    {
        proof {
            assert(tiles@.take(i + 1).drop_last() =~= tiles@.take(i as int));
            assert(tiles@.take(i + 1).last() == tiles@[i as int]);
        }
        let r: Rect = tiles[i].rect;
        x = x + r.x as u128;
        y = y + r.y as u128;
        w = w + r.w as u128;
        h = h + r.h as u128;
        i = i + 1;
    }
    assert(tiles@.take(i as int) =~= tiles@);
    let mw: u32 = mean(w, n);
    let mh: u32 = mean(h, n);
    (mean(x, n), mean(y, n), if mw < 1 { 1 } else { mw }, if mh < 1 { 1 } else { mh })
}

/// Appends the occupants of a run.
fn push_occupants(
    out: &mut Vec<SpatialSegment>,
    samples: &Vec<(i64, Vec<TileScore>)>,
    r: Run,
    start: i64,
    end: i64,
)
    requires
        r.from < r.to <= samples@.len(),
        tiles_fit(all_seen(samples@)),
    ensures
        all_placements(final(out)@) == all_placements(old(out)@) + occupants(
            all_seen(samples@),
            r,
            start as int,
            end as int,
            canon_of(all_seen(samples@), r).len() as int,
        ),
{
    let ghost s = all_seen(samples@);
    let ghost before = all_placements(out@);
    let canon = canon_boxes(samples, r);
    let mut k: usize = 0;
    assert(before =~= before + occupants(s, r, start as int, end as int, 0));
    while k < canon.len()
        invariant
            k <= canon@.len(),
            r.from < r.to <= samples@.len(),
            s == all_seen(samples@),
            tiles_fit(s),
            canon@ == canon_of(s, r),
            all_fit(canon@),
            all_placements(out@) == before + occupants(s, r, start as int, end as int, k as int),
        decreases canon@.len() - k,
    {
        let found = gather(samples, r, &canon[k]);
        if found.len() > 0 {
            let best: usize = find_leader(&found);
            if !found[best].participant_id.as_str().is_empty() {
                let ghost so_far = out@;
                let seg = SpatialSegment {
                    start_time: start,
                    end_time: end,
                    participant_id: found[best].participant_id.clone(),
                    bounding_box: mean_place(&found),
                };
                out.push(seg);
                proof {
                    let all = occupants(s, r, start as int, end as int, k as int);
                    assert(occupant(found@, start as int, end as int) == Some(placement(seg)));
                    assert(all_placements(out@) =~= all_placements(so_far).push(placement(seg)));
                    assert(before + all.push(placement(seg)) =~= (before + all).push(
                        placement(seg),
                    ));
                }
            }
        }
        k = k + 1;
    }
}

fn sort_segments(segments: &Vec<SpatialSegment>) -> (r: Vec<SpatialSegment>)
    ensures
        all_placements(r@) == sorted_by(all_placements(segments@), by_start()),
{
    let n: usize = segments.len();
    let ghost all = all_placements(segments@);
    let mut keys: Vec<i128> = Vec::new();
    let mut i: usize = 0;
    while i < n
        invariant
            i <= n,
            n == segments@.len(),
            all == all_placements(segments@),
            keys@.len() == i,
            forall|j: int| 0 <= j < i ==> #[trigger] keys@[j] == by_start()(all[j]),
        decreases n - i,
    {
        keys.push(segments[i].start_time as i128);
        i = i + 1;
    }
    let order = sorted_positions(&keys);
    let ghost sorted = sorted_by(all, by_start());
    proof {
        lemma_order_of(all, keys@, by_start());
    }
    let mut out: Vec<SpatialSegment> = Vec::new();
    let mut k: usize = 0;
    while k < n
        invariant
            k <= n,
            n == segments@.len(),
            n == order@.len(),
            n == sorted.len(),
            all == all_placements(segments@),
            forall|i: int| 0 <= i < n ==> #[trigger] order@[i] < n,
            sorted == order@.map_values(|i: usize| all[i as int]),
            out@.len() == k,
            all_placements(out@) == sorted.take(k as int),
        decreases n - k,
    {
        let at: usize = order[k];
        let ghost before = out@;
        out.push(segments[at].clone());
        proof {
            assert(sorted[k as int] == placement(segments@[at as int]));
            assert(all_placements(out@) =~= all_placements(before).push(placement(out@[k as int])));
            assert(sorted.take(k + 1) =~= sorted.take(k as int).push(sorted[k as int]));
        }
        k = k + 1;
    }
    assert(sorted.take(n as int) =~= sorted);
    out
}

/// The segments of a timeline: some moments that the classifier's answers lead to bound
/// the runs, and the segments are the occupants of the runs, in order of their beginning.
pub open spec fn are_segments<F: Fn(i64) -> Vec<TileScore>>(
    segments: Seq<Placement>,
    samples: Seq<Seen>,
    classifier: F,
    duration: int,
) -> bool {
    let s = sorted_by(samples, by_time());
    let runs = layouts_of(s);
    exists|bounds: Seq<int>| #[trigger]
        are_bounds(classifier, s, runs, duration, bounds) && segments == sorted_by(
            placements_of(s, runs, bounds, runs.len() as int),
            by_start(),
        )
}

/// The timeline that a classifier leads to which sees the tiles `look(t)` at `t`.
pub open spec fn timeline_of(
    samples: Seq<Seen>,
    look: spec_fn(int) -> Seq<Rect>,
    duration: int,
) -> Seq<Placement> {
    let s = sorted_by(samples, by_time());
    let runs = layouts_of(s);
    sorted_by(
        placements_of(s, runs, bounds_of(look, s, runs, duration), runs.len() as int),
        by_start(),
    )
}

/// Groups the samples into layouts, decides whom each box shows by the evidence of the
/// whole run, searches for the moments at which the runs begin, and gives one segment for
/// each box of each run.
pub fn build_timeline<F: Fn(i64) -> Vec<TileScore>>(
    coarse: Vec<(i64, Vec<TileScore>)>,
    classifier: &F,
    cloud: &str,
    width: u32,
    height: u32,
    duration: i64,
) -> (r: LayoutTimeline)
    requires
        is_usable(*classifier),
        tiles_fit(all_seen(coarse@)),
    ensures
        r.cloud@ == cloud@,
        r.width == width,
        r.height == height,
        r.duration == duration,
        are_segments(
            all_placements(r.segments@),
            all_seen(coarse@),
            *classifier,
            duration as int,
        ),
        forall|look: spec_fn(int) -> Seq<Rect>| #[trigger]
            describes(*classifier, look) ==> all_placements(r.segments@) == timeline_of(
                all_seen(coarse@),
                look,
                duration as int,
            ),
{
    let samples = sort_samples(&coarse);
    let ghost s = all_seen(samples@);
    proof {
        let fit = |x: Seen| all_fit(rects_of(x.tiles));
        assert forall|i: int| 0 <= i < all_seen(coarse@).len() implies fit(
            #[trigger] all_seen(coarse@)[i],
        ) by {}
        lemma_sorted_by_all(all_seen(coarse@), by_time(), fit);
        assert forall|i: int| 0 <= i < s.len() implies all_fit(
            rects_of((#[trigger] s[i]).tiles),
        ) by {
            assert(fit(s[i]));
        }
    }
    let all = group(&samples);
    let n: usize = samples.len();
    proof {
        lemma_runs(s, n as int);
    }
    let runs = keep_layouts(&samples, &all);
    proof {
        lemma_layouts(s);
        assert(runs@ == layouts_of(s));
    }
    let bounds = find_bounds(&samples, &runs, classifier, duration);
    let ghost at = ints(bounds@);
    let mut segments: Vec<SpatialSegment> = Vec::new();
    let mut i: usize = 0;
    assert(all_placements(segments@) =~= placements_of(s, runs@, at, 0));
    while i < runs.len()
        invariant
            i <= runs@.len(),
            s == all_seen(samples@),
            tiles_fit(s),
            are_runs(runs@, samples@.len() as int),
            at == ints(bounds@),
            at.len() == runs@.len() + 1,
            all_placements(segments@) == placements_of(s, runs@, at, i as int),
        decreases runs@.len() - i,
    {
        let start: i64 = bounds[i];
        let end: i64 = bounds[i + 1];
        assert(start == at[i as int] && end == at[i + 1]);
        if end > start {
            push_occupants(&mut segments, &samples, runs[i], start, end);
        }
        i = i + 1;
    }
    let sorted = sort_segments(&segments);
    assert(are_bounds(*classifier, s, runs@, duration as int, at));
    LayoutTimeline { cloud: cloud.to_string(), width, height, duration, segments: sorted }
}

/// Runs bounded in their gaps are contiguous: each begins where the one before ends, and
/// none ends before it begins.
pub proof fn law_runs_are_contiguous(
    s: Seq<Seen>,
    runs: Seq<Run>,
    duration: int,
    bounds: Seq<int>,
)
    requires
        is_ascending(s, by_time()),
        forall|i: int| 0 <= i < s.len() ==> 0 <= (#[trigger] s[i]).time <= duration,
        are_runs(runs, s.len() as int),
        in_gaps(s, runs, duration, bounds),
        duration >= 0,
    ensures
        forall|i: int, j: int|
            0 <= i <= j < bounds.len() ==> 0 <= #[trigger] bounds[i] <= #[trigger] bounds[j]
                <= duration,
{
    if runs.len() > 0 {
        assert forall|i: int| 0 <= i < runs.len() implies 0 <= #[trigger] bounds[i] <= s[runs[i].to
            - 1].time && gap_start(s, runs, i) <= bounds[i] by {
            let r = runs[i];
            assert(by_time()(s[r.from as int]) <= by_time()(s[r.to - 1]));
            if i > 0 {
                assert(runs[i - 1].to <= runs[i].from);
                assert(by_time()(s[runs[i - 1].to - 1]) <= by_time()(s[r.from as int]));
            }
        }
        lemma_steps(s, runs, duration, bounds, bounds.len() as int);
    }
}

proof fn lemma_steps(s: Seq<Seen>, runs: Seq<Run>, duration: int, bounds: Seq<int>, n: int)
    requires
        1 <= n <= bounds.len(),
        bounds.len() == runs.len() + 1,
        bounds[runs.len() as int] == duration,
        forall|i: int| 0 <= i < s.len() ==> 0 <= (#[trigger] s[i]).time <= duration,
        are_runs(runs, s.len() as int),
        runs.len() > 0,
        forall|i: int|
            0 <= i < runs.len() ==> 0 <= #[trigger] bounds[i] <= s[runs[i].to - 1].time
                && gap_start(s, runs, i) <= bounds[i],
    ensures
        forall|i: int, j: int|
            0 <= i <= j < n ==> 0 <= #[trigger] bounds[i] <= #[trigger] bounds[j] <= duration,
    decreases n,
{
    if n > 1 {
        lemma_steps(s, runs, duration, bounds, n - 1);
        let k = n - 2;
        assert(bounds[k] <= s[runs[k].to - 1].time);
        assert(runs[k].to <= s.len());
        assert(bounds[k] <= bounds[k + 1]);
        if k + 1 < runs.len() {
            assert(bounds[k + 1] <= s[runs[k + 1].to - 1].time);
            assert(runs[k + 1].to <= s.len());
        }
        assert forall|i: int, j: int| 0 <= i <= j < n implies 0 <= #[trigger] bounds[i]
            <= #[trigger] bounds[j] <= duration by {
            if j == n - 1 && i < j {
                assert(bounds[i] <= bounds[k]);
            }
        }
    } else {
        assert(bounds[0] <= s[runs[0].to - 1].time);
        assert(runs[0].to <= s.len());
    }
}

/// Two intervals are the same or do not overlap.
pub open spec fn agree(s1: int, e1: int, s2: int, e2: int) -> bool {
    (s1 == s2 && e1 == e2) || e1 <= s2 || e2 <= s1
}

/// The placement lasts exactly as long as run `i`.
pub open spec fn lasts(bounds: Seq<int>, i: int, p: Placement) -> bool {
    0 <= i < bounds.len() - 1 && p.start == bounds[i] && p.end == bounds[i + 1]
}

/// A placement of one of the runs, with a duration, a name and an area.
pub open spec fn is_proper(bounds: Seq<int>) -> spec_fn(Placement) -> bool {
    |p: Placement|
        {
            &&& p.start < p.end
            &&& p.id.len() > 0
            &&& p.place.2 >= 1
            &&& p.place.3 >= 1
            &&& exists|i: int| #[trigger] lasts(bounds, i, p)
        }
}

/// Every segment lasts exactly as long as one of the runs, has a participant and a box of
/// at least one pixel, and the segments are in order of their beginning.
pub proof fn law_segments_fill_runs(s: Seq<Seen>, runs: Seq<Run>, bounds: Seq<int>)
    requires
        bounds.len() == runs.len() + 1,
    ensures
        ({
            let all = sorted_by(placements_of(s, runs, bounds, runs.len() as int), by_start());
            &&& is_ascending(all, by_start())
            &&& forall|k: int| 0 <= k < all.len() ==> is_proper(bounds)(#[trigger] all[k])
        }),
{
    let n = runs.len() as int;
    let unsorted = placements_of(s, runs, bounds, n);
    lemma_placements(s, runs, bounds, n);
    lemma_sorted_by(unsorted, by_start());
    lemma_sorted_by_all(unsorted, by_start(), is_proper(bounds));
}

proof fn lemma_placements(s: Seq<Seen>, runs: Seq<Run>, bounds: Seq<int>, n: int)
    requires
        bounds.len() == runs.len() + 1,
        0 <= n <= runs.len(),
    ensures
        forall|k: int|
            0 <= k < placements_of(s, runs, bounds, n).len() ==> is_proper(bounds)(
                #[trigger] placements_of(s, runs, bounds, n)[k],
            ),
    decreases n,
{
    if n > 0 {
        lemma_placements(s, runs, bounds, n - 1);
        let before = placements_of(s, runs, bounds, n - 1);
        let all = placements_of(s, runs, bounds, n);
        let m = canon_of(s, runs[n - 1]).len() as int;
        if bounds[n] > bounds[n - 1] {
            lemma_occupants(s, runs, bounds, n - 1, m);
            let i = n - 1;
            let new = occupants(s, runs[i], bounds[i], bounds[i + 1], m);
            assert forall|k: int| 0 <= k < all.len() implies is_proper(bounds)(#[trigger] all[k]) by {
                if k < before.len() {
                    assert(all[k] == before[k]);
                } else {
                    assert(all[k] == new[k - before.len()]);
                    assert(is_proper(bounds)(new[k - before.len()]));
                }
            }
        }
    }
}

proof fn lemma_occupants(s: Seq<Seen>, runs: Seq<Run>, bounds: Seq<int>, i: int, n: int)
    requires
        bounds.len() == runs.len() + 1,
        0 <= i < runs.len(),
        bounds[i] < bounds[i + 1],
    ensures
        forall|k: int|
            0 <= k < occupants(s, runs[i], bounds[i], bounds[i + 1], n).len() ==> is_proper(bounds)(
                #[trigger] occupants(s, runs[i], bounds[i], bounds[i + 1], n)[k],
            ),
    decreases n,
{
    if n > 0 {
        lemma_occupants(s, runs, bounds, i, n - 1);
        let before = occupants(s, runs[i], bounds[i], bounds[i + 1], n - 1);
        let all = occupants(s, runs[i], bounds[i], bounds[i + 1], n);
        assert forall|k: int| 0 <= k < all.len() implies is_proper(bounds)(#[trigger] all[k]) by {
            if k < before.len() {
                assert(all[k] == before[k]);
            } else {
                assert(lasts(bounds, i, all[k]));
            }
        }
    }
}

/// Two segments of a contiguous timeline either last equally long or do not overlap in
/// time.
pub proof fn law_segments_do_not_overlap(bounds: Seq<int>, p: Placement, q: Placement)
    requires
        forall|i: int, j: int|
            0 <= i <= j < bounds.len() ==> #[trigger] bounds[i] <= #[trigger] bounds[j],
        is_proper(bounds)(p),
        is_proper(bounds)(q),
    ensures
        agree(p.start, p.end, q.start, q.end),
{
    let i = choose|i: int| #[trigger] lasts(bounds, i, p);
    let j = choose|j: int| #[trigger] lasts(bounds, j, q);
    if i < j {
        assert(bounds[i + 1] <= bounds[j]);
    } else if j < i {
        assert(bounds[j + 1] <= bounds[i]);
    }
}

/// Where all samples lie within the clip, the segments of a timeline are in order of their
/// beginning, lie within the clip, have a participant and a box, and any two of them either
/// last equally long or do not overlap in time.
pub proof fn law_timeline<F: Fn(i64) -> Vec<TileScore>>(
    segments: Seq<Placement>,
    samples: Seq<Seen>,
    classifier: F,
    duration: int,
)
    requires
        are_segments(segments, samples, classifier, duration),
        samples.len() <= usize::MAX,
        duration >= 0,
        forall|i: int| 0 <= i < samples.len() ==> 0 <= (#[trigger] samples[i]).time <= duration,
    ensures
        is_ascending(segments, by_start()),
        forall|k: int|
            0 <= k < segments.len() ==> 0 <= (#[trigger] segments[k]).start < segments[k].end
                <= duration && segments[k].id.len() > 0 && segments[k].place.2 >= 1
                && segments[k].place.3 >= 1,
        forall|j: int, k: int|
            0 <= j < segments.len() && 0 <= k < segments.len() ==> agree(
                (#[trigger] segments[j]).start,
                segments[j].end,
                (#[trigger] segments[k]).start,
                segments[k].end,
            ),
{
    let s = sorted_by(samples, by_time());
    let runs = layouts_of(s);
    let bounds = choose|bounds: Seq<int>| #[trigger]
        are_bounds(classifier, s, runs, duration, bounds) && segments == sorted_by(
            placements_of(s, runs, bounds, runs.len() as int),
            by_start(),
        );
    let inside = |x: Seen| 0 <= x.time <= duration;
    lemma_sorted_by(samples, by_time());
    assert forall|i: int| 0 <= i < samples.len() implies inside(#[trigger] samples[i]) by {}
    lemma_sorted_by_all(samples, by_time(), inside);
    assert forall|i: int| 0 <= i < s.len() implies 0 <= (#[trigger] s[i]).time <= duration by {
        assert(inside(s[i]));
    }
    lemma_layouts(s);
    law_runs_are_contiguous(s, runs, duration, bounds);
    law_segments_fill_runs(s, runs, bounds);
    assert forall|k: int| 0 <= k < segments.len() implies 0 <= (#[trigger] segments[k]).start
        < segments[k].end <= duration && segments[k].id.len() > 0 && segments[k].place.2 >= 1
        && segments[k].place.3 >= 1 by {
        let p = segments[k];
        assert(is_proper(bounds)(p));
        let i = choose|i: int| #[trigger] lasts(bounds, i, p);
        assert(0 <= bounds[i] <= bounds[i + 1] <= duration);
    }
    assert forall|j: int, k: int| 0 <= j < segments.len() && 0 <= k < segments.len() implies agree(
        (#[trigger] segments[j]).start,
        segments[j].end,
        (#[trigger] segments[k]).start,
        segments[k].end,
    ) by {
        assert(is_proper(bounds)(segments[j]) && is_proper(bounds)(segments[k]));
        law_segments_do_not_overlap(bounds, segments[j], segments[k]);
    }
}

/// A tile with a participant and an area.
pub open spec fn is_taken(t: TileScore) -> bool {
    t.participant_id@.len() > 0 && t.rect.w > 0 && t.rect.h > 0
}

/// Every tile that was seen has a participant and an area.
pub open spec fn all_taken(s: Seen) -> bool {
    forall|k: int| 0 <= k < s.tiles.len() ==> is_taken(#[trigger] s.tiles[k])
}

proof fn lemma_fullest(s: Seq<Seen>, from: int, to: int)
    requires
        from < to,
    ensures
        from <= fullest(s, from, to) < to,
        forall|k: int|
            from <= k < to ==> (#[trigger] s[k]).tiles.len() <= s[fullest(
                s,
                from,
                to,
            )].tiles.len(),
    decreases to - from,
{
    if to > from + 1 {
        lemma_fullest(s, from, to - 1);
    }
}

/// What is seen at a place in one sample is evidence for the run, and all evidence is taken.
proof fn lemma_evidence(s: Seq<Seen>, from: int, to: int, place: Rect, f: int)
    requires
        0 <= from <= to <= s.len(),
        forall|i: int| 0 <= i < s.len() ==> all_taken(#[trigger] s[i]),
    ensures
        forall|k: int|
            0 <= k < evidence(s, from, to, place).len() ==> is_taken(
                #[trigger] evidence(s, from, to, place)[k],
            ),
        from <= f < to && s[f].tiles.len() > 0 && s[f].tiles[0].rect.same_place(place)
            ==> evidence(s, from, to, place).len() > 0,
    decreases to - from,
{
    if from < to {
        lemma_evidence(s, from, to - 1, place, f);
        let keep = |t: TileScore| t.rect.same_place(place);
        let tiles = s[to - 1].tiles;
        let (before, new) = (evidence(s, from, to - 1, place), tiles.filter(keep));
        let all = evidence(s, from, to, place);
        assert(all_taken(s[to - 1]));
        assert forall|k: int| 0 <= k < all.len() implies is_taken(#[trigger] all[k]) by {
            if k < before.len() {
                assert(all[k] == before[k]);
            } else {
                assert(all[k] == new[k - before.len()]);
                assert(new.contains(all[k]));
                tiles.lemma_filter_contains_rev(keep, all[k]);
            }
        }
        if f == to - 1 && tiles.len() > 0 && tiles[0].rect.same_place(place) {
            tiles.lemma_filter_contains(keep, 0);
        }
    }
}

/// A layout whose tiles are all taken has an occupant.
proof fn lemma_layout_is_occupied(s: Seq<Seen>, r: Run, start: int, end: int, n: int)
    requires
        is_layout(s, r),
        r.to <= s.len(),
        forall|i: int| 0 <= i < s.len() ==> all_taken(#[trigger] s[i]),
        1 <= n,
    ensures
        canon_of(s, r).len() > 0,
        occupants(s, r, start, end, n).len() > 0,
        occupants(s, r, start, end, n)[0].start == start,
        occupants(s, r, start, end, n)[0].end == end,
    decreases n,
{
    let (from, to) = (r.from as int, r.to as int);
    lemma_fullest(s, from, to);
    let f = fullest(s, from, to);
    let tiles = s[f].tiles;
    assert(tiles.len() > 0) by {
        let k = choose|k: int| r.from <= k < r.to && (#[trigger] s[k]).tiles.len() > 0;
        assert(s[k].tiles.len() <= tiles.len());
    }
    if n > 1 {
        lemma_layout_is_occupied(s, r, start, end, n - 1);
    } else {
        let place = canon_of(s, r)[0];
        assert(place == tiles[0].rect);
        assert(all_taken(s[f]));
        assert(is_taken(tiles[0]));
        assert(place.same_place(place)) by {
            law_same_layout_is_reflexive(seq![place]);
            assert(has_match(seq![place][0], seq![place]));
        }
        lemma_evidence(s, from, to, place, f);
        let found = evidence(s, from, to, place);
        law_leader_has_most_support(found, found.len() as int);
        assert(is_taken(found[leader(found, found.len() as int)]));
        assert(occupants(s, r, start, end, 0).len() == 0);
    }
}

/// Each run with a duration has a placement that lasts as long.
proof fn lemma_run_is_placed(s: Seq<Seen>, runs: Seq<Run>, bounds: Seq<int>, n: int, i: int) -> (k:
    int)
    requires
        0 <= i < n <= runs.len(),
        bounds.len() == runs.len() + 1,
        bounds[i] < bounds[i + 1],
        is_layout(s, runs[i]),
        runs[i].to <= s.len(),
        forall|i: int| 0 <= i < s.len() ==> all_taken(#[trigger] s[i]),
    ensures
        0 <= k < placements_of(s, runs, bounds, n).len(),
        lasts(bounds, i, placements_of(s, runs, bounds, n)[k]),
    decreases n,
{
    let before = placements_of(s, runs, bounds, n - 1);
    if i < n - 1 {
        lemma_run_is_placed(s, runs, bounds, n - 1, i)
    } else {
        lemma_layout_is_occupied(s, runs[i], bounds[i], bounds[i + 1], 1);
        let m = canon_of(s, runs[i]).len() as int;
        lemma_layout_is_occupied(s, runs[i], bounds[i], bounds[i + 1], m);
        assert(placements_of(s, runs, bounds, n)[before.len() as int] == occupants(
            s,
            runs[i],
            bounds[i],
            bounds[i + 1],
            m,
        )[0]);
        before.len() as int
    }
}

/// The run that holds a moment between two bounds.
proof fn lemma_run_at(bounds: Seq<int>, i: int, t: int) -> (j: int)
    requires
        0 <= i < bounds.len(),
        bounds[i] <= t < bounds.last(),
    ensures
        0 <= j < bounds.len() - 1,
        bounds[j] <= t < bounds[j + 1],
    decreases bounds.len() - i,
{
    if t < bounds[i + 1] {
        i
    } else {
        lemma_run_at(bounds, i + 1, t)
    }
}

/// A segment holds the moment.
pub open spec fn is_covered(segments: Seq<Placement>, t: int) -> bool {
    exists|j: int| 0 <= j < segments.len() && (#[trigger] segments[j]).start <= t < segments[j].end
}

/// Where all tiles have a participant and an area, a timeline has no gap: from the beginning
/// of its first segment to the end of the clip every moment is held by a segment.
pub proof fn law_timeline_has_no_gap<F: Fn(i64) -> Vec<TileScore>>(
    segments: Seq<Placement>,
    samples: Seq<Seen>,
    classifier: F,
    duration: int,
)
    requires
        are_segments(segments, samples, classifier, duration),
        samples.len() <= usize::MAX,
        forall|i: int| 0 <= i < samples.len() ==> all_taken(#[trigger] samples[i]),
    ensures
        forall|t: int|
            segments.len() > 0 && segments[0].start <= t < duration ==> #[trigger] is_covered(
                segments,
                t,
            ),
{
    let s = sorted_by(samples, by_time());
    let runs = layouts_of(s);
    let n = runs.len() as int;
    let bounds = choose|bounds: Seq<int>| #[trigger]
        are_bounds(classifier, s, runs, duration, bounds) && segments == sorted_by(
            placements_of(s, runs, bounds, runs.len() as int),
            by_start(),
        );
    let unsorted = placements_of(s, runs, bounds, n);
    let taken = |x: Seen| all_taken(x);
    lemma_sorted_by(samples, by_time());
    assert forall|i: int| 0 <= i < samples.len() implies taken(#[trigger] samples[i]) by {}
    lemma_sorted_by_all(samples, by_time(), taken);
    assert forall|i: int| 0 <= i < s.len() implies all_taken(#[trigger] s[i]) by {
        assert(taken(s[i]));
    }
    lemma_layouts(s);
    law_segments_fill_runs(s, runs, bounds);
    lemma_sorted_by(unsorted, by_start());
    assert forall|t: int|
        segments.len() > 0 && segments[0].start <= t < duration implies #[trigger] is_covered(
        segments,
        t,
    ) by {
        assert(is_proper(bounds)(segments[0]));
        let first = choose|i: int| #[trigger] lasts(bounds, i, segments[0]);
        let i = lemma_run_at(bounds, first, t);
        assert(is_layout(s, layouts_of(s)[i]));
        let k = lemma_run_is_placed(s, runs, bounds, n, i);
        let p = unsorted[k];
        assert(segments.contains(p)) by {
            broadcast use vstd::seq_lib::group_to_multiset_ensures;

            assert(unsorted.contains(p));
            assert(unsorted.to_multiset().contains(p));
            assert(segments.to_multiset().contains(p));
        }
        let j = choose|j: int| 0 <= j < segments.len() && segments[j] == p;
        assert(segments[j].start <= t < segments[j].end);
    }
}

/// Support adds up: that of one tile is its similarity if it shows the participant and
/// nothing otherwise, and that of tiles taken together is the sum of both.
pub proof fn law_support_adds_up(a: Seq<TileScore>, b: Seq<TileScore>, t: TileScore, id: Seq<char>)
    ensures
        support(Seq::empty(), id) == 0,
        t.participant_id@ == id ==> support(seq![t], id) == t.sim,
        t.participant_id@ != id ==> support(seq![t], id) == 0,
        support(a + b, id) == support(a, id) + support(b, id),
    decreases b.len(),
{
    assert(seq![t].drop_last() =~= Seq::<TileScore>::empty());
    assert(support(Seq::<TileScore>::empty(), id) == 0);
    if b.len() > 0 {
        law_support_adds_up(a, b.drop_last(), t, id);
        assert((a + b).drop_last() =~= a + b.drop_last());
        assert((a + b).last() == b.last());
    } else {
        assert(a + b =~= a);
    }
}

/// Being surer of one tile counts: a tile with a similarity higher by `d` raises the support
/// of its participant by exactly `d`, and that of nobody else.
pub proof fn law_support_goes_by_similarity(
    tiles: Seq<TileScore>,
    i: int,
    t: TileScore,
    id: Seq<char>,
)
    requires
        0 <= i < tiles.len(),
        t.participant_id@ == tiles[i].participant_id@,
    ensures
        tiles[i].participant_id@ == id ==> support(tiles.update(i, t), id) - support(tiles, id)
            == t.sim - tiles[i].sim,
        tiles[i].participant_id@ != id ==> support(tiles.update(i, t), id) == support(tiles, id),
{
    let (a, b) = (tiles.take(i), tiles.skip(i + 1));
    let old_tile = seq![tiles[i]];
    assert(tiles =~= a + (old_tile + b));
    assert(tiles.update(i, t) =~= a + (seq![t] + b));
    law_support_adds_up(a, old_tile + b, t, id);
    law_support_adds_up(a, seq![t] + b, t, id);
    law_support_adds_up(old_tile, b, tiles[i], id);
    law_support_adds_up(seq![t], b, t, id);
}

/// Totals add up over the tiles.
pub proof fn law_totals_add_up(
    a: Seq<TileScore>,
    b: Seq<TileScore>,
    t: TileScore,
    f: spec_fn(Rect) -> int,
)
    ensures
        total_of(Seq::empty(), f) == 0,
        total_of(seq![t], f) == f(t.rect),
        total_of(a + b, f) == total_of(a, f) + total_of(b, f),
    decreases b.len(),
{
    assert(seq![t].drop_last() =~= Seq::<TileScore>::empty());
    assert(total_of(Seq::<TileScore>::empty(), f) == 0);
    if b.len() > 0 {
        law_totals_add_up(a, b.drop_last(), t, f);
        assert((a + b).drop_last() =~= a + b.drop_last());
        assert((a + b).last() == b.last());
    } else {
        assert(a + b =~= a);
    }
}

/// A mean is the nearest integer to the total by the number of tiles, halfway the greater one.
pub proof fn law_mean_is_nearest(tiles: Seq<TileScore>, f: spec_fn(Rect) -> int)
    requires
        tiles.len() > 0,
    ensures
        ({
            let (n, m, t) = (tiles.len() as int, mean_of(tiles, f), total_of(tiles, f));
            -n <= 2 * (t - n * m) < n
        }),
{
    let (n, t) = (tiles.len() as int, total_of(tiles, f));
    let m = mean_of(tiles, f);
    vstd::arithmetic::div_mod::lemma_fundamental_div_mod(2 * t + n, 2 * n);
    vstd::arithmetic::div_mod::lemma_mod_bound(2 * t + n, 2 * n);
    assert((2 * n) * m == 2 * (n * m)) by (nonlinear_arith);
}

proof fn lemma_total_of_same(
    tiles: Seq<TileScore>,
    f: spec_fn(Rect) -> int,
    g: spec_fn(Rect) -> int,
)
    requires
        forall|r: Rect| #[trigger] f(r) == g(r),
    ensures
        total_of(tiles, f) == total_of(tiles, g),
    decreases tiles.len(),
{
    if tiles.len() > 0 {
        lemma_total_of_same(tiles.drop_last(), f, g);
    }
}

/// Whoever sits at a box is shown there by one of the tiles and has the most support of all
/// whom they show, for the given time, and the box is the mean of the tiles' places: column
/// by column, row by row, width by width and height by height, and at least one pixel. Tiles
/// that all have a participant have an occupant.
pub proof fn law_occupant(tiles: Seq<TileScore>, start: int, end: int)
    ensures
        tiles.len() == 0 ==> occupant(tiles, start, end) is None,
        tiles.len() > 0 && (forall|k: int|
            0 <= k < tiles.len() ==> (#[trigger] tiles[k]).participant_id@.len() > 0) ==> occupant(
            tiles,
            start,
            end,
        ) is Some,
        occupant(tiles, start, end) matches Some(p) ==> {
            let n = tiles.len() as int;
            let (x, y) = (|r: Rect| r.x as int, |r: Rect| r.y as int);
            let (w, h) = (|r: Rect| r.w as int, |r: Rect| r.h as int);
            &&& p.start == start
            &&& p.end == end
            &&& p.id.len() > 0
            &&& exists|k: int| 0 <= k < n && (#[trigger] tiles[k]).participant_id@ == p.id
            &&& forall|k: int|
                0 <= k < n ==> support(tiles, (#[trigger] tiles[k]).participant_id@) <= support(
                    tiles,
                    p.id,
                )
            &&& -n <= 2 * (total_of(tiles, x) - n * p.place.0) < n
            &&& -n <= 2 * (total_of(tiles, y) - n * p.place.1) < n
            &&& -n <= 2 * (total_of(tiles, w) - n * p.place.2) < n || (p.place.2 == 1 && 2
                * total_of(tiles, w) < n)
            &&& -n <= 2 * (total_of(tiles, h) - n * p.place.3) < n || (p.place.3 == 1 && 2
                * total_of(tiles, h) < n)
        },
{
    if tiles.len() > 0 {
        let n = tiles.len() as int;
        law_leader_has_most_support(tiles, n);
        let at = leader(tiles, n);
        assert(0 <= at < n);
        let (x, y) = (|r: Rect| r.x as int, |r: Rect| r.y as int);
        let (w, h) = (|r: Rect| r.w as int, |r: Rect| r.h as int);
        lemma_total_of_same(tiles, column_of(), x);
        lemma_total_of_same(tiles, row_of(), y);
        lemma_total_of_same(tiles, width_of(), w);
        lemma_total_of_same(tiles, height_of(), h);
        law_mean_is_nearest(tiles, column_of());
        law_mean_is_nearest(tiles, row_of());
        law_mean_is_nearest(tiles, width_of());
        law_mean_is_nearest(tiles, height_of());
        lemma_low_mean(n, mean_of(tiles, width_of()), total_of(tiles, width_of()));
        lemma_low_mean(n, mean_of(tiles, height_of()), total_of(tiles, height_of()));
    }
}

proof fn lemma_low_mean(n: int, m: int, t: int)
    requires
        n > 0,
        -n <= 2 * (t - n * m) < n,
    ensures
        m < 1 ==> 2 * t < n,
{
    if m < 1 {
        assert(n * m <= 0) by (nonlinear_arith)
            requires
                n > 0,
                m < 1,
        ;
    }
}

/// The evidence of a run is that of its parts, and of one sample it is the tiles that take
/// more than half of the place: all of them and no others.
pub proof fn law_evidence_is_of_the_place(s: Seq<Seen>, from: int, mid: int, to: int, place: Rect)
    requires
        0 <= from <= mid <= to <= s.len(),
    ensures
        evidence(s, from, to, place) == evidence(s, from, mid, place) + evidence(s, mid, to, place),
        forall|i: int, k: int|
            from <= i < to && 0 <= k < s[i].tiles.len() && 3 * s[i].tiles[k].rect.overlap(place)
                > s[i].tiles[k].rect.spec_area() + place.spec_area() ==> evidence(
                s,
                from,
                to,
                place,
            ).contains(#[trigger] s[i].tiles[k]),
        forall|j: int|
            0 <= j < evidence(s, from, to, place).len() ==> ({
                let t = #[trigger] evidence(s, from, to, place)[j];
                3 * t.rect.overlap(place) > t.rect.spec_area() + place.spec_area() && exists|i: int|
                    from <= i < to && (#[trigger] s[i]).tiles.contains(t)
            }),
    decreases to - from,
{
    let all = evidence(s, from, to, place);
    if mid < to {
        law_evidence_is_of_the_place(s, from, mid, to - 1, place);
        assert(all =~= evidence(s, from, mid, place) + evidence(s, mid, to, place));
    } else {
        assert(evidence(s, mid, to, place) =~= Seq::<TileScore>::empty());
        assert(all =~= evidence(s, from, mid, place) + evidence(s, mid, to, place));
        if from < to {
            law_evidence_is_of_the_place(s, from, to - 1, to - 1, place);
        }
    }
    if from < to {
        let keep = |t: TileScore| t.rect.same_place(place);
        let tiles = s[to - 1].tiles;
        let (before, new) = (evidence(s, from, to - 1, place), tiles.filter(keep));
        assert forall|i: int, k: int|
            from <= i < to && 0 <= k < s[i].tiles.len() && 3 * s[i].tiles[k].rect.overlap(place)
                > s[i].tiles[k].rect.spec_area() + place.spec_area() implies all.contains(
            #[trigger] s[i].tiles[k],
        ) by {
            let t = s[i].tiles[k];
            if i < to - 1 {
                assert(before.contains(t));
                let j = choose|j: int| 0 <= j < before.len() && before[j] == t;
                assert(all[j] == t);
            } else {
                assert(keep(tiles[k]));
                tiles.lemma_filter_contains(keep, k);
                let j = choose|j: int| 0 <= j < new.len() && new[j] == t;
                assert(all[before.len() + j] == t);
            }
        }
        assert forall|j: int| 0 <= j < all.len() implies ({
            let t = #[trigger] all[j];
            3 * t.rect.overlap(place) > t.rect.spec_area() + place.spec_area() && exists|i: int|
                from <= i < to && (#[trigger] s[i]).tiles.contains(t)
        }) by {
            let t = all[j];
            if j < before.len() {
                assert(before[j] == t);
                let i = choose|i: int| from <= i < to - 1 && (#[trigger] s[i]).tiles.contains(t);
                assert(s[i].tiles.contains(t));
            } else {
                let at = j - before.len();
                assert(new[at] == t);
                tiles.lemma_filter_pred(keep, at);
                assert(new.contains(t));
                tiles.lemma_filter_contains_rev(keep, t);
                assert(s[to - 1].tiles.contains(t));
            }
        }
    }
}

/// The sample has the same layout as the one before.
#[verifier::opaque]
spec fn goes_on(s: Seq<Seen>, i: int) -> bool {
    is_same_layout(rects_of(s[i - 1].tiles), rects_of(s[i].tiles))
}

proof fn lemma_runs_group(s: Seq<Seen>, n: int)
    requires
        0 < n <= s.len() <= usize::MAX,
    ensures
        ({
            let runs = runs_of(s, n);
            &&& runs.len() > 0
            &&& runs[0].from == 0
            &&& runs.last().to == n
            &&& forall|j: int, k: int|
                0 <= j && k == j + 1 && k < runs.len() ==> (#[trigger] runs[j]).to == (
                #[trigger] runs[k]).from
            &&& forall|j: int, i: int|
                0 <= j < runs.len() && (#[trigger] runs[j]).from < i < runs[j].to
                    ==> #[trigger] goes_on(s, i)
            &&& forall|j: int| 0 < j < runs.len() ==> !goes_on(s, (#[trigger] runs[j]).from as int)
        }),
    decreases n,
{
    lemma_runs(s, n);
    let all = runs_of(s, n);
    if n > 1 {
        lemma_runs_group(s, n - 1);
        let before = runs_of(s, n - 1);
        lemma_runs(s, n - 1);
        let last = all.len() - 1;
        assert(goes_on(s, n - 1) == is_same_layout(
            rects_of(s[n - 2].tiles),
            rects_of(s[n - 1].tiles),
        )) by {
            reveal(goes_on);
        }
        assert forall|j: int, k: int| 0 <= j && k == j + 1 && k < all.len() implies (
        #[trigger] all[j]).to == (#[trigger] all[k]).from by {
            if k < before.len() {
                assert(before[j].to == before[k].from);
            }
        }
        assert forall|j: int, i: int|
            0 <= j < all.len() && (#[trigger] all[j]).from < i < all[j].to implies
            #[trigger] goes_on(s, i) by {
            if j < last {
                assert(all[j] == before[j]);
            } else if all.len() == before.len() && i < n - 1 {
                assert(before[j].from < i < before[j].to);
            }
        }
        assert forall|j: int| 0 < j < all.len() implies !goes_on(
            s,
            (#[trigger] all[j]).from as int,
        ) by {
            if j < before.len() {
                assert(before[j].from == all[j].from);
                assert(!goes_on(s, before[j].from as int));
            }
        }
    } else {
        assert(runs_of(s, 0).len() == 0);
    }
}

/// Runs are made of all samples, in order. Each sample of a run has the same layout as the
/// one before, and where a run begins the layout is another one.
pub proof fn law_runs_group_the_samples(s: Seq<Seen>, n: int)
    requires
        0 < n <= s.len() <= usize::MAX,
    ensures
        ({
            let runs = runs_of(s, n);
            &&& runs.len() > 0
            &&& runs[0].from == 0
            &&& runs.last().to == n
            &&& forall|j: int, k: int|
                0 <= j && k == j + 1 && k < runs.len() ==> (#[trigger] runs[j]).to == (
                #[trigger] runs[k]).from
            &&& forall|j: int, i: int|
                0 <= j < runs.len() && (#[trigger] runs[j]).from < i < runs[j].to
                    ==> #[trigger] continues(s, i)
            &&& forall|j: int| 0 < j < runs.len() ==> !continues(s, (#[trigger] runs[j]).from as int)
        }),
{
    lemma_runs_group(s, n);
    let runs = runs_of(s, n);
    assert forall|j: int, i: int|
        0 <= j < runs.len() && (#[trigger] runs[j]).from < i < runs[j].to implies
        #[trigger] continues(s, i) by {
        assert(goes_on(s, i));
        lemma_goes_on(s, i);
    }
    assert forall|j: int| 0 < j < runs.len() implies !continues(
        s,
        (#[trigger] runs[j]).from as int,
    ) by {
        lemma_goes_on(s, runs[j].from as int);
    }
}

proof fn lemma_goes_on(s: Seq<Seen>, i: int)
    ensures
        goes_on(s, i) == continues(s, i),
{
    reveal(goes_on);
    lemma_continues(s[i - 1].tiles, s[i].tiles);
    lemma_continues(s[i].tiles, s[i - 1].tiles);
}

/// The sample has as many tiles as the one before, and every tile of either takes more than
/// half of the place of one of the other.
pub open spec fn continues(s: Seq<Seen>, i: int) -> bool {
    let (a, b) = (s[i - 1].tiles, s[i].tiles);
    &&& a.len() == b.len()
    &&& forall|j: int| 0 <= j < a.len() ==> finds(#[trigger] a[j], b)
    &&& forall|j: int| 0 <= j < b.len() ==> finds(#[trigger] b[j], a)
}

/// Some of the tiles shares more of its place with `t` than the two have otherwise.
pub open spec fn finds(t: TileScore, tiles: Seq<TileScore>) -> bool {
    exists|k: int|
        0 <= k < tiles.len() && 3 * t.rect.overlap((#[trigger] tiles[k]).rect) > t.rect.spec_area()
            + tiles[k].rect.spec_area()
}

proof fn lemma_continues(a: Seq<TileScore>, b: Seq<TileScore>)
    ensures
        (forall|j: int| 0 <= j < a.len() ==> finds(#[trigger] a[j], b)) == (forall|j: int|
            0 <= j < rects_of(a).len() ==> has_match(#[trigger] rects_of(a)[j], rects_of(b))),
{
    let (ra, rb) = (rects_of(a), rects_of(b));
    assert forall|j: int| 0 <= j < a.len() implies finds(#[trigger] a[j], b) == has_match(
        ra[j],
        rb,
    ) by {
        if finds(a[j], b) {
            let k = choose|k: int|
                0 <= k < b.len() && 3 * a[j].rect.overlap((#[trigger] b[k]).rect)
                    > a[j].rect.spec_area() + b[k].rect.spec_area();
            assert(ra[j].same_place(rb[k]));
        }
        if has_match(ra[j], rb) {
            let k = choose|k: int| 0 <= k < rb.len() && ra[j].same_place(#[trigger] rb[k]);
            assert(3 * a[j].rect.overlap(b[k].rect) > a[j].rect.spec_area()
                + b[k].rect.spec_area());
        }
    }
    if forall|j: int| 0 <= j < a.len() ==> finds(#[trigger] a[j], b) {
        assert forall|j: int| 0 <= j < ra.len() implies has_match(#[trigger] ra[j], rb) by {
            assert(finds(a[j], b));
        }
    }
    if forall|j: int| 0 <= j < ra.len() ==> has_match(#[trigger] ra[j], rb) {
        assert forall|j: int| 0 <= j < a.len() implies finds(#[trigger] a[j], b) by {
            assert(has_match(ra[j], rb));
        }
    }
}

/// The runs that count are those of two samples or more that have a tile in one of them, and
/// all of those.
pub proof fn law_layouts_are_runs_with_tiles(s: Seq<Seen>, r: Run)
    ensures
        layouts_of(s).contains(r) <==> runs_of(s, s.len() as int).contains(r) && r.from + 2 <= r.to
            && exists|k: int| r.from <= k < r.to && (#[trigger] s[k]).tiles.len() > 0,
{
    let keep = |r: Run| is_layout(s, r);
    let runs = runs_of(s, s.len() as int);
    if runs.contains(r) && keep(r) {
        let i = choose|i: int| 0 <= i < runs.len() && runs[i] == r;
        runs.lemma_filter_contains(keep, i);
    }
    if layouts_of(s).contains(r) {
        runs.lemma_filter_contains_rev(keep, r);
        let i = choose|i: int| 0 <= i < layouts_of(s).len() && layouts_of(s)[i] == r;
        runs.lemma_filter_pred(keep, i);
    }
}

/// The boxes of a run are those of a sample of it that has the most tiles, and the last such
/// one.
pub proof fn law_boxes_are_of_the_fullest(s: Seq<Seen>, r: Run)
    requires
        r.from < r.to,
    ensures
        exists|f: int|
            r.from <= f < r.to && canon_of(s, r).len() == (#[trigger] s[f]).tiles.len() && (forall|
                k: int,
            |
                r.from <= k < r.to ==> (#[trigger] s[k]).tiles.len() <= s[f].tiles.len()) && (
            forall|k: int| f < k < r.to ==> (#[trigger] s[k]).tiles.len() < s[f].tiles.len()) && (
            forall|b: int|
                0 <= b < s[f].tiles.len() ==> canon_of(s, r)[b] == (#[trigger] s[f].tiles[b]).rect),
{
    lemma_fullest(s, r.from as int, r.to as int);
    lemma_fullest_is_last(s, r.from as int, r.to as int);
    let f = fullest(s, r.from as int, r.to as int);
    assert(canon_of(s, r).len() == s[f].tiles.len());
}

proof fn lemma_fullest_is_last(s: Seq<Seen>, from: int, to: int)
    requires
        from < to,
    ensures
        forall|k: int|
            fullest(s, from, to) < k < to ==> (#[trigger] s[k]).tiles.len() < s[fullest(
                s,
                from,
                to,
            )].tiles.len(),
    decreases to - from,
{
    if to > from + 1 {
        lemma_fullest_is_last(s, from, to - 1);
    }
}

/// A run lasts at least from its first sample to its last one: it begins no later than the
/// one and ends no earlier than the other.
pub proof fn law_runs_hold_their_samples(
    s: Seq<Seen>,
    runs: Seq<Run>,
    duration: int,
    bounds: Seq<int>,
    i: int,
    k: int,
)
    requires
        is_ascending(s, by_time()),
        forall|i: int| 0 <= i < s.len() ==> 0 <= (#[trigger] s[i]).time <= duration,
        are_runs(runs, s.len() as int),
        in_gaps(s, runs, duration, bounds),
        0 <= i < runs.len(),
        runs[i].from <= k < runs[i].to,
    ensures
        bounds[i] <= s[k].time <= bounds[i + 1],
{
    let r = runs[i];
    assert(by_time()(s[r.from as int]) <= by_time()(s[k]));
    assert(by_time()(s[k]) <= by_time()(s[r.to - 1]));
    if i > 0 {
        assert(runs[i - 1].to <= runs[i].from);
        assert(runs[i - 1].from < runs[i - 1].to);
        assert(by_time()(s[runs[i - 1].to - 1]) <= by_time()(s[r.from as int]));
    }
    assert(gap_start(s, runs, i) <= gap_end(s, runs, i));
    assert(bounds[i] <= gap_end(s, runs, i));
    if i + 1 < runs.len() {
        assert(runs[i].to <= runs[i + 1].from);
        assert(runs[i + 1].from < runs[i + 1].to);
        assert(by_time()(s[r.to - 1]) <= by_time()(s[runs[i + 1].from as int]));
        assert(gap_start(s, runs, i + 1) <= gap_end(s, runs, i + 1));
        assert(gap_start(s, runs, i + 1) <= bounds[i + 1]);
    }
}

/// Where a classifier sees a run's boxes from one moment on between the last sample of the
/// run before (or the start) and its own first sample, and something else until that moment,
/// the run begins near the moment: at most a quarter of a second away, or a 128th of the time
/// between the two samples if that is more.
pub proof fn law_runs_begin_at_the_change<F: Fn(i64) -> Vec<TileScore>>(
    classifier: F,
    look: spec_fn(int) -> Seq<Rect>,
    s: Seq<Seen>,
    runs: Seq<Run>,
    duration: int,
    bounds: Seq<int>,
    i: int,
    lo: int,
    change: int,
)
    requires
        are_bounds(classifier, s, runs, duration, bounds),
        describes(classifier, look),
        0 <= i < runs.len(),
        i == 0 ==> lo == 0,
        i > 0 ==> s[runs[i - 1].to - 1].time >= 0 && lo == s[runs[i - 1].to - 1].time,
        lo < change <= s[runs[i].from as int].time,
        forall|t: int|
            lo <= t <= s[runs[i].from as int].time ==> is_same_layout(
                #[trigger] look(t),
                canon_of(s, runs[i]),
            ) == (change <= t),
    ensures
        ({
            let far = if bounds[i] < change {
                change - bounds[i]
            } else {
                bounds[i] - change
            };
            4 * far <= 1_000_000_000 || 128 * far <= s[runs[i].from as int].time - lo + 127
        }),
{
    let hi = s[runs[i].from as int].time;
    let canon = canon_of(s, runs[i]);
    assert(bounds == bounds_of(look, s, runs, duration));
    assert(bounds[i] == boundary(look, lo, hi, canon, false));
    law_boundary_is_near_the_change(look, lo, hi, canon, false, change);
}

/// A placement is that of one box of one run: its occupant by the evidence of the whole run,
/// for as long as the run lasts.
pub open spec fn is_placed(
    s: Seq<Seen>,
    runs: Seq<Run>,
    bounds: Seq<int>,
    i: int,
    b: int,
    p: Placement,
) -> bool {
    &&& 0 <= i < runs.len()
    &&& 0 <= b < canon_of(s, runs[i]).len()
    &&& bounds[i] < bounds[i + 1]
    &&& occupant(
        evidence(s, runs[i].from as int, runs[i].to as int, canon_of(s, runs[i])[b]),
        bounds[i],
        bounds[i + 1],
    ) == Some(p)
}

/// A placement is that of some box of some run.
pub open spec fn is_of_a_box(s: Seq<Seen>, runs: Seq<Run>, bounds: Seq<int>, p: Placement) -> bool {
    exists|i: int, b: int| #[trigger] is_placed(s, runs, bounds, i, b, p)
}

proof fn lemma_occupant_is_there(s: Seq<Seen>, r: Run, start: int, end: int, n: int, b: int) -> (k:
    int)
    requires
        0 <= b < n,
        occupant(
            evidence(s, r.from as int, r.to as int, canon_of(s, r)[b]),
            start,
            end,
        ) is Some,
    ensures
        0 <= k < occupants(s, r, start, end, n).len(),
        Some(occupants(s, r, start, end, n)[k]) == occupant(
            evidence(s, r.from as int, r.to as int, canon_of(s, r)[b]),
            start,
            end,
        ),
    decreases n,
{
    if b < n - 1 {
        lemma_occupant_is_there(s, r, start, end, n - 1, b)
    } else {
        occupants(s, r, start, end, n - 1).len() as int
    }
}

proof fn lemma_occupant_from(s: Seq<Seen>, r: Run, start: int, end: int, n: int, k: int) -> (b: int)
    requires
        0 <= k < occupants(s, r, start, end, n).len(),
    ensures
        0 <= b < n,
        Some(occupants(s, r, start, end, n)[k]) == occupant(
            evidence(s, r.from as int, r.to as int, canon_of(s, r)[b]),
            start,
            end,
        ),
    decreases n,
{
    if k < occupants(s, r, start, end, n - 1).len() {
        lemma_occupant_from(s, r, start, end, n - 1, k)
    } else {
        n - 1
    }
}

/// Every box of every run that lasts has its occupant among the placements, and every
/// placement is one of those.
pub proof fn law_placements_are_of_the_boxes(
    s: Seq<Seen>,
    runs: Seq<Run>,
    bounds: Seq<int>,
    n: int,
)
    requires
        0 <= n <= runs.len(),
        bounds.len() == runs.len() + 1,
    ensures
        forall|i: int, b: int, p: Placement|
            i < n && #[trigger] is_placed(s, runs, bounds, i, b, p) ==> placements_of(
                s,
                runs,
                bounds,
                n,
            ).contains(p),
        forall|k: int|
            0 <= k < placements_of(s, runs, bounds, n).len() ==> is_of_a_box(
                s,
                runs,
                bounds,
                #[trigger] placements_of(s, runs, bounds, n)[k],
            ),
    decreases n,
{
    if n > 0 {
        law_placements_are_of_the_boxes(s, runs, bounds, n - 1);
        let before = placements_of(s, runs, bounds, n - 1);
        let all = placements_of(s, runs, bounds, n);
        let j = n - 1;
        let m = canon_of(s, runs[j]).len() as int;
        let new = occupants(s, runs[j], bounds[j], bounds[j + 1], m);
        assert forall|i: int, b: int, p: Placement|
            i < n && #[trigger] is_placed(s, runs, bounds, i, b, p) implies all.contains(p) by {
            if i < n - 1 {
                assert(before.contains(p));
                let k = choose|k: int| 0 <= k < before.len() && before[k] == p;
                assert(all[k] == p);
            } else {
                let k = lemma_occupant_is_there(s, runs[j], bounds[j], bounds[j + 1], m, b);
                assert(all[before.len() + k] == p);
            }
        }
        assert forall|k: int| 0 <= k < all.len() implies is_of_a_box(
            s,
            runs,
            bounds,
            #[trigger] all[k],
        ) by {
            if k < before.len() {
                assert(all[k] == before[k]);
                assert(is_of_a_box(s, runs, bounds, before[k]));
                let (i, b) = choose|i: int, b: int| #[trigger]
                    is_placed(s, runs, bounds, i, b, before[k]);
                assert(is_placed(s, runs, bounds, i, b, all[k]));
            } else {
                let at = k - before.len();
                assert(all[k] == new[at]);
                let b = lemma_occupant_from(s, runs[j], bounds[j], bounds[j + 1], m, at);
                assert(is_placed(s, runs, bounds, j, b, all[k]));
            }
        }
    }
}

/// What stands for a segment and for a sample: its own times, participant and box, and its
/// time and tiles.
pub proof fn law_segment_values(s: SpatialSegment, x: (i64, Vec<TileScore>))
    ensures
        placement(s).start == s.start_time,
        placement(s).end == s.end_time,
        placement(s).id == s.participant_id@,
        placement(s).place.0 == s.bounding_box.0,
        placement(s).place.1 == s.bounding_box.1,
        placement(s).place.2 == s.bounding_box.2,
        placement(s).place.3 == s.bounding_box.3,
        seen(x).time == x.0,
        seen(x).tiles == x.1@,
{
}

} // verus!
