//! The timeline as a sequence of windows: maximal intervals over which the visible tiles
//! are the same. Each window becomes one small ffmpeg run, so that peak memory is bounded
//! by the busiest window and not by the whole timeline.
//!
//! A gap of a microsecond or less, in which nothing is visible, gets no window. Segments
//! that follow one another by their start, and differ by less than a microsecond at both
//! ends, begin and end together.
use vstd::prelude::*;

use crate::geometry::{max_int, min_int};
use crate::model::{LayoutTimeline, Participant, SpatialSegment};
use crate::order::{
    insert_by, is_ascending, law_sorting_is_stable, lemma_order_of, lemma_sorted_by,
    lemma_sorted_by_all, sorted_by, sorted_positions, with_key,
};

verus! {

/// A gap that is no longer than this gets no window of its own: a microsecond.
pub const TOLERANCE: i64 = 1_000;

/// One maximal interval where the visible local tiles are the same. Times are in
/// nanoseconds.
#[derive(Debug)]
pub struct Window {
    pub start: i64,
    pub end: i64,
    /// `(participant index, bounding box (x, y, w, h))`, from the bottom to the top.
    pub tiles: Vec<(usize, (u32, u32, u32, u32))>,
}

/// `Window` over mathematical values.
#[verifier::ext_equal]
pub struct Span {
    pub start: int,
    pub end: int,
    pub tiles: Seq<(usize, (u32, u32, u32, u32))>,
}

impl View for Window {
    type V = Span;

    open spec fn view(&self) -> Span {
        Span { start: self.start as int, end: self.end as int, tiles: self.tiles@ }
    }
}

pub open spec fn spans(v: Seq<Window>) -> Seq<Span> {
    v.map_values(|w: Window| w@)
}

/// A segment whose participant is known.
#[derive(Clone, Copy)]
pub struct Row {
    pub start: i64,
    pub end: i64,
    pub tile: (usize, (u32, u32, u32, u32)),
}

/// The first participant from `i` on with this id.
pub open spec fn index_of_id(ps: Seq<Participant>, id: Seq<char>, i: int) -> Option<usize>
    decreases ps.len() - i,
{
    if i < 0 || i >= ps.len() {
        None
    } else if ps[i].id@ == id {
        Some(i as usize)
    } else {
        index_of_id(ps, id, i + 1)
    }
}

/// A segment that can be shown: its participant is known and its box is not empty.
pub open spec fn row_of(s: SpatialSegment, ps: Seq<Participant>) -> Option<Row> {
    if s.bounding_box.2 == 0 || s.bounding_box.3 == 0 {
        None
    } else {
        match index_of_id(ps, s.participant_id@, 0) {
            Some(i) => Some(
                Row { start: s.start_time, end: s.end_time, tile: (i, s.bounding_box) },
            ),
            None => None,
        }
    }
}

/// Some of the row lies behind the start of the output.
pub open spec fn is_ever_on(r: Row) -> bool {
    max_int(r.start as int, 0) < r.end
}

/// The rows of the segments that can be shown, in order.
pub open spec fn rows_of(segs: Seq<SpatialSegment>, ps: Seq<Participant>) -> Seq<Row>
    decreases segs.len(),
{
    if segs.len() == 0 {
        Seq::empty()
    } else {
        let before = rows_of(segs.drop_last(), ps);
        match row_of(segs.last(), ps) {
            Some(r) => if is_ever_on(r) {
                before.push(r)
            } else {
                before
            },
            None => before,
        }
    }
}

pub open spec fn by_start() -> spec_fn(Row) -> int {
    |r: Row| r.start as int
}

/// The part of a row that lies behind the start of the output.
pub open spec fn begun(r: Row) -> Row {
    Row {
        start: if r.start < 0 {
            0
        } else {
            r.start
        },
        ..r
    }
}

/// Less than a microsecond apart.
pub open spec fn is_near(a: int, b: int) -> bool {
    -TOLERANCE < a - b < TOLERANCE
}

/// Two rows begin and end less than a microsecond apart.
pub open spec fn are_near(a: Row, b: Row) -> bool {
    is_near(a.start as int, b.start as int) && is_near(a.end as int, b.end as int)
}

/// The rows from the start of the output on. One that is near the row before begins and ends
/// as that one does.
pub open spec fn snapped(rows: Seq<Row>) -> Seq<Row>
    decreases rows.len(),
{
    if rows.len() == 0 {
        Seq::empty()
    } else {
        let before = snapped(rows.drop_last());
        let r = begun(rows.last());
        if before.len() > 0 && are_near(before.last(), r) {
            before.push(Row { tile: r.tile, ..before.last() })
        } else {
            before.push(r)
        }
    }
}

/// The rows of the segments that can be shown, in order of their start. Later ones are laid
/// over earlier ones.
pub open spec fn sorted_rows(segs: Seq<SpatialSegment>, ps: Seq<Participant>) -> Seq<Row> {
    sorted_by(rows_of(segs, ps), by_start())
}

/// The rows as they are shown.
pub open spec fn shown_rows(segs: Seq<SpatialSegment>, ps: Seq<Participant>) -> Seq<Row> {
    snapped(sorted_rows(segs, ps))
}

/// The tiles of the rows that hold `t`.
pub open spec fn tiles_at(rows: Seq<Row>, t: int) -> Seq<(usize, (u32, u32, u32, u32))>
    decreases rows.len(),
{
    if rows.len() == 0 {
        Seq::empty()
    } else if rows.last().start <= t < rows.last().end {
        tiles_at(rows.drop_last(), t).push(rows.last().tile)
    } else {
        tiles_at(rows.drop_last(), t)
    }
}

/// A time within `[0, end]`.
pub open spec fn clipped(t: int, end: int) -> int {
    max_int(min_int(t, end), 0)
}

/// The bounds of the output and of the rows, within the output.
pub open spec fn marks_of(rows: Seq<Row>, end: int) -> Seq<int>
    decreases rows.len(),
{
    if rows.len() == 0 {
        seq![0, end]
    } else {
        marks_of(rows.drop_last(), end).push(clipped(rows.last().start as int, end)).push(
            clipped(rows.last().end as int, end),
        )
    }
}

/// The least of the marks that are greater than `t`.
pub open spec fn next_after(marks: Seq<int>, t: int) -> Option<int>
    decreases marks.len(),
{
    if marks.len() == 0 {
        None
    } else {
        let m = marks.last();
        match next_after(marks.drop_last(), t) {
            Some(n) => if t < m < n {
                Some(m)
            } else {
                Some(n)
            },
            None => if t < m {
                Some(m)
            } else {
                None
            },
        }
    }
}

/// The moments from `t` on at which something may change: `t` and all later marks.
pub open spec fn cuts_from(marks: Seq<int>, t: int, end: int) -> Seq<int>
    decreases end - t,
{
    match next_after(marks, t) {
        Some(n) => if t < n <= end {
            seq![t] + cuts_from(marks, n, end)
        } else {
            seq![t]
        },
        None => seq![t],
    }
}

/// What is on screen between each two cuts.
pub open spec fn pieces_of(rows: Seq<Row>, cuts: Seq<int>) -> Seq<Span> {
    Seq::new(
        (cuts.len() - 1) as nat,
        |i: int| Span { start: cuts[i], end: cuts[i + 1], tiles: tiles_at(rows, cuts[i]) },
    )
}

/// The spans with each row of equal ones made one.
pub open spec fn merged(pieces: Seq<Span>) -> Seq<Span>
    decreases pieces.len(),
{
    if pieces.len() == 0 {
        Seq::empty()
    } else {
        let before = merged(pieces.drop_last());
        let p = pieces.last();
        if before.len() > 0 && before.last().tiles == p.tiles {
            before.drop_last().push(Span { end: p.end, ..before.last() })
        } else {
            before.push(p)
        }
    }
}

/// The maximal intervals of `[0, end)` over which the same rows are on screen.
pub open spec fn stretches(rows: Seq<Row>, end: int) -> Seq<Span> {
    if end <= 0 {
        Seq::empty()
    } else {
        merged(pieces_of(rows, cuts_from(marks_of(rows, end), 0, end)))
    }
}

/// Nothing to see, for a microsecond or less.
pub open spec fn is_sliver(s: Span) -> bool {
    s.tiles.len() == 0 && s.end - s.start <= TOLERANCE
}

/// The spans that are no slivers.
pub open spec fn without_slivers(w: Seq<Span>) -> Seq<Span>
    decreases w.len(),
{
    if w.len() == 0 {
        Seq::empty()
    } else {
        let before = without_slivers(w.drop_last());
        if is_sliver(w.last()) {
            before
        } else {
            before.push(w.last())
        }
    }
}

/// The windows of some rows over `[0, end)`.
pub open spec fn windows_over(rows: Seq<Row>, end: int) -> Seq<Span> {
    without_slivers(stretches(rows, end))
}

/// The windows over `[0, end)`.
pub open spec fn windows_of(
    segs: Seq<SpatialSegment>,
    ps: Seq<Participant>,
    end: int,
) -> Seq<Span> {
    windows_over(shown_rows(segs, ps), end)
}

fn find_id(ps: &[Participant], id: &String) -> (r: Option<usize>)
    ensures
        r == index_of_id(ps@, id@, 0),
        r matches Some(i) ==> i < ps@.len(),
{
    let mut i: usize = 0;
    while i < ps.len()
        invariant
            i <= ps@.len(),
            index_of_id(ps@, id@, 0) == index_of_id(ps@, id@, i as int),
        decreases ps@.len() - i,
    {
        if ps[i].id == *id {
            return Some(i);
        }
        i = i + 1;
    }
    None
}

/// The rows of the segments that can be shown, in order.
fn collect_rows(segs: &Vec<SpatialSegment>, ps: &[Participant]) -> (r: Vec<Row>)
    ensures
        r@ == rows_of(segs@, ps@),
{
    let mut rows: Vec<Row> = Vec::new();
    let mut i: usize = 0;
    while i < segs.len()
        invariant
            i <= segs@.len(),
            rows@ == rows_of(segs@.take(i as int), ps@),
        decreases segs@.len() - i,
    {
        let s = &segs[i];
        proof {
            assert(segs@.take(i + 1).drop_last() =~= segs@.take(i as int));
            assert(segs@.take(i + 1).last() == *s);
        }
        let b = s.bounding_box;
        if b.2 != 0 && b.3 != 0 {
            if let Some(pi) = find_id(ps, &s.participant_id) {
                if s.start_time < s.end_time && 0 < s.end_time {
                    rows.push(Row { start: s.start_time, end: s.end_time, tile: (pi, b) });
                }
            }
        }
        i = i + 1;
    }
    assert(segs@.take(i as int) =~= segs@);
    rows
}

/// The rows in order of their start.
fn sort_rows(rows: &Vec<Row>) -> (r: Vec<Row>)
    ensures
        r@ == sorted_by(rows@, by_start()),
{
    let mut keys: Vec<i128> = Vec::new();
    let mut i: usize = 0;
    while i < rows.len()
        invariant
            i <= rows@.len(),
            keys@.len() == i,
            forall|k: int| 0 <= k < i ==> #[trigger] keys@[k] == by_start()(rows@[k]),
        decreases rows@.len() - i,
    {
        keys.push(rows[i].start as i128);
        i = i + 1;
    }
    let order = sorted_positions(&keys);
    proof {
        lemma_order_of(rows@, keys@, by_start());
    }
    let ghost s = sorted_by(rows@, by_start());
    let mut out: Vec<Row> = Vec::new();
    let mut j: usize = 0;
    while j < order.len()
        invariant
            j <= order@.len(),
            order@.len() == rows@.len(),
            order@.map_values(|i: usize| rows@[i as int]) == s,
            forall|k: int| 0 <= k < order@.len() ==> #[trigger] order@[k] < rows@.len(),
            out@ == s.take(j as int),
        decreases order@.len() - j,
    {
        out.push(rows[order[j]]);
        assert(s[j as int] == rows@[order@[j as int] as int]);
        assert(s.take(j + 1) =~= s.take(j as int).push(s[j as int]));
        j = j + 1;
    }
    assert(s.take(j as int) =~= s);
    out
}

fn near(a: i64, b: i64) -> (r: bool)
    ensures
        r == is_near(a as int, b as int),
{
    let d: i128 = a as i128 - b as i128;
    -(TOLERANCE as i128) < d && d < TOLERANCE as i128
}

/// The rows from the start of the output on, with each that is near the one before made to
/// begin and end with it.
fn snap(rows: &Vec<Row>) -> (r: Vec<Row>)
    ensures
        r@ == snapped(rows@),
{
    let mut out: Vec<Row> = Vec::new();
    let mut i: usize = 0;
    assert(rows@.take(0) =~= Seq::<Row>::empty());
    while i < rows.len()
        invariant
            i <= rows@.len(),
            out@ == snapped(rows@.take(i as int)),
        decreases rows@.len() - i,
    {
        proof {
            assert(rows@.take(i + 1).drop_last() =~= rows@.take(i as int));
            assert(rows@.take(i + 1).last() == rows@[i as int]);
        }
        let start: i64 = if rows[i].start < 0 { 0 } else { rows[i].start };
        let r = Row { start, end: rows[i].end, tile: rows[i].tile };
        let n: usize = out.len();
        if n > 0 && near(out[n - 1].start, r.start) && near(out[n - 1].end, r.end) {
            let last = out[n - 1];
            out.push(Row { start: last.start, end: last.end, tile: r.tile });
        } else {
            out.push(r);
        }
        i = i + 1;
    }
    assert(rows@.take(i as int) =~= rows@);
    out
}

fn clip(t: i64, end: i64) -> (r: i64)
    requires
        end > 0,
    ensures
        r == clipped(t as int, end as int),
        0 <= r <= end,
{
    if t <= 0 {
        0
    } else if t >= end {
        end
    } else {
        t
    }
}

spec fn ints(v: Seq<i64>) -> Seq<int> {
    v.map_values(|x: i64| x as int)
}

fn collect_marks(rows: &Vec<Row>, end: i64) -> (r: Vec<i64>)
    requires
        end > 0,
    ensures
        ints(r@) == marks_of(rows@, end as int),
        forall|k: int| 0 <= k < r@.len() ==> 0 <= #[trigger] r@[k] <= end,
{
    let mut out: Vec<i64> = Vec::new();
    out.push(0);
    out.push(end);
    let mut i: usize = 0;
    assert(ints(out@) =~= marks_of(rows@.take(0), end as int));
    while i < rows.len()
        invariant
            i <= rows@.len(),
            end > 0,
            ints(out@) == marks_of(rows@.take(i as int), end as int),
            forall|k: int| 0 <= k < out@.len() ==> 0 <= #[trigger] out@[k] <= end,
        decreases rows@.len() - i,
    {
        let ghost before = out@;
        proof {
            assert(rows@.take(i + 1).drop_last() =~= rows@.take(i as int));
            assert(rows@.take(i + 1).last() == rows@[i as int]);
        }
        let a: i64 = clip(rows[i].start, end);
        let b: i64 = clip(rows[i].end, end);
        out.push(a);
        out.push(b);
        assert(ints(out@) =~= ints(before).push(a as int).push(b as int));
        i = i + 1;
    }
    assert(rows@.take(i as int) =~= rows@);
    out
}

fn find_next(marks: &Vec<i64>, t: i64) -> (r: Option<i64>)
    requires
        0 <= t,
    ensures
        r is Some <==> next_after(ints(marks@), t as int) is Some,
        r matches Some(n) ==> next_after(ints(marks@), t as int) == Some(n as int) && t < n,
{
    let ghost all = ints(marks@);
    let mut best: Option<i64> = None;
    let mut i: usize = 0;
    while i < marks.len()
        invariant
            i <= marks@.len(),
            all == ints(marks@),
            0 <= t,
            best is Some <==> next_after(all.take(i as int), t as int) is Some,
            best matches Some(n) ==> next_after(all.take(i as int), t as int) == Some(n as int)
                && t < n,
        decreases marks@.len() - i,
    {
        let m: i64 = marks[i];
        proof {
            assert(all.take(i + 1).drop_last() =~= all.take(i as int));
            assert(all.take(i + 1).last() == m);
        }
        if m > t {
            let less = match best {
                Some(n) => m < n,
                None => true,
            };
            if less {
                best = Some(m);
            }
        }
        i = i + 1;
    }
    assert(all.take(i as int) =~= all);
    best
}

fn find_cuts(marks: &Vec<i64>, end: i64) -> (r: Vec<i64>)
    requires
        end > 0,
        forall|k: int| 0 <= k < marks@.len() ==> 0 <= #[trigger] marks@[k] <= end,
    ensures
        ints(r@) == cuts_from(ints(marks@), 0, end as int),
        r@.len() > 0,
{
    let ghost all = ints(marks@);
    let mut out: Vec<i64> = Vec::new();
    let mut t: i64 = 0;
    let mut more = true;
    assert(ints(out@) + cuts_from(all, 0, end as int) =~= cuts_from(all, 0, end as int));
    while more
        invariant
            0 <= t <= end,
            all == ints(marks@),
            forall|k: int| 0 <= k < marks@.len() ==> 0 <= #[trigger] marks@[k] <= end,
            more ==> ints(out@) + cuts_from(all, t as int, end as int) == cuts_from(
                all,
                0,
                end as int,
            ),
            !more ==> ints(out@) == cuts_from(all, 0, end as int) && out@.len() > 0,
        decreases
                end - t,
                if more {
                    1int
                } else {
                    0
                },
    {
        let ghost before = out@;
        let ghost rest = cuts_from(all, t as int, end as int);
        let next = find_next(marks, t);
        out.push(t);
        assert(ints(out@) =~= ints(before).push(t as int));
        match next {
            Some(n) => {
                proof {
                    lemma_next_after(all, t as int);
                    let k = choose|k: int| 0 <= k < all.len() && #[trigger] all[k] == n;
                    assert(marks@[k] == n);
                    let later = cuts_from(all, n as int, end as int);
                    assert(rest == seq![t as int] + later);
                    assert(ints(before) + (seq![t as int] + later) =~= ints(out@) + later);
                }
                t = n;
            },
            None => {
                assert(rest == seq![t as int]);
                assert(ints(before) + seq![t as int] =~= ints(out@));
                more = false;
            },
        }
    }
    out
}

fn on_screen_tiles(rows: &Vec<Row>, t: i64) -> (r: Vec<(usize, (u32, u32, u32, u32))>)
    ensures
        r@ == tiles_at(rows@, t as int),
{
    let mut out: Vec<(usize, (u32, u32, u32, u32))> = Vec::new();
    let mut i: usize = 0;
    while i < rows.len()
        invariant
            i <= rows@.len(),
            out@ == tiles_at(rows@.take(i as int), t as int),
        decreases rows@.len() - i,
    {
        proof {
            assert(rows@.take(i + 1).drop_last() =~= rows@.take(i as int));
            assert(rows@.take(i + 1).last() == rows@[i as int]);
        }
        if rows[i].start <= t && t < rows[i].end {
            out.push(rows[i].tile);
        }
        i = i + 1;
    }
    assert(rows@.take(i as int) =~= rows@);
    out
}

fn same_tiles(
    a: &Vec<(usize, (u32, u32, u32, u32))>,
    b: &Vec<(usize, (u32, u32, u32, u32))>,
) -> (r: bool)
    ensures
        r == (a@ == b@),
{
    if a.len() != b.len() {
        return false;
    }
    let mut i: usize = 0;
    while i < a.len()
        invariant
            i <= a@.len(),
            a@.len() == b@.len(),
            forall|k: int| 0 <= k < i ==> #[trigger] a@[k] == b@[k],
        decreases a@.len() - i,
    {
        let (p, (x, y, w, h)) = a[i];
        let (q, (x2, y2, w2, h2)) = b[i];
        if p != q || x != x2 || y != y2 || w != w2 || h != h2 {
            assert(a@[i as int] != b@[i as int]);
            return false;
        }
        i = i + 1;
    }
    assert(a@ =~= b@);
    true
}

/// Lays a window behind the others: the last one is made longer if it shows the same.
fn lay(out: &mut Vec<Window>, w: Window)
    ensures
        spans(final(out)@) == (if spans(old(out)@).len() > 0 && spans(old(out)@).last().tiles
            == w@.tiles {
            spans(old(out)@).drop_last().push(Span { end: w@.end, ..spans(old(out)@).last() })
        } else {
            spans(old(out)@).push(w@)
        }),
{
    let n: usize = out.len();
    let ghost before = out@;
    if n > 0 {
        assert(spans(before).last() == before[n - 1]@);
    }
    if n > 0 && same_tiles(&out[n - 1].tiles, &w.tiles) {
        if let Some(mut last) = out.pop() {
            assert(spans(out@) =~= spans(before).drop_last());
            last.end = w.end;
            let ghost shorter = out@;
            out.push(last);
            assert(spans(out@) =~= spans(shorter).push(last@));
        }
    } else {
        out.push(w);
        assert(spans(out@) =~= spans(before).push(w@));
    }
}

/// The maximal intervals of `[0, end)` over which the same rows are on screen.
fn find_stretches(rows: &Vec<Row>, end: i64) -> (r: Vec<Window>)
    ensures
        spans(r@) == stretches(rows@, end as int),
{
    let mut out: Vec<Window> = Vec::new();
    if end <= 0 {
        assert(spans(out@) =~= Seq::<Span>::empty());
        return out;
    }
    let marks = collect_marks(rows, end);
    let cuts = find_cuts(&marks, end);
    let ghost at = ints(cuts@);
    let ghost pieces = pieces_of(rows@, at);
    let mut i: usize = 0;
    assert(spans(out@) =~= merged(pieces.take(0)));
    while i < cuts.len() - 1
        invariant
            i <= cuts@.len() - 1,
            at == ints(cuts@),
            pieces == pieces_of(rows@, at),
            spans(out@) == merged(pieces.take(i as int)),
        decreases cuts@.len() - i,
    {
        let w = Window { start: cuts[i], end: cuts[i + 1], tiles: on_screen_tiles(rows, cuts[i]) };
        proof {
            assert(at[i as int] == cuts@[i as int] && at[i + 1] == cuts@[i + 1]);
            assert(w@ =~= pieces[i as int]);
            assert(pieces.take(i + 1).drop_last() =~= pieces.take(i as int));
            assert(pieces.take(i + 1).last() == w@);
        }
        lay(&mut out, w);
        i = i + 1;
    }
    assert(pieces.take(i as int) =~= pieces);
    out
}

/// The windows that are no slivers.
fn drop_slivers(all: &Vec<Window>) -> (r: Vec<Window>)
    ensures
        spans(r@) == without_slivers(spans(all@)),
{
    let ghost w = spans(all@);
    let mut out: Vec<Window> = Vec::new();
    let mut i: usize = 0;
    assert(spans(out@) =~= without_slivers(w.take(0)));
    while i < all.len()
        invariant
            i <= all@.len(),
            w == spans(all@),
            spans(out@) == without_slivers(w.take(i as int)),
        decreases all@.len() - i,
    {
        let x = &all[i];
        proof {
            assert(w.take(i + 1).drop_last() =~= w.take(i as int));
            assert(w.take(i + 1).last() == x@);
        }
        if x.tiles.len() > 0 || x.end as i128 - x.start as i128 > TOLERANCE as i128 {
            let ghost before = out@;
            let mut tiles: Vec<(usize, (u32, u32, u32, u32))> = Vec::new();
            let mut k: usize = 0;
            while k < x.tiles.len()
                invariant
                    k <= x.tiles@.len(),
                    tiles@ == x.tiles@.take(k as int),
                decreases x.tiles@.len() - k,
            {
                tiles.push(x.tiles[k]);
                assert(x.tiles@.take(k + 1) =~= x.tiles@.take(k as int).push(x.tiles@[k as int]));
                k = k + 1;
            }
            assert(tiles@ =~= x.tiles@);
            let y = Window { start: x.start, end: x.end, tiles };
            out.push(y);
            assert(y@ =~= x@);
            assert(spans(out@) =~= spans(before).push(x@));
        }
        i = i + 1;
    }
    assert(w.take(i as int) =~= w);
    out
}

/// Cuts the timeline into windows over `[0, end)`, each a maximal interval over which the
/// visible tiles are the same: gaps such as the intro become windows without tiles, and
/// everything is clipped to `end`. Segments of unknown participants and with empty boxes
/// are left out, and so are gaps of a microsecond or less.
pub fn build_windows(timeline: &LayoutTimeline, participants: &[Participant], end: i64) -> (r: Vec<
    Window,
>)
    ensures
        spans(r@) == windows_of(timeline.segments@, participants@, end as int),
        forall|k: int, t: int|
            0 <= k < r@.len() && 0 <= t < r@[k].tiles@.len() ==> (
            #[trigger] r@[k].tiles@[t]).0 < participants@.len(),
{
    let rows = snap(&sort_rows(&collect_rows(&timeline.segments, participants)));
    let all = find_stretches(&rows, end);
    let out = drop_slivers(&all);
    proof {
        assert(participants.len() == participants@.len());
        lemma_tiles_are_known(timeline.segments@, participants@, end as int);
        assert forall|k: int, t: int| 0 <= k < out@.len() && 0 <= t < out@[k].tiles@.len() implies (
        #[trigger] out@[k].tiles@[t]).0 < participants@.len() by {
            assert(spans(out@)[k] == out@[k]@);
            let w = windows_of(timeline.segments@, participants@, end as int)[k];
            assert(w.tiles[t].0 < participants@.len());
        }
    }
    out
}

proof fn lemma_next_after(marks: Seq<int>, t: int)
    ensures
        match next_after(marks, t) {
            Some(n) => {
                &&& t < n
                &&& exists|k: int| 0 <= k < marks.len() && #[trigger] marks[k] == n
                &&& forall|k: int| 0 <= k < marks.len() && t < #[trigger] marks[k] ==> n <= marks[k]
            },
            None => forall|k: int| 0 <= k < marks.len() ==> #[trigger] marks[k] <= t,
        },
    decreases marks.len(),
{
    if marks.len() > 0 {
        let less = marks.drop_last();
        lemma_next_after(less, t);
        let last = marks.len() - 1;
        assert forall|k: int| 0 <= k < last implies #[trigger] marks[k] == less[k] by {}
        match next_after(marks, t) {
            Some(n) => {
                if n == marks.last() {
                    assert(marks[last] == n);
                } else {
                    let k = choose|k: int| 0 <= k < less.len() && #[trigger] less[k] == n;
                    assert(marks[k] == n);
                }
                assert forall|k: int| 0 <= k < marks.len() && t < #[trigger] marks[k] implies n
                    <= marks[k] by {
                    if k < last {
                        assert(t < less[k]);
                    }
                }
            },
            None => {
                assert forall|k: int| 0 <= k < marks.len() implies #[trigger] marks[k] <= t by {
                    if k < last {
                        assert(less[k] <= t);
                    }
                }
            },
        }
    }
}

/// A mark is a bound of the output or a bound of a row.
spec fn is_bound(rows: Seq<Row>, end: int, m: int) -> bool {
    m == 0 || m == end || exists|i: int|
        0 <= i < rows.len() && (clipped((#[trigger] rows[i]).start as int, end) == m || clipped(
            rows[i].end as int,
            end,
        ) == m)
}

/// Marks of an output: both its ends, and nothing outside of it.
spec fn are_marks(marks: Seq<int>, end: int) -> bool {
    &&& marks.contains(0)
    &&& marks.contains(end)
    &&& forall|k: int| 0 <= k < marks.len() ==> 0 <= #[trigger] marks[k] <= end
}

proof fn lemma_marks(rows: Seq<Row>, end: int)
    requires
        end > 0,
    ensures
        are_marks(marks_of(rows, end), end),
        forall|k: int|
            0 <= k < marks_of(rows, end).len() ==> is_bound(
                rows,
                end,
                #[trigger] marks_of(rows, end)[k],
            ),
        forall|i: int|
            0 <= i < rows.len() ==> marks_of(rows, end).contains(
                clipped((#[trigger] rows[i]).start as int, end),
            ) && marks_of(rows, end).contains(clipped(rows[i].end as int, end)),
    decreases rows.len(),
{
    let all = marks_of(rows, end);
    if rows.len() == 0 {
        assert(all[0] == 0 && all[1] == end);
    } else {
        let less = rows.drop_last();
        let before = marks_of(less, end);
        lemma_marks(less, end);
        let n = before.len() as int;
        let r = rows.last();
        assert(all[n] == clipped(r.start as int, end) && all[n + 1] == clipped(r.end as int, end));
        assert forall|x: int| #[trigger] before.contains(x) implies all.contains(x) by {
            let k = choose|k: int| 0 <= k < before.len() && before[k] == x;
            assert(all[k] == x);
        }
        assert forall|k: int| 0 <= k < all.len() implies 0 <= #[trigger] all[k] <= end && is_bound(
            rows,
            end,
            all[k],
        ) by {
            if k < n {
                assert(all[k] == before[k]);
                assert(is_bound(less, end, before[k]));
                let m = before[k];
                if m != 0 && m != end {
                    let i = choose|i: int|
                        0 <= i < less.len() && (clipped((#[trigger] less[i]).start as int, end) == m
                            || clipped(less[i].end as int, end) == m);
                    assert(rows[i] == less[i]);
                }
            } else {
                assert(rows[rows.len() - 1] == r);
            }
        }
        assert forall|i: int| 0 <= i < rows.len() implies all.contains(
            clipped((#[trigger] rows[i]).start as int, end),
        ) && all.contains(clipped(rows[i].end as int, end)) by {
            if i < rows.len() - 1 {
                assert(less[i] == rows[i]);
                assert(before.contains(clipped(less[i].start as int, end)));
                assert(before.contains(clipped(less[i].end as int, end)));
            }
        }
    }
}

/// Strictly ascending.
spec fn is_rising(cuts: Seq<int>) -> bool {
    forall|i: int, j: int| 0 <= i < j < cuts.len() ==> #[trigger] cuts[i] < #[trigger] cuts[j]
}

proof fn lemma_cuts(marks: Seq<int>, t: int, end: int)
    requires
        are_marks(marks, end),
        0 <= t <= end,
    ensures
        ({
            let c = cuts_from(marks, t, end);
            &&& c.len() >= 1
            &&& c[0] == t
            &&& c.last() == end
            &&& is_rising(c)
            &&& forall|k: int| 0 <= k < marks.len() && t <= marks[k] ==> c.contains(#[trigger] marks[k])
        }),
    decreases end - t,
{
    let c = cuts_from(marks, t, end);
    lemma_next_after(marks, t);
    let e = choose|e: int| 0 <= e < marks.len() && marks[e] == end;
    if t == end {
        match next_after(marks, t) {
            Some(n) => {
                let k = choose|k: int| 0 <= k < marks.len() && #[trigger] marks[k] == n;
                assert(false);
            },
            None => {},
        }
        assert(c == seq![t]);
        assert(c[0] == t);
    } else {
        assert(marks[e] > t);
        let n = next_after(marks, t)->0;
        let at = choose|at: int| 0 <= at < marks.len() && #[trigger] marks[at] == n;
        lemma_cuts(marks, n, end);
        let d = cuts_from(marks, n, end);
        assert(c == seq![t] + d);
        assert forall|i: int| 0 < i < c.len() implies #[trigger] c[i] == d[i - 1] by {}
        assert(c.last() == d.last());
        assert forall|i: int, j: int| 0 <= i < j < c.len() implies #[trigger] c[i]
            < #[trigger] c[j] by {
            assert(c[j] == d[j - 1]);
            if i > 0 {
                assert(c[i] == d[i - 1]);
            } else if j > 1 {
                assert(d[0] < d[j - 1]);
            }
        }
        assert forall|k: int| 0 <= k < marks.len() && t <= marks[k] implies c.contains(
            #[trigger] marks[k],
        ) by {
            let m = marks[k];
            if m == t {
                assert(c[0] == m);
            } else {
                assert(n <= m);
                let i = choose|i: int| 0 <= i < d.len() && d[i] == m;
                assert(c[i + 1] == m);
            }
        }
    }
}

/// The cuts over `[0, end)`.
spec fn cuts_over(rows: Seq<Row>, end: int) -> Seq<int> {
    cuts_from(marks_of(rows, end), 0, end)
}

/// Between two cuts no row begins or ends.
proof fn lemma_between(rows: Seq<Row>, end: int, i: int, m: int)
    requires
        end > 0,
        marks_of(rows, end).contains(m),
        0 <= i < cuts_over(rows, end).len() - 1,
        cuts_over(rows, end)[i] < m,
    ensures
        cuts_over(rows, end)[i + 1] <= m,
{
    let marks = marks_of(rows, end);
    let c = cuts_over(rows, end);
    lemma_marks(rows, end);
    lemma_cuts(marks, 0, end);
    let k = choose|k: int| 0 <= k < marks.len() && marks[k] == m;
    assert(c.contains(marks[k]));
    let j = choose|j: int| 0 <= j < c.len() && c[j] == m;
    if j < i {
        assert(c[j] < c[i]);
    } else if i + 1 < j {
        assert(c[i + 1] < c[j]);
    }
}

proof fn lemma_tiles_agree(rows: Seq<Row>, t: int, u: int)
    requires
        forall|i: int|
            0 <= i < rows.len() ==> ((#[trigger] rows[i]).start <= t < rows[i].end <==> rows[i].start
                <= u < rows[i].end),
    ensures
        tiles_at(rows, t) == tiles_at(rows, u),
    decreases rows.len(),
{
    if rows.len() > 0 {
        let less = rows.drop_last();
        assert forall|i: int| 0 <= i < less.len() implies ((#[trigger] less[i]).start <= t
            < less[i].end <==> less[i].start <= u < less[i].end) by {
            assert(less[i] == rows[i]);
        }
        lemma_tiles_agree(less, t, u);
        assert(rows[rows.len() - 1] == rows.last());
    }
}

/// Spans that follow one another without a gap, none of them empty.
spec fn is_chain(w: Seq<Span>) -> bool {
    &&& forall|k: int| 0 <= k < w.len() ==> (#[trigger] w[k]).start < w[k].end
    &&& forall|j: int, k: int|
        0 <= j && k == j + 1 && k < w.len() ==> (#[trigger] w[j]).end == (#[trigger] w[k]).start
}

/// No two neighbours show the same.
spec fn neighbours_differ(w: Seq<Span>) -> bool {
    forall|j: int, k: int|
        0 <= j && k == j + 1 && k < w.len() ==> (#[trigger] w[j]).tiles != (#[trigger] w[k]).tiles
}

/// The tiles of the last span that begins at `t` or before.
spec fn shown_at(w: Seq<Span>, t: int) -> Seq<(usize, (u32, u32, u32, u32))>
    decreases w.len(),
{
    if w.len() == 0 {
        Seq::empty()
    } else if w.last().start <= t {
        w.last().tiles
    } else {
        shown_at(w.drop_last(), t)
    }
}

proof fn lemma_chain_less(w: Seq<Span>)
    requires
        is_chain(w),
        w.len() > 0,
    ensures
        is_chain(w.drop_last()),
{
    let v = w.drop_last();
    assert forall|k: int| 0 <= k < v.len() implies (#[trigger] v[k]).start
        < v[k].end by {
        assert(v[k] == w[k]);
    }
    assert forall|j: int, k: int| 0 <= j && k == j + 1 && k < v.len() implies (#[trigger] v[j]).end
        == (#[trigger] v[k]).start by {
        assert(v[j] == w[j] && v[k] == w[k]);
    }
}

proof fn lemma_chain_order(w: Seq<Span>, j: int, k: int)
    requires
        is_chain(w),
        0 <= j < k < w.len(),
    ensures
        w[j].end <= w[k].start,
    decreases k - j,
{
    assert(w[k - 1].end == w[k].start);
    if j < k - 1 {
        lemma_chain_order(w, j, k - 1);
        assert(w[k - 1].start < w[k - 1].end);
    }
}

proof fn lemma_shown_in(w: Seq<Span>, k: int, t: int)
    requires
        is_chain(w),
        0 <= k < w.len(),
        w[k].start <= t < w[k].end,
    ensures
        shown_at(w, t) == w[k].tiles,
    decreases w.len(),
{
    let last = w.len() - 1;
    if k < last {
        lemma_chain_order(w, k, last);
        lemma_chain_less(w);
        lemma_shown_in(w.drop_last(), k, t);
    }
}

proof fn lemma_merged(p: Seq<Span>)
    requires
        is_chain(p),
    ensures
        is_chain(merged(p)),
        merged(p).len() > 0 <==> p.len() > 0,
        p.len() > 0 ==> merged(p)[0].start == p[0].start && merged(p).last().end == p.last().end,
        neighbours_differ(merged(p)),
    decreases p.len(),
{
    if p.len() > 0 {
        let q = p.drop_last();
        let s = p.last();
        lemma_chain_less(p);
        lemma_merged(q);
        let (b, m) = (merged(q), merged(p));
        let n = p.len() as int;
        assert(p[n - 1] == s);
        if n > 1 {
            assert(p[n - 2].end == p[n - 1].start);
            assert(q.last() == p[n - 2]);
            assert(q[0] == p[0]);
            assert(b[b.len() - 1].start < b[b.len() - 1].end);
        }
        assert forall|k: int| 0 <= k < m.len() implies (#[trigger] m[k]).start
            < m[k].end by {
            if k < b.len() && k < m.len() - 1 {
                assert(m[k] == b[k]);
            }
        }
        assert forall|j: int, k: int|
            0 <= j && k == j + 1 && k < m.len() implies (#[trigger] m[j]).end == (
        #[trigger] m[k]).start && m[j].tiles != m[k].tiles by {
            assert(m[j] == b[j]);
            if k < b.len() {
                assert(b[j].end == b[k].start && b[j].tiles != b[k].tiles);
            } else {
                assert(b[j] == b.last());
            }
        }
    }
}

proof fn lemma_merged_shows(p: Seq<Span>, t: int)
    requires
        is_chain(p),
    ensures
        shown_at(merged(p), t) == shown_at(p, t),
    decreases p.len(),
{
    if p.len() > 0 {
        let q = p.drop_last();
        let (b, m) = (merged(q), merged(p));
        lemma_chain_less(p);
        lemma_merged(q);
        lemma_merged_shows(q, t);
        let n = p.len() as int;
        if b.len() > 0 && b.last().tiles == p.last().tiles {
            assert(m.drop_last() =~= b.drop_last());
            assert(p[n - 2].end == p[n - 1].start);
            assert(q.last() == p[n - 2]);
            assert(b[b.len() - 1].start < b[b.len() - 1].end);
        } else {
            assert(m.drop_last() =~= b);
        }
    }
}

proof fn lemma_pieces(rows: Seq<Row>, end: int)
    requires
        end > 0,
    ensures
        ({
            let p = pieces_of(rows, cuts_over(rows, end));
            &&& is_chain(p)
            &&& p.len() == cuts_over(rows, end).len() - 1
            &&& p.len() > 0
            &&& p[0].start == 0
            &&& p.last().end == end
        }),
{
    let c = cuts_over(rows, end);
    let p = pieces_of(rows, c);
    lemma_marks(rows, end);
    lemma_cuts(marks_of(rows, end), 0, end);
    assert forall|k: int| 0 <= k < p.len() implies (#[trigger] p[k]).start < p[k].end by {
        assert(c[k] < c[k + 1]);
    }
}

proof fn lemma_piece_at(p: Seq<Span>, t: int) -> (i: int)
    requires
        is_chain(p),
        p.len() > 0,
        p[0].start <= t < p.last().end,
    ensures
        0 <= i < p.len(),
        p[i].start <= t < p[i].end,
    decreases p.len(),
{
    let n = p.len() as int;
    if p.last().start <= t {
        n - 1
    } else {
        assert(p[n - 2].end == p[n - 1].start);
        lemma_chain_less(p);
        lemma_piece_at(p.drop_last(), t)
    }
}

/// The stretches cover `[0, end)`, each to its neighbours, which show something else.
proof fn lemma_stretches(rows: Seq<Row>, end: int)
    ensures
        ({
            let m = stretches(rows, end);
            &&& is_chain(m)
            &&& neighbours_differ(m)
            &&& m.len() > 0 <==> end > 0
            &&& m.len() > 0 ==> m[0].start == 0 && m.last().end == end
            &&& forall|k: int|
                0 <= k < m.len() ==> 0 <= (#[trigger] m[k]).start && m[k].end <= end
        }),
{
    if end > 0 {
        let m = stretches(rows, end);
        lemma_pieces(rows, end);
        lemma_merged(pieces_of(rows, cuts_over(rows, end)));
        assert forall|k: int| 0 <= k < m.len() implies 0 <= (#[trigger] m[k]).start && m[k].end
            <= end by {
            if k > 0 {
                lemma_chain_order(m, 0, k);
                assert(m[0].start < m[0].end);
            }
            if k < m.len() - 1 {
                lemma_chain_order(m, k, m.len() - 1);
                assert(m[m.len() - 1].start < m[m.len() - 1].end);
            }
        }
    }
}

/// A stretch shows what is on screen at each of its moments.
proof fn lemma_stretch_is_exact(rows: Seq<Row>, end: int, k: int, t: int)
    requires
        0 <= k < stretches(rows, end).len(),
        stretches(rows, end)[k].start <= t < stretches(rows, end)[k].end,
    ensures
        stretches(rows, end)[k].tiles == tiles_at(rows, t),
{
    let c = cuts_over(rows, end);
    let p = pieces_of(rows, c);
    let m = stretches(rows, end);
    lemma_stretches(rows, end);
    lemma_pieces(rows, end);
    lemma_marks(rows, end);
    assert(0 <= m[k].start && m[k].end <= end);
    let i = lemma_piece_at(p, t);
    lemma_merged_shows(p, t);
    lemma_merged(p);
    lemma_shown_in(m, k, t);
    lemma_shown_in(p, i, t);
    lemma_cuts(marks_of(rows, end), 0, end);
    assert(c[i + 1] <= end) by {
        if i + 1 < c.len() - 1 {
            assert(c[i + 1] < c[c.len() - 1]);
        }
    }
    assert(0 <= c[i]) by {
        if i > 0 {
            assert(c[0] < c[i]);
        }
    }
    assert forall|j: int| 0 <= j < rows.len() implies ((#[trigger] rows[j]).start <= c[i]
        < rows[j].end <==> rows[j].start <= t < rows[j].end) by {
        let (a, b) = (clipped(rows[j].start as int, end), clipped(rows[j].end as int, end));
        if c[i] < a {
            lemma_between(rows, end, i, a);
        }
        if c[i] < b {
            lemma_between(rows, end, i, b);
        }
    }
    lemma_tiles_agree(rows, c[i], t);
}

/// What stays without slivers comes from the spans, and everything else stays.
proof fn lemma_without_slivers(m: Seq<Span>)
    ensures
        forall|k: int|
            0 <= k < without_slivers(m).len() ==> m.contains(#[trigger] without_slivers(m)[k])
                && !is_sliver(without_slivers(m)[k]),
        forall|j: int|
            0 <= j < m.len() && !is_sliver(#[trigger] m[j]) ==> without_slivers(m).contains(m[j]),
    decreases m.len(),
{
    if m.len() > 0 {
        let q = m.drop_last();
        lemma_without_slivers(q);
        let (v, w) = (without_slivers(q), without_slivers(m));
        assert forall|k: int| 0 <= k < w.len() implies m.contains(#[trigger] w[k]) && !is_sliver(
            w[k],
        ) by {
            if k < v.len() {
                assert(w[k] == v[k]);
                assert(q.contains(v[k]));
                let j = choose|j: int| 0 <= j < q.len() && q[j] == v[k];
                assert(m[j] == w[k]);
            } else {
                assert(m[m.len() - 1] == w[k]);
            }
        }
        assert forall|j: int| 0 <= j < m.len() && !is_sliver(#[trigger] m[j]) implies w.contains(
            m[j],
        ) by {
            if j < q.len() {
                assert(q[j] == m[j]);
                let k = choose|k: int| 0 <= k < v.len() && v[k] == m[j];
                assert(w[k] == m[j]);
            } else {
                assert(w[w.len() - 1] == m[j]);
            }
        }
    }
}

/// Spans that follow one another with gaps of a microsecond at most between them, and
/// without overlap.
pub open spec fn is_close_row(w: Seq<Span>) -> bool {
    forall|j: int, k: int|
        0 <= j && k == j + 1 && k < w.len() ==> (#[trigger] w[j]).end <= (#[trigger] w[k]).start
            <= w[j].end + TOLERANCE
}

/// Each span that begins where the one before ends shows something else.
pub open spec fn changes_where_it_meets(w: Seq<Span>) -> bool {
    forall|j: int, k: int|
        0 <= j && k == j + 1 && k < w.len() && (#[trigger] w[j]).end == (#[trigger] w[k]).start
            ==> w[j].tiles != w[k].tiles
}

/// Where slivers were, gaps of their length are.
proof fn lemma_gaps(m: Seq<Span>)
    requires
        is_chain(m),
        neighbours_differ(m),
        m.len() > 0,
    ensures
        ({
            let w = without_slivers(m);
            &&& is_close_row(w)
            &&& changes_where_it_meets(w)
            &&& w.len() == 0 ==> m.last().end - m[0].start <= TOLERANCE
            &&& w.len() > 0 ==> m[0].start <= w[0].start <= m[0].start + TOLERANCE && w.last().end
                <= m.last().end <= w.last().end + TOLERANCE
            &&& w.len() == 0 ==> m.len() == 1
            &&& !is_sliver(m.last()) ==> w.len() > 0 && w.last() == m.last()
        }),
    decreases m.len(),
{
    let q = m.drop_last();
    let s = m.last();
    let n = m.len() as int;
    let (v, w) = (without_slivers(q), without_slivers(m));
    assert(m[n - 1] == s);
    assert(m[n - 1].start < m[n - 1].end);
    if n > 1 {
        lemma_chain_less(m);
        assert(neighbours_differ(q)) by {
            assert forall|j: int, k: int| 0 <= j && k == j + 1 && k < q.len() implies (
            #[trigger] q[j]).tiles != (#[trigger] q[k]).tiles by {
                assert(q[j] == m[j] && q[k] == m[k]);
            }
        }
        lemma_gaps(q);
        assert(q[0] == m[0]);
        assert(q.last() == m[n - 2]);
        assert(m[n - 2].end == m[n - 1].start && m[n - 2].tiles != m[n - 1].tiles);
        if is_sliver(s) {
            assert(!is_sliver(q.last())) by {
                if q.last().tiles.len() == 0 {
                    assert(q.last().tiles =~= s.tiles);
                }
            }
        } else {
            assert forall|j: int, k: int| 0 <= j && k == j + 1 && k < w.len() implies (
            #[trigger] w[j]).end <= (#[trigger] w[k]).start <= w[j].end + TOLERANCE && (w[j].end
                == w[k].start ==> w[j].tiles != w[k].tiles) by {
                assert(w[j] == v[j]);
                if k < v.len() {
                    assert(w[k] == v[k]);
                } else {
                    assert(v[j] == v.last());
                    if v.last().end == s.start {
                        lemma_ends_with(q);
                    }
                }
            }
        }
    } else {
        assert(q =~= Seq::<Span>::empty());
        assert(v =~= Seq::<Span>::empty());
    }
}

/// What ends where the whole chain ends is its last span.
proof fn lemma_ends_with(m: Seq<Span>)
    requires
        is_chain(m),
        m.len() > 0,
        without_slivers(m).len() > 0,
        without_slivers(m).last().end == m.last().end,
    ensures
        without_slivers(m).last() == m.last(),
{
    let w = without_slivers(m);
    lemma_without_slivers(m);
    assert(m.contains(w[w.len() - 1]));
    let j = choose|j: int| 0 <= j < m.len() && m[j] == w.last();
    let n = m.len() - 1;
    if j < n {
        lemma_chain_order(m, j, n);
        assert(m[n].start < m[n].end);
    }
}

/// The windows lie in `[0, end)` one after the other, and cover it but for gaps of a
/// microsecond at most. None is empty, none is a gap of a microsecond or less, and one that
/// begins where the one before ends shows something else. There are none only if the output
/// is no longer than a microsecond.
pub proof fn law_windows_cover(segs: Seq<SpatialSegment>, ps: Seq<Participant>, end: int)
    ensures
        ({
            let w = windows_of(segs, ps, end);
            &&& forall|k: int|
                0 <= k < w.len() ==> 0 <= (#[trigger] w[k]).start < w[k].end <= end && !is_sliver(
                    w[k],
                )
            &&& is_close_row(w)
            &&& changes_where_it_meets(w)
            &&& w.len() > 0 ==> w[0].start <= TOLERANCE && end - TOLERANCE <= w.last().end
            &&& w.len() == 0 ==> end <= TOLERANCE
        }),
{
    let m = stretches(shown_rows(segs, ps), end);
    let w = windows_of(segs, ps, end);
    lemma_stretches(shown_rows(segs, ps), end);
    lemma_without_slivers(m);
    if end > 0 {
        lemma_gaps(m);
    }
    assert forall|k: int| 0 <= k < w.len() implies 0 <= (#[trigger] w[k]).start < w[k].end <= end
        && !is_sliver(w[k]) by {
        assert(m.contains(w[k]));
        let j = choose|j: int| 0 <= j < m.len() && m[j] == w[k];
        assert(m[j].start < m[j].end);
    }
}

/// Rows that are near each other are equal but for their tiles.
pub open spec fn is_clear(rows: Seq<Row>) -> bool {
    forall|i: int, j: int|
        0 <= i < rows.len() && 0 <= j < rows.len() && are_near(
            begun(#[trigger] rows[i]),
            begun(#[trigger] rows[j]),
        ) ==> begun(rows[i]).start == begun(rows[j]).start && rows[i].end == rows[j].end
}

proof fn lemma_snapped_is_begun(rows: Seq<Row>)
    requires
        is_clear(rows),
    ensures
        snapped(rows) == rows.map_values(|r: Row| begun(r)),
    decreases rows.len(),
{
    let f = |r: Row| begun(r);
    if rows.len() > 0 {
        let less = rows.drop_last();
        assert(is_clear(less)) by {
            assert forall|i: int, j: int|
                0 <= i < less.len() && 0 <= j < less.len() && are_near(
                    begun(#[trigger] less[i]),
                    begun(#[trigger] less[j]),
                ) implies begun(less[i]).start == begun(less[j]).start && less[i].end
                == less[j].end by {
                assert(less[i] == rows[i] && less[j] == rows[j]);
            }
        }
        lemma_snapped_is_begun(less);
        let n = rows.len() as int;
        if n > 1 {
            assert(snapped(less).last() == begun(rows[n - 2]));
            assert(rows.last() == rows[n - 1]);
        }
        assert(snapped(rows) =~= rows.map_values(f));
    } else {
        assert(snapped(rows) =~= rows.map_values(f));
    }
}

proof fn lemma_tiles_of_begun(rows: Seq<Row>, t: int)
    requires
        t >= 0,
    ensures
        tiles_at(rows.map_values(|r: Row| begun(r)), t) == tiles_at(rows, t),
    decreases rows.len(),
{
    let f = |r: Row| begun(r);
    if rows.len() > 0 {
        lemma_tiles_of_begun(rows.drop_last(), t);
        assert(rows.map_values(f).drop_last() =~= rows.drop_last().map_values(f));
        assert(rows.map_values(f).last() == begun(rows.last()));
    } else {
        assert(rows.map_values(f) =~= rows);
    }
}

/// A window shows at each of its moments exactly the tiles of the rows that hold the moment:
/// one for each, in order of their start. Where no two segments are near each other without
/// being equal, these are the segments themselves.
pub proof fn law_windows_are_exact(
    segs: Seq<SpatialSegment>,
    ps: Seq<Participant>,
    end: int,
    k: int,
    t: int,
)
    requires
        0 <= k < windows_of(segs, ps, end).len(),
        windows_of(segs, ps, end)[k].start <= t < windows_of(segs, ps, end)[k].end,
    ensures
        windows_of(segs, ps, end)[k].tiles == tiles_at(shown_rows(segs, ps), t),
        is_clear(sorted_rows(segs, ps)) ==> windows_of(segs, ps, end)[k].tiles == tiles_at(
            sorted_rows(segs, ps),
            t,
        ),
{
    let rows = shown_rows(segs, ps);
    let m = stretches(rows, end);
    lemma_without_slivers(m);
    lemma_stretches(rows, end);
    let w = windows_of(segs, ps, end)[k];
    assert(m.contains(w));
    let j = choose|j: int| 0 <= j < m.len() && m[j] == w;
    lemma_stretch_is_exact(rows, end, j, t);
    if is_clear(sorted_rows(segs, ps)) {
        lemma_snapped_is_begun(sorted_rows(segs, ps));
        lemma_tiles_of_begun(sorted_rows(segs, ps), t);
    }
}

/// A window is as long as it can be: directly before it and at its end something else is on
/// screen, or the output begins or ends there.
pub proof fn law_windows_are_maximal(
    segs: Seq<SpatialSegment>,
    ps: Seq<Participant>,
    end: int,
    k: int,
)
    requires
        0 <= k < windows_of(segs, ps, end).len(),
    ensures
        ({
            let w = windows_of(segs, ps, end)[k];
            let rows = shown_rows(segs, ps);
            &&& w.start == 0 || tiles_at(rows, w.start - 1) != w.tiles
            &&& w.end == end || tiles_at(rows, w.end) != w.tiles
        }),
{
    let rows = shown_rows(segs, ps);
    let m = stretches(rows, end);
    lemma_without_slivers(m);
    lemma_stretches(rows, end);
    let w = windows_of(segs, ps, end)[k];
    assert(m.contains(w));
    let j = choose|j: int| 0 <= j < m.len() && m[j] == w;
    if j > 0 {
        assert(m[j - 1].end == m[j].start && m[j - 1].tiles != m[j].tiles);
        assert(m[j - 1].start < m[j - 1].end);
        lemma_stretch_is_exact(rows, end, j - 1, w.start - 1);
    }
    if j < m.len() - 1 {
        assert(m[j].end == m[j + 1].start && m[j].tiles != m[j + 1].tiles);
        assert(m[j + 1].start < m[j + 1].end);
        lemma_stretch_is_exact(rows, end, j + 1, w.end);
    }
}

/// A window holds the moment and shows the tile.
pub open spec fn is_shown_at(
    w: Seq<Span>,
    t: int,
    tile: (usize, (u32, u32, u32, u32)),
) -> bool {
    exists|k: int|
        0 <= k < w.len() && (#[trigger] w[k]).start <= t < w[k].end && w[k].tiles.contains(tile)
}

proof fn lemma_tiles_at_has(rows: Seq<Row>, t: int, i: int)
    requires
        0 <= i < rows.len(),
        rows[i].start <= t < rows[i].end,
    ensures
        tiles_at(rows, t).contains(rows[i].tile),
    decreases rows.len(),
{
    let all = tiles_at(rows, t);
    if i < rows.len() - 1 {
        let less = rows.drop_last();
        assert(less[i] == rows[i]);
        lemma_tiles_at_has(less, t, i);
        let before = tiles_at(less, t);
        let at = choose|at: int| 0 <= at < before.len() && before[at] == rows[i].tile;
        assert(all[at] == rows[i].tile);
    } else {
        assert(all[all.len() - 1] == rows[i].tile);
    }
}

proof fn lemma_tiles_at_from(rows: Seq<Row>, t: int, at: int) -> (i: int)
    requires
        0 <= at < tiles_at(rows, t).len(),
    ensures
        0 <= i < rows.len(),
        rows[i].tile == tiles_at(rows, t)[at],
        rows[i].start <= t < rows[i].end,
    decreases rows.len(),
{
    let less = rows.drop_last();
    if at < tiles_at(less, t).len() {
        let i = lemma_tiles_at_from(less, t, at);
        assert(less[i] == rows[i]);
        i
    } else {
        rows.len() - 1
    }
}

/// A stretch in which something is on screen is a window.
proof fn lemma_busy_moment(rows: Seq<Row>, end: int, t: int) -> (k: int)
    requires
        0 <= t < end,
        tiles_at(rows, t).len() > 0,
    ensures
        0 <= k < windows_over(rows, end).len(),
        windows_over(rows, end)[k].start <= t < windows_over(rows, end)[k].end,
        windows_over(rows, end)[k].tiles == tiles_at(rows, t),
{
    let m = stretches(rows, end);
    let w = windows_over(rows, end);
    lemma_stretches(rows, end);
    let j = lemma_piece_at(m, t);
    lemma_stretch_is_exact(rows, end, j, t);
    lemma_without_slivers(m);
    assert(w.contains(m[j]));
    choose|k: int| 0 <= k < w.len() && w[k] == m[j]
}

/// A row as it is shown differs from the row itself by less than a microsecond at each end,
/// and is not empty.
spec fn is_snap_of(s: Row, r: Row) -> bool {
    &&& s.tile == r.tile
    &&& 0 <= s.start <= begun(r).start < s.start + TOLERANCE
    &&& is_near(s.end as int, r.end as int)
    &&& s.start < s.end
}

proof fn lemma_snapped(rows: Seq<Row>)
    requires
        is_ascending(rows, by_start()),
        forall|i: int| 0 <= i < rows.len() ==> is_ever_on(#[trigger] rows[i]),
    ensures
        snapped(rows).len() == rows.len(),
        forall|i: int| 0 <= i < rows.len() ==> is_snap_of(#[trigger] snapped(rows)[i], rows[i]),
    decreases rows.len(),
{
    if rows.len() > 0 {
        let less = rows.drop_last();
        let n = rows.len() as int;
        assert(is_ascending(less, by_start())) by {
            assert forall|i: int, j: int| 0 <= i <= j < less.len() implies by_start()(
                #[trigger] less[i],
            ) <= by_start()(#[trigger] less[j]) by {
                assert(less[i] == rows[i] && less[j] == rows[j]);
                assert(by_start()(rows[i]) <= by_start()(rows[j]));
            }
        }
        assert forall|i: int| 0 <= i < less.len() implies is_ever_on(#[trigger] less[i]) by {
            assert(less[i] == rows[i]);
        }
        lemma_snapped(less);
        let (b, s) = (snapped(less), snapped(rows));
        assert(is_ever_on(rows[n - 1]));
        if n > 1 {
            assert(is_snap_of(b[n - 2], less[n - 2]));
            assert(by_start()(rows[n - 2]) <= by_start()(rows[n - 1]));
        }
        assert forall|i: int| 0 <= i < n implies is_snap_of(#[trigger] s[i], rows[i]) by {
            if i < n - 1 {
                assert(s[i] == b[i] && less[i] == rows[i]);
                assert(is_snap_of(b[i], less[i]));
            }
        }
    }
}

/// A row that some segment gives.
pub open spec fn is_row(segs: Seq<SpatialSegment>, ps: Seq<Participant>) -> spec_fn(Row) -> bool {
    |r: Row| exists|i: int| 0 <= i < segs.len() && row_of(#[trigger] segs[i], ps) == Some(r)
        && is_ever_on(r)
}

proof fn lemma_rows_come_from_segments(segs: Seq<SpatialSegment>, ps: Seq<Participant>)
    ensures
        forall|k: int|
            0 <= k < rows_of(segs, ps).len() ==> is_row(segs, ps)(#[trigger] rows_of(segs, ps)[k]),
    decreases segs.len(),
{
    if segs.len() > 0 {
        let t = segs.drop_last();
        lemma_rows_come_from_segments(t, ps);
        assert forall|k: int| 0 <= k < rows_of(segs, ps).len() implies is_row(segs, ps)(
            #[trigger] rows_of(segs, ps)[k],
        ) by {
            let r = rows_of(segs, ps)[k];
            if k < rows_of(t, ps).len() {
                assert(is_row(t, ps)(rows_of(t, ps)[k]));
                let i = choose|i: int| 0 <= i < t.len() && row_of(#[trigger] t[i], ps) == Some(r);
                assert(row_of(segs[i], ps) == Some(r));
            } else {
                assert(row_of(segs[segs.len() - 1], ps) == Some(r));
            }
        }
    }
}

proof fn lemma_rows_contain(segs: Seq<SpatialSegment>, ps: Seq<Participant>, i: int)
    requires
        0 <= i < segs.len(),
        row_of(segs[i], ps) is Some,
        is_ever_on(row_of(segs[i], ps)->0),
    ensures
        rows_of(segs, ps).contains(row_of(segs[i], ps)->0),
    decreases segs.len(),
{
    let r = row_of(segs[i], ps)->0;
    let before = rows_of(segs.drop_last(), ps);
    let all = rows_of(segs, ps);
    if i < segs.len() - 1 {
        lemma_rows_contain(segs.drop_last(), ps, i);
        assert(segs.drop_last()[i] == segs[i]);
        let k = choose|k: int| 0 <= k < before.len() && before[k] == r;
        assert(all[k] == r);
    } else {
        assert(all[all.len() - 1] == r);
    }
}

/// The row of a segment, as it is shown.
proof fn lemma_row_is_shown(segs: Seq<SpatialSegment>, ps: Seq<Participant>, i: int) -> (j: int)
    requires
        0 <= i < segs.len(),
        row_of(segs[i], ps) is Some,
        is_ever_on(row_of(segs[i], ps)->0),
    ensures
        0 <= j < sorted_rows(segs, ps).len(),
        sorted_rows(segs, ps)[j] == row_of(segs[i], ps)->0,
        j < shown_rows(segs, ps).len(),
        is_snap_of(shown_rows(segs, ps)[j], row_of(segs[i], ps)->0),
{
    let unsorted = rows_of(segs, ps);
    let rows = sorted_rows(segs, ps);
    let r = row_of(segs[i], ps)->0;
    lemma_rows_contain(segs, ps, i);
    lemma_all_rows(segs, ps);
    lemma_sorted_by(unsorted, by_start());
    assert(rows.contains(r)) by {
        broadcast use vstd::seq_lib::group_to_multiset_ensures;

        assert(unsorted.to_multiset().contains(r));
        assert(rows.to_multiset().contains(r));
    }
    let j = choose|j: int| 0 <= j < rows.len() && rows[j] == r;
    assert(is_snap_of(shown_rows(segs, ps)[j], rows[j]));
    j
}

/// Every row comes from a segment, and is shown.
proof fn lemma_all_rows(segs: Seq<SpatialSegment>, ps: Seq<Participant>)
    ensures
        shown_rows(segs, ps).len() == sorted_rows(segs, ps).len(),
        forall|j: int|
            0 <= j < sorted_rows(segs, ps).len() ==> is_row(segs, ps)(
                #[trigger] sorted_rows(segs, ps)[j],
            ) && is_ever_on(sorted_rows(segs, ps)[j]),
        forall|j: int|
            0 <= j < sorted_rows(segs, ps).len() ==> is_snap_of(
                #[trigger] shown_rows(segs, ps)[j],
                sorted_rows(segs, ps)[j],
            ),
{
    let unsorted = rows_of(segs, ps);
    let rows = sorted_rows(segs, ps);
    lemma_rows_come_from_segments(segs, ps);
    lemma_sorted_by(unsorted, by_start());
    lemma_sorted_by_all(unsorted, by_start(), is_row(segs, ps));
    assert forall|j: int| 0 <= j < rows.len() implies is_row(segs, ps)(#[trigger] rows[j])
        && is_ever_on(rows[j]) by {
        assert(is_row(segs, ps)(rows[j]));
    }
    lemma_snapped(rows);
}

/// No segment is lost: one of a known participant, with a box, of which any part lies in the
/// output is shown by some window.
pub proof fn law_every_segment_is_shown(
    segs: Seq<SpatialSegment>,
    ps: Seq<Participant>,
    end: int,
    i: int,
)
    requires
        0 <= i < segs.len(),
        row_of(segs[i], ps) is Some,
        max_int(segs[i].start_time as int, 0) < min_int(segs[i].end_time as int, end),
    ensures
        exists|k: int|
            0 <= k < windows_of(segs, ps, end).len() && (#[trigger] windows_of(
                segs,
                ps,
                end,
            )[k]).tiles.contains((row_of(segs[i], ps)->0).tile),
{
    let rows = shown_rows(segs, ps);
    let j = lemma_row_is_shown(segs, ps, i);
    let t = rows[j].start as int;
    lemma_tiles_at_has(rows, t, j);
    let k = lemma_busy_moment(rows, end, t);
    assert(windows_of(segs, ps, end)[k].tiles.contains((row_of(segs[i], ps)->0).tile));
}

/// A segment of a known participant, with a box, is shown at each of its moments in the
/// output, up to the last microsecond of the segment: a segment that is near the one before
/// ends with it.
pub proof fn law_segments_are_shown(
    segs: Seq<SpatialSegment>,
    ps: Seq<Participant>,
    end: int,
    i: int,
    t: int,
)
    requires
        0 <= i < segs.len(),
        row_of(segs[i], ps) is Some,
        segs[i].start_time <= t < segs[i].end_time,
        0 <= t < end,
        t + TOLERANCE <= segs[i].end_time || is_clear(sorted_rows(segs, ps)),
    ensures
        is_shown_at(windows_of(segs, ps, end), t, (row_of(segs[i], ps)->0).tile),
{
    let rows = shown_rows(segs, ps);
    let j = lemma_row_is_shown(segs, ps, i);
    if is_clear(sorted_rows(segs, ps)) {
        lemma_snapped_is_begun(sorted_rows(segs, ps));
    }
    lemma_tiles_at_has(rows, t, j);
    let k = lemma_busy_moment(rows, end, t);
    assert(windows_of(segs, ps, end)[k].tiles.contains((row_of(segs[i], ps)->0).tile));
}

/// The segments that can be shown last longer than a microsecond, and any two of them begin
/// and end together or do not overlap.
pub open spec fn are_separate(segs: Seq<SpatialSegment>, ps: Seq<Participant>) -> bool {
    &&& forall|i: int|
        0 <= i < segs.len() && row_of(#[trigger] segs[i], ps) is Some ==> segs[i].end_time
            - segs[i].start_time > TOLERANCE
    &&& forall|i: int, j: int|
        0 <= i < segs.len() && 0 <= j < segs.len() && row_of(#[trigger] segs[i], ps) is Some
            && row_of(#[trigger] segs[j], ps) is Some ==> are_apart(segs[i], segs[j])
}

/// Two segments begin and end together or do not overlap.
pub open spec fn are_apart(a: SpatialSegment, b: SpatialSegment) -> bool {
    ||| a.start_time == b.start_time && a.end_time == b.end_time
    ||| a.end_time <= b.start_time
    ||| b.end_time <= a.start_time
}

proof fn lemma_separate_is_clear(segs: Seq<SpatialSegment>, ps: Seq<Participant>)
    requires
        are_separate(segs, ps),
    ensures
        is_clear(sorted_rows(segs, ps)),
{
    let rows = sorted_rows(segs, ps);
    lemma_all_rows(segs, ps);
    assert forall|i: int, j: int|
        0 <= i < rows.len() && 0 <= j < rows.len() && are_near(
            begun(#[trigger] rows[i]),
            begun(#[trigger] rows[j]),
        ) implies begun(rows[i]).start == begun(rows[j]).start && rows[i].end == rows[j].end by {
        assert(is_row(segs, ps)(rows[i]) && is_row(segs, ps)(rows[j]));
        let a = choose|a: int|
            0 <= a < segs.len() && row_of(#[trigger] segs[a], ps) == Some(rows[i]);
        let b = choose|b: int|
            0 <= b < segs.len() && row_of(#[trigger] segs[b], ps) == Some(rows[j]);
        assert(are_apart(segs[a], segs[b]));
        assert(is_ever_on(rows[i]) && is_ever_on(rows[j]));
    }
}

/// Where segments are separate, each one of which any part lies in the output stands in
/// exactly one window. That window spans the whole part and shows its tile, and no other
/// window reaches into it.
pub proof fn law_separate_segment_has_one_window(
    segs: Seq<SpatialSegment>,
    ps: Seq<Participant>,
    end: int,
    i: int,
)
    requires
        are_separate(segs, ps),
        0 <= i < segs.len(),
        row_of(segs[i], ps) is Some,
        max_int(segs[i].start_time as int, 0) < min_int(segs[i].end_time as int, end),
    ensures
        exists|k: int|
            #![trigger windows_of(segs, ps, end)[k]]
            {
                let w = windows_of(segs, ps, end);
                let a = max_int(segs[i].start_time as int, 0);
                let b = min_int(segs[i].end_time as int, end);
                &&& 0 <= k < w.len()
                &&& w[k].tiles.contains((row_of(segs[i], ps)->0).tile)
                &&& w[k].start <= a && b <= w[k].end
                &&& forall|j: int|
                    0 <= j < w.len() && j != k ==> (#[trigger] w[j]).end <= a || b <= w[j].start
            },
{
    let sorted = sorted_rows(segs, ps);
    let rows = shown_rows(segs, ps);
    let w = windows_of(segs, ps, end);
    let a = max_int(segs[i].start_time as int, 0);
    let b = min_int(segs[i].end_time as int, end);
    lemma_separate_is_clear(segs, ps);
    lemma_snapped_is_begun(sorted);
    lemma_all_rows(segs, ps);
    let row = lemma_row_is_shown(segs, ps, i);
    lemma_tiles_at_has(rows, a, row);
    let k = lemma_busy_moment(rows, end, a);
    assert forall|u: int| a <= u < b implies #[trigger] tiles_at(rows, u) == tiles_at(rows, a) by {
        assert forall|j: int| 0 <= j < rows.len() implies ((#[trigger] rows[j]).start <= u
            < rows[j].end <==> rows[j].start <= a < rows[j].end) by {
            assert(is_row(segs, ps)(sorted[j]));
            let s = choose|s: int|
                0 <= s < segs.len() && row_of(#[trigger] segs[s], ps) == Some(sorted[j]);
            assert(are_apart(segs[s], segs[i]));
            assert(rows[j] == begun(sorted[j]));
        }
        lemma_tiles_agree(rows, u, a);
    }
    law_windows_are_maximal(segs, ps, end, k);
    law_windows_cover(segs, ps, end);
    if w[k].end < b {
        assert(tiles_at(rows, w[k].end) == tiles_at(rows, a));
    }
    assert forall|j: int| 0 <= j < w.len() && j != k implies (#[trigger] w[j]).end <= a || b
        <= w[j].start by {
        if j < k {
            lemma_close_order(w, j, k);
            if w[j].end > a {
                assert(false);
            }
        } else {
            lemma_close_order(w, k, j);
        }
    }
}

/// If the row holds `t`, it begins at `v`.
spec fn begins_at(t: int, v: int) -> spec_fn(Row) -> bool {
    |r: Row| r.start <= t < r.end ==> r.start == v
}

/// Where all rows that hold `t` begin together, their order does not depend on where a row
/// is put in by its start.
proof fn lemma_insert_tiles(s: Seq<Row>, x: Row, t: int, v: int)
    requires
        forall|i: int| 0 <= i < s.len() ==> begins_at(t, v)(#[trigger] s[i]),
        begins_at(t, v)(x),
    ensures
        tiles_at(insert_by(s, x, by_start()), t) == tiles_at(s.push(x), t),
    decreases s.len(),
{
    assert(s.push(x).drop_last() =~= s);
    if s.len() > 0 && by_start()(s.last()) > by_start()(x) {
        let u = s.drop_last();
        assert forall|i: int| 0 <= i < u.len() implies begins_at(t, v)(#[trigger] u[i]) by {
            assert(u[i] == s[i]);
        }
        lemma_insert_tiles(u, x, t, v);
        let w = insert_by(u, x, by_start());
        assert(w.push(s.last()).drop_last() =~= w);
        assert(u.push(x).drop_last() =~= u);
        assert(begins_at(t, v)(s[s.len() - 1]));
        assert(insert_by(s, x, by_start()) == w.push(s.last()));
        let before = tiles_at(u, t);
        let on = x.start <= t < x.end;
        assert(tiles_at(w, t) == if on {
            before.push(x.tile)
        } else {
            before
        });
        assert(tiles_at(s.push(x), t) == if on {
            tiles_at(s, t).push(x.tile)
        } else {
            tiles_at(s, t)
        });
    }
}

proof fn lemma_sorted_tiles(s: Seq<Row>, t: int, v: int)
    requires
        forall|i: int| 0 <= i < s.len() ==> begins_at(t, v)(#[trigger] s[i]),
    ensures
        tiles_at(sorted_by(s, by_start()), t) == tiles_at(s, t),
    decreases s.len(),
{
    if s.len() > 0 {
        let u = s.drop_last();
        assert forall|i: int| 0 <= i < u.len() implies begins_at(t, v)(#[trigger] u[i]) by {
            assert(u[i] == s[i]);
        }
        lemma_sorted_tiles(u, t, v);
        lemma_sorted_by_all(u, by_start(), begins_at(t, v));
        let w = sorted_by(u, by_start());
        assert(begins_at(t, v)(s[s.len() - 1]));
        lemma_insert_tiles(w, s.last(), t, v);
        assert(w.push(s.last()).drop_last() =~= w);
    }
}

/// Where segments are separate, a window shows at each of its moments exactly the tiles of
/// the segments that hold the moment, in the order in which the timeline has them.
pub proof fn law_separate_segments_keep_their_order(
    segs: Seq<SpatialSegment>,
    ps: Seq<Participant>,
    end: int,
    k: int,
    t: int,
)
    requires
        are_separate(segs, ps),
        0 <= k < windows_of(segs, ps, end).len(),
        windows_of(segs, ps, end)[k].start <= t < windows_of(segs, ps, end)[k].end,
    ensures
        windows_of(segs, ps, end)[k].tiles == tiles_at(rows_of(segs, ps), t),
{
    let rows = rows_of(segs, ps);
    lemma_separate_is_clear(segs, ps);
    law_windows_are_exact(segs, ps, end, k, t);
    lemma_rows_come_from_segments(segs, ps);
    let at = choose|at: int|
        0 <= at < rows.len() && (#[trigger] rows[at]).start <= t < rows[at].end;
    let v = rows[at].start as int;
    assert forall|i: int| 0 <= i < rows.len() implies begins_at(t, v)(#[trigger] rows[i]) by {
        if rows[i].start <= t < rows[i].end {
            assert(is_row(segs, ps)(rows[i]) && is_row(segs, ps)(rows[at]));
            let a = choose|a: int|
                0 <= a < segs.len() && row_of(#[trigger] segs[a], ps) == Some(rows[i]);
            let b = choose|b: int|
                0 <= b < segs.len() && row_of(#[trigger] segs[b], ps) == Some(rows[at]);
            assert(are_apart(segs[a], segs[b]));
        }
    }
    lemma_sorted_tiles(rows, t, v);
}

proof fn lemma_close_order(w: Seq<Span>, j: int, k: int)
    requires
        is_close_row(w),
        forall|k: int| 0 <= k < w.len() ==> (#[trigger] w[k]).start < w[k].end,
        0 <= j < k < w.len(),
    ensures
        w[j].end <= w[k].start,
    decreases k - j,
{
    assert(w[k - 1].end <= w[k].start);
    if j < k - 1 {
        lemma_close_order(w, j, k - 1);
        assert(w[k - 1].start < w[k - 1].end);
    }
}

/// What a tile on screen at `t` has to come from: a segment of that participant, with that
/// box, that holds `t` up to a microsecond.
pub open spec fn is_shown_by(
    tile: (usize, (u32, u32, u32, u32)),
    t: int,
    segs: Seq<SpatialSegment>,
    ps: Seq<Participant>,
) -> bool {
    exists|i: int|
        0 <= i < segs.len() && (#[trigger] segs[i]).bounding_box == tile.1 && index_of_id(
            ps,
            segs[i].participant_id@,
            0,
        ) == Some(tile.0) && segs[i].start_time < t + TOLERANCE && t < segs[i].end_time + TOLERANCE
}

proof fn lemma_index_of_id(ps: Seq<Participant>, id: Seq<char>, i: int)
    requires
        0 <= i,
        ps.len() <= usize::MAX,
    ensures
        index_of_id(ps, id, i) matches Some(k) ==> k < ps.len() && ps[k as int].id@ == id,
    decreases ps.len() - i,
{
    if i < ps.len() && ps[i].id@ != id {
        lemma_index_of_id(ps, id, i + 1);
    }
}

/// A participant's feed is on screen only where the timeline has it: every tile that a
/// window shows at a moment is that of a segment that holds the moment, up to a microsecond.
/// It belongs to a known participant and has an area.
pub proof fn law_tiles_are_known(
    segs: Seq<SpatialSegment>,
    ps: Seq<Participant>,
    end: int,
    k: int,
    t: int,
    at: int,
)
    requires
        ps.len() <= usize::MAX,
        0 <= k < windows_of(segs, ps, end).len(),
        windows_of(segs, ps, end)[k].start <= t < windows_of(segs, ps, end)[k].end,
        0 <= at < windows_of(segs, ps, end)[k].tiles.len(),
    ensures
        ({
            let tile = windows_of(segs, ps, end)[k].tiles[at];
            &&& is_shown_by(tile, t, segs, ps)
            &&& tile.0 < ps.len()
            &&& tile.1.2 > 0
            &&& tile.1.3 > 0
        }),
{
    let rows = shown_rows(segs, ps);
    let tile = windows_of(segs, ps, end)[k].tiles[at];
    law_windows_are_exact(segs, ps, end, k, t);
    lemma_all_rows(segs, ps);
    let j = lemma_tiles_at_from(rows, t, at);
    let r = sorted_rows(segs, ps)[j];
    assert(is_snap_of(rows[j], r));
    assert(is_row(segs, ps)(r));
    let s = choose|s: int| 0 <= s < segs.len() && row_of(#[trigger] segs[s], ps) == Some(r);
    assert(segs[s].bounding_box == tile.1);
    lemma_index_of_id(ps, segs[s].participant_id@, 0);
}

proof fn lemma_tiles_are_known(segs: Seq<SpatialSegment>, ps: Seq<Participant>, end: int)
    requires
        ps.len() <= usize::MAX,
    ensures
        forall|k: int, t: int|
            0 <= k < windows_of(segs, ps, end).len() && 0 <= t < windows_of(
                segs,
                ps,
                end,
            )[k].tiles.len() ==> (#[trigger] windows_of(segs, ps, end)[k].tiles[t]).0 < ps.len(),
{
    let w = windows_of(segs, ps, end);
    law_windows_cover(segs, ps, end);
    assert forall|k: int, t: int| 0 <= k < w.len() && 0 <= t < w[k].tiles.len() implies (
    #[trigger] w[k].tiles[t]).0 < ps.len() by {
        assert(w[k].start < w[k].end);
        law_tiles_are_known(segs, ps, end, k, w[k].start, t);
    }
}

/// The spans cut off at `end`; those that begin there or later are dropped.
pub open spec fn cut_off(w: Seq<Span>, end: int) -> Seq<Span>
    decreases w.len(),
{
    if w.len() == 0 {
        Seq::empty()
    } else {
        let before = cut_off(w.drop_last(), end);
        let s = w.last();
        if s.start >= end {
            before
        } else {
            before.push(
                Span {
                    end: if s.end > end {
                        end
                    } else {
                        s.end
                    },
                    ..s
                },
            )
        }
    }
}

proof fn lemma_cut_off_none(w: Seq<Span>, end: int)
    requires
        forall|k: int| 0 <= k < w.len() ==> (#[trigger] w[k]).start < end && w[k].end <= end,
    ensures
        cut_off(w, end) == w,
    decreases w.len(),
{
    if w.len() > 0 {
        let v = w.drop_last();
        assert forall|k: int| 0 <= k < v.len() implies (#[trigger] v[k]).start < end && v[k].end
            <= end by {
            assert(v[k] == w[k]);
        }
        lemma_cut_off_none(v, end);
        assert(w[w.len() - 1] == w.last());
        assert(v.push(w.last()) =~= w);
    } else {
        assert(cut_off(w, end) =~= w);
    }
}

proof fn lemma_before(w: Seq<Span>, end: int)
    requires
        is_chain(w),
        w.len() > 0,
        w.last().end <= end,
    ensures
        forall|k: int| 0 <= k < w.len() ==> (#[trigger] w[k]).start < end && w[k].end <= end,
{
    let n = w.len() - 1;
    assert(w[n].start < w[n].end);
    assert forall|k: int| 0 <= k < w.len() implies (#[trigger] w[k]).start < end && w[k].end
        <= end by {
        assert(w[k].start < w[k].end);
        if k < n {
            lemma_chain_order(w, k, n);
        }
    }
}

/// It does not matter whether equal spans are made one before or after the cut.
proof fn lemma_merged_cut_off(p: Seq<Span>, end: int)
    requires
        is_chain(p),
    ensures
        merged(cut_off(p, end)) == cut_off(merged(p), end),
    decreases p.len(),
{
    if p.len() > 0 {
        let q = p.drop_last();
        let s = p.last();
        lemma_chain_less(p);
        lemma_merged_cut_off(q, end);
        lemma_merged(q);
        lemma_merged(p);
        let (b, m) = (merged(q), merged(p));
        let n = p.len() as int;
        assert(p[n - 1] == s);
        if n > 1 {
            assert(p[n - 2].end == p[n - 1].start);
            assert(q.last() == p[n - 2]);
        }
        let joins = b.len() > 0 && b.last().tiles == s.tiles;
        if joins {
            assert(m.drop_last() =~= b.drop_last());
        } else {
            assert(m.drop_last() =~= b);
        }
        if s.start >= end {
            if joins {
                assert(b[b.len() - 1].start < b[b.len() - 1].end);
                assert(b.last().end == s.start);
            }
        } else {
            let cut = Span {
                end: if s.end > end {
                    end
                } else {
                    s.end
                },
                ..s
            };
            if n > 1 {
                lemma_before(q, end);
                lemma_before(b, end);
            }
            lemma_cut_off_none(q, end);
            lemma_cut_off_none(b, end);
            assert(cut_off(p, end) == q.push(cut));
            assert(q.push(cut).drop_last() =~= q);
            if joins {
                let shorter = b.drop_last();
                assert forall|k: int| 0 <= k < shorter.len() implies (#[trigger] shorter[k]).start
                    < end && shorter[k].end <= end by {
                    assert(shorter[k] == b[k]);
                }
                lemma_cut_off_none(shorter, end);
                assert(b[b.len() - 1].start < end);
            }
        }
    } else {
        assert(merged(cut_off(p, end)) =~= cut_off(merged(p), end));
    }
}

proof fn lemma_same_marks(rows: Seq<Row>, e1: int, e2: int)
    requires
        0 < e1 <= e2,
    ensures
        forall|x: int|
            0 <= x < e1 ==> (#[trigger] marks_of(rows, e1).contains(x) <==> marks_of(
                rows,
                e2,
            ).contains(x)),
{
    lemma_marks(rows, e1);
    lemma_marks(rows, e2);
    let (m1, m2) = (marks_of(rows, e1), marks_of(rows, e2));
    assert forall|x: int| 0 <= x < e1 implies (#[trigger] m1.contains(x)
        <==> m2.contains(x)) by {
        if m1.contains(x) {
            let k = choose|k: int| 0 <= k < m1.len() && m1[k] == x;
            assert(is_bound(rows, e1, m1[k]));
            if x != 0 {
                let i = choose|i: int|
                    0 <= i < rows.len() && (clipped((#[trigger] rows[i]).start as int, e1) == x
                        || clipped(rows[i].end as int, e1) == x);
                assert(m2.contains(clipped(rows[i].start as int, e2)));
            }
        }
        if m2.contains(x) {
            let k = choose|k: int| 0 <= k < m2.len() && m2[k] == x;
            assert(is_bound(rows, e2, m2[k]));
            if x != 0 {
                let i = choose|i: int|
                    0 <= i < rows.len() && (clipped((#[trigger] rows[i]).start as int, e2) == x
                        || clipped(rows[i].end as int, e2) == x);
                assert(m1.contains(clipped(rows[i].start as int, e1)));
            }
        }
    }
}

/// The cuts for the shorter output are those for the longer one as far as they go.
proof fn lemma_same_cuts(rows: Seq<Row>, e1: int, e2: int, t: int) -> (n: int)
    requires
        0 <= t < e1 <= e2,
    ensures
        ({
            let c1 = cuts_from(marks_of(rows, e1), t, e1);
            let c2 = cuts_from(marks_of(rows, e2), t, e2);
            &&& 1 <= n < c2.len()
            &&& c2[n - 1] < e1 <= c2[n]
            &&& c1 == c2.take(n).push(e1)
        }),
    decreases e1 - t,
{
    let (m1, m2) = (marks_of(rows, e1), marks_of(rows, e2));
    lemma_marks(rows, e1);
    lemma_marks(rows, e2);
    lemma_same_marks(rows, e1, e2);
    lemma_cuts(m1, t, e1);
    lemma_cuts(m2, t, e2);
    let c1 = cuts_from(m1, t, e1);
    let c2 = cuts_from(m2, t, e2);
    lemma_next_after(m1, t);
    lemma_next_after(m2, t);
    let k1 = choose|k: int| 0 <= k < m1.len() && m1[k] == e1;
    let k2 = choose|k: int| 0 <= k < m2.len() && m2[k] == e2;
    assert(m1[k1] == e1 && m2[k2] == e2);
    let n1 = next_after(m1, t)->0;
    let n2 = next_after(m2, t)->0;
    let a1 = choose|k: int| 0 <= k < m1.len() && #[trigger] m1[k] == n1;
    let a2 = choose|k: int| 0 <= k < m2.len() && #[trigger] m2[k] == n2;
    assert(m1.contains(n1));
    assert(m2.contains(n2));
    let d1 = cuts_from(m1, n1, e1);
    let d2 = cuts_from(m2, n2, e2);
    assert(c1 == seq![t] + d1 && c2 == seq![t] + d2);
    if n2 < e1 {
        assert(m1.contains(n2));
        let b = choose|b: int| 0 <= b < m1.len() && m1[b] == n2;
        assert(n1 <= m1[b]);
        assert(m2.contains(n1));
        let d = choose|d: int| 0 <= d < m2.len() && m2[d] == n1;
        assert(n2 <= m2[d]);
        assert(n1 == n2);
        let n = lemma_same_cuts(rows, e1, e2, n1);
        assert(c2[n + 1] == d2[n] && c2[n] == d2[n - 1]);
        assert(c1 =~= c2.take(n + 1).push(e1));
        n + 1
    } else {
        if n1 < e1 {
            assert(m2.contains(n1));
            let d = choose|d: int| 0 <= d < m2.len() && m2[d] == n1;
            assert(n2 <= m2[d]);
        }
        assert(n1 == e1);
        lemma_cuts(m1, e1, e1);
        assert(d1 =~= seq![e1]) by {
            if d1.len() > 1 {
                assert(d1[0] < d1[d1.len() - 1]);
            }
        }
        lemma_cuts(m2, n2, e2);
        assert(c2[1] == n2);
        assert(c1 =~= c2.take(1).push(e1));
        1
    }
}

proof fn lemma_cut_off_first(w: Seq<Span>, end: int, n: int)
    requires
        is_chain(w),
        0 < n <= w.len(),
        w[n - 1].start < end,
        n < w.len() ==> w[n].start >= end,
    ensures
        cut_off(w, end) == cut_off(w.take(n), end),
    decreases w.len(),
{
    if n < w.len() {
        let last = w.len() - 1;
        if n < last {
            lemma_chain_order(w, n, last);
            assert(w[n].start < w[n].end);
        }
        lemma_chain_less(w);
        lemma_cut_off_first(w.drop_last(), end, n);
        assert(w.drop_last().take(n) =~= w.take(n));
    } else {
        assert(w.take(n) =~= w);
    }
}

/// Cutting a chain off inside its span `n - 1` keeps the spans before it and shortens it.
proof fn lemma_cut_off_chain(w: Seq<Span>, end: int, n: int)
    requires
        is_chain(w),
        0 < n <= w.len(),
        w[n - 1].start < end <= w[n - 1].end,
    ensures
        cut_off(w, end) == w.take(n - 1).push(Span { end: end, ..w[n - 1] }),
{
    lemma_cut_off_first(w, end, n);
    let q = w.take(n);
    let shorter = w.take(n - 1);
    assert(q.drop_last() =~= shorter);
    assert forall|k: int| 0 <= k < shorter.len() implies (#[trigger] shorter[k]).start < end
        && shorter[k].end <= end by {
        assert(shorter[k] == w[k]);
        lemma_chain_order(w, k, n - 1);
        assert(w[k].start < w[k].end);
    }
    lemma_cut_off_none(shorter, end);
}

proof fn lemma_cut_off_all(w: Seq<Span>, end: int)
    requires
        forall|k: int| 0 <= k < w.len() ==> (#[trigger] w[k]).start >= end,
    ensures
        cut_off(w, end).len() == 0,
    decreases w.len(),
{
    if w.len() > 0 {
        let v = w.drop_last();
        assert forall|k: int| 0 <= k < v.len() implies (#[trigger] v[k]).start >= end by {
            assert(v[k] == w[k]);
        }
        lemma_cut_off_all(v, end);
        assert(w[w.len() - 1] == w.last());
    }
}

/// The stretches of a shorter output are those of a longer one, cut off.
proof fn lemma_shorter_stretches(rows: Seq<Row>, e1: int, e2: int)
    requires
        e1 <= e2,
    ensures
        stretches(rows, e1) == cut_off(stretches(rows, e2), e1),
{
    if e1 > 0 {
        let (c1, c2) = (cuts_over(rows, e1), cuts_over(rows, e2));
        let (p1, p2) = (pieces_of(rows, c1), pieces_of(rows, c2));
        lemma_pieces(rows, e2);
        let n = lemma_same_cuts(rows, e1, e2, 0);
        lemma_cut_off_chain(p2, e1, n);
        let cut = cut_off(p2, e1);
        assert(p1.len() == n && cut.len() == n);
        assert forall|k: int| 0 <= k < n implies #[trigger] p1[k] == cut[k] by {
            assert(c1[k] == c2[k]);
        }
        assert(p1 =~= cut);
        lemma_merged_cut_off(p2, e1);
    } else {
        let m = stretches(rows, e2);
        lemma_stretches(rows, e2);
        assert forall|k: int| 0 <= k < m.len() implies (#[trigger] m[k]).start >= e1 by {}
        lemma_cut_off_all(m, e1);
        assert(stretches(rows, e1) =~= cut_off(m, e1));
    }
}

/// It does not matter whether slivers are left out before the cut as well.
proof fn lemma_slivers_and_cut(m: Seq<Span>, end: int)
    ensures
        without_slivers(cut_off(without_slivers(m), end)) == without_slivers(cut_off(m, end)),
    decreases m.len(),
{
    if m.len() > 0 {
        let q = m.drop_last();
        let s = m.last();
        lemma_slivers_and_cut(q, end);
        let cut = Span {
            end: if s.end > end {
                end
            } else {
                s.end
            },
            ..s
        };
        let v = without_slivers(q);
        assert(cut_off(q, end).push(cut).drop_last() =~= cut_off(q, end));
        assert(cut_off(v, end).push(cut).drop_last() =~= cut_off(v, end));
        if !is_sliver(s) {
            assert(v.push(s).drop_last() =~= v);
        }
    }
}

/// The windows for a shorter output are those for a longer one, cut off at the shorter one's
/// end. Of a gap that the cut leaves a microsecond or less of, nothing stays.
pub proof fn law_windows_of_a_shorter_output(
    segs: Seq<SpatialSegment>,
    ps: Seq<Participant>,
    e1: int,
    e2: int,
)
    requires
        e1 <= e2,
    ensures
        windows_of(segs, ps, e1) == without_slivers(cut_off(windows_of(segs, ps, e2), e1)),
{
    let rows = shown_rows(segs, ps);
    lemma_shorter_stretches(rows, e1, e2);
    lemma_slivers_and_cut(stretches(rows, e2), e1);
}

/// The participant of an id is the first one that has it.
pub proof fn law_first_participant(ps: Seq<Participant>, id: Seq<char>, i: int)
    requires
        0 <= i,
        ps.len() <= usize::MAX,
    ensures
        match index_of_id(ps, id, i) {
            Some(k) => i <= k < ps.len() && ps[k as int].id@ == id && forall|j: int|
                i <= j < k ==> (#[trigger] ps[j]).id@ != id,
            None => forall|j: int| i <= j < ps.len() ==> (#[trigger] ps[j]).id@ != id,
        },
    decreases ps.len() - i,
{
    if i < ps.len() && ps[i].id@ != id {
        law_first_participant(ps, id, i + 1);
    }
}

/// A segment can be shown if its participant is known and its box has a width and a height.
/// It is then shown for its own time, in its own box, as its participant.
pub proof fn law_row_of_a_segment(s: SpatialSegment, ps: Seq<Participant>)
    ensures
        row_of(s, ps) is Some <==> s.bounding_box.2 > 0 && s.bounding_box.3 > 0 && index_of_id(
            ps,
            s.participant_id@,
            0,
        ) is Some,
        row_of(s, ps) matches Some(r) ==> r.start == s.start_time && r.end == s.end_time && r.tile.1
            == s.bounding_box && Some(r.tile.0) == index_of_id(ps, s.participant_id@, 0),
{
}

/// What is on screen at a moment, row by row: the tile of each row that has begun and not
/// ended, behind those of the rows below.
pub proof fn law_on_screen(a: Seq<Row>, b: Seq<Row>, r: Row, t: int)
    ensures
        tiles_at(Seq::empty(), t).len() == 0,
        r.start <= t && t < r.end ==> tiles_at(seq![r], t) == seq![r.tile],
        t < r.start || r.end <= t ==> tiles_at(seq![r], t).len() == 0,
        tiles_at(a + b, t) == tiles_at(a, t) + tiles_at(b, t),
    decreases b.len(),
{
    assert(seq![r].drop_last() =~= Seq::<Row>::empty());
    assert(tiles_at(Seq::<Row>::empty(), t) =~= Seq::empty());
    assert(tiles_at(seq![r].drop_last(), t).push(r.tile) =~= seq![r.tile]);
    if b.len() > 0 {
        law_on_screen(a, b.drop_last(), r, t);
        assert((a + b).drop_last() =~= a + b.drop_last());
        assert((a + b).last() == b.last());
        assert(tiles_at(a + b, t) =~= tiles_at(a, t) + tiles_at(b, t));
    } else {
        assert(a + b =~= a);
        assert(tiles_at(a + b, t) =~= tiles_at(a, t) + tiles_at(b, t));
    }
}

/// What counts as a sliver: nothing on screen for a thousand nanoseconds or less. What counts
/// as near: less than a thousand nanoseconds apart.
pub proof fn law_slivers_and_near_times(s: Span, a: int, b: int)
    ensures
        is_sliver(s) <==> s.tiles.len() == 0 && s.end - s.start <= 1_000,
        is_near(a, b) <==> a - b < 1_000 && b - a < 1_000,
{
}

/// Rows that are near each other begin and end together: a row that is near the one before,
/// as that is shown, takes its bounds, and any other row keeps its own, from the start of the
/// output on. Each keeps its tile.
pub proof fn law_near_rows_are_shown_together(rows: Seq<Row>, r: Row)
    requires
        rows.len() > 0,
    ensures
        ({
            let before = snapped(rows);
            let all = snapped(rows.push(r));
            let start = if r.start < 0 {
                0
            } else {
                r.start as int
            };
            let last = before.last();
            let near = -1_000 < last.start - start < 1_000 && -1_000 < last.end - r.end < 1_000;
            &&& before.len() == rows.len()
            &&& all.len() == rows.len() + 1
            &&& all.drop_last() == before
            &&& all.last().tile == r.tile
            &&& near ==> all.last().start == last.start && all.last().end == last.end
            &&& !near ==> all.last().start == start && all.last().end == r.end
        }),
    decreases rows.len(),
{
    assert(rows.push(r).drop_last() =~= rows);
    let before = snapped(rows);
    lemma_snapped_len(rows);
    assert(snapped(rows.push(r)).drop_last() =~= before);
}

proof fn lemma_snapped_len(rows: Seq<Row>)
    ensures
        snapped(rows).len() == rows.len(),
    decreases rows.len(),
{
    if rows.len() > 0 {
        lemma_snapped_len(rows.drop_last());
    }
}

/// The rows are those of the segments, one after the other: a segment has one if it can be
/// shown and some of it lies behind the start of the output.
pub proof fn law_rows_of_segments(
    a: Seq<SpatialSegment>,
    b: Seq<SpatialSegment>,
    s: SpatialSegment,
    ps: Seq<Participant>,
)
    ensures
        rows_of(Seq::empty(), ps).len() == 0,
        row_of(s, ps) matches Some(r) ==> (s.start_time < s.end_time && 0 < s.end_time ==> rows_of(
            seq![s],
            ps,
        ) == seq![r]),
        row_of(s, ps) is None || s.end_time <= s.start_time || s.end_time <= 0 ==> rows_of(
            seq![s],
            ps,
        ).len() == 0,
        rows_of(a + b, ps) == rows_of(a, ps) + rows_of(b, ps),
    decreases b.len(),
{
    assert(seq![s].drop_last() =~= Seq::<SpatialSegment>::empty());
    assert(rows_of(Seq::<SpatialSegment>::empty(), ps) =~= Seq::empty());
    if let Some(r) = row_of(s, ps) {
        assert(rows_of(seq![s].drop_last(), ps).push(r) =~= seq![r]);
    }
    if b.len() > 0 {
        law_rows_of_segments(a, b.drop_last(), s, ps);
        assert((a + b).drop_last() =~= a + b.drop_last());
        assert((a + b).last() == b.last());
        assert(rows_of(a + b, ps) =~= rows_of(a, ps) + rows_of(b, ps));
    } else {
        assert(a + b =~= a);
        assert(rows_of(a + b, ps) =~= rows_of(a, ps) + rows_of(b, ps));
    }
}

/// The rows are shown in order of their start, the earlier ones below, and those that start
/// together in the timeline's order.
pub proof fn law_rows_are_in_order(segs: Seq<SpatialSegment>, ps: Seq<Participant>, v: int)
    ensures
        forall|i: int, j: int|
            0 <= i <= j < sorted_rows(segs, ps).len() ==> (#[trigger] sorted_rows(
                segs,
                ps,
            )[i]).start <= (#[trigger] sorted_rows(segs, ps)[j]).start,
        sorted_rows(segs, ps).to_multiset() == rows_of(segs, ps).to_multiset(),
        with_key(sorted_rows(segs, ps), by_start(), v) == with_key(
            rows_of(segs, ps),
            by_start(),
            v,
        ),
        forall|r: Row| #[trigger] by_start()(r) == r.start,
{
    law_sorting_is_stable(rows_of(segs, ps), by_start(), v);
    let s = sorted_rows(segs, ps);
    assert forall|i: int, j: int| 0 <= i <= j < s.len() implies (#[trigger] s[i]).start <= (
    #[trigger] s[j]).start by {
        assert(by_start()(s[i]) <= by_start()(s[j]));
    }
}

/// What stands for a window: its own start, end and tiles.
pub proof fn law_window_values(w: Window)
    ensures
        w@.start == w.start,
        w@.end == w.end,
        w@.tiles == w.tiles@,
{
}

} // verus!
