//! The fixed overlays of the cloud master: the subscribe band at the bottom and the mascot
//! badge in the top right corner. A full-frame feed would cover them, so they are measured
//! and put back from the cloud itself, the band as a stadium and the badge as a disc.
use vstd::prelude::*;

use crate::colour::{brand_blue, cool_bright, is_brand_blue, is_cool_bright};
use crate::frame::PpmFrame;
use crate::geometry::{max_int, min_int};

verus! {

pub open spec fn is_blue_at(f: PpmFrame, x: int, y: int) -> bool {
    is_brand_blue(f.at(x, y))
}

/// How many blue pixels stand in row `y` directly before column `x`.
pub open spec fn run_before(f: PpmFrame, y: int, x: int) -> int
    decreases x,
{
    if x <= 0 || !is_blue_at(f, x - 1, y) {
        0
    } else {
        1 + run_before(f, y, x - 1)
    }
}

/// The longest run of blue pixels in the first `n` columns of row `y`.
pub open spec fn longest_run(f: PpmFrame, y: int, n: int) -> int
    decreases n,
{
    if n <= 0 {
        0
    } else {
        max_int(longest_run(f, y, n - 1), run_before(f, y, n))
    }
}

/// The leftmost blue column among the first `n` of row `y`, or the width.
pub open spec fn leftmost(f: PpmFrame, y: int, n: int) -> int
    decreases n,
{
    if n <= 0 {
        f.width as int
    } else if is_blue_at(f, n - 1, y) {
        min_int(leftmost(f, y, n - 1), n - 1)
    } else {
        leftmost(f, y, n - 1)
    }
}

/// The rightmost blue column among the first `n` of row `y`, or zero.
pub open spec fn rightmost(f: PpmFrame, y: int, n: int) -> int
    decreases n,
{
    if n <= 0 {
        0
    } else if is_blue_at(f, n - 1, y) {
        n - 1
    } else {
        rightmost(f, y, n - 1)
    }
}

/// The row from which on the band is looked for: the lower two fifths of the frame.
pub open spec fn first_row(f: PpmFrame) -> int {
    f.height * 6 / 10
}

/// The widest blue run in the rows from `first_row` up to `n`.
pub open spec fn widest_run(f: PpmFrame, n: int) -> int
    decreases n,
{
    if n <= first_row(f) {
        0
    } else {
        max_int(widest_run(f, n - 1), longest_run(f, n - 1, f.width as int))
    }
}

/// A row of the band: its blue run is more than three tenths of the width.
pub open spec fn is_band_row(f: PpmFrame, y: int) -> bool {
    longest_run(f, y, f.width as int) > f.width * 3 / 10
}

/// The bounding box of some rows or pixels.
pub struct Extent {
    pub left: int,
    pub right: int,
    pub top: int,
    pub bottom: int,
}

/// The blue extent of the band's rows from `first_row` up to `n`.
pub open spec fn band_extent(f: PpmFrame, n: int) -> Extent
    decreases n,
{
    if n <= first_row(f) {
        Extent { left: f.width as int, right: 0, top: f.height as int, bottom: 0 }
    } else {
        let e = band_extent(f, n - 1);
        let y = n - 1;
        if is_band_row(f, y) {
            Extent {
                left: min_int(e.left, leftmost(f, y, f.width as int)),
                right: max_int(e.right, rightmost(f, y, f.width as int)),
                top: min_int(e.top, y),
                bottom: max_int(e.bottom, y),
            }
        } else {
            e
        }
    }
}

/// The stadium of the subscribe band, and its widest blue run. The true band is the
/// widest blue bar; a participant's blue or a lower third has narrower runs.
#[derive(Debug, Clone, Copy, PartialEq, Eq, Structural)]
pub struct Band {
    pub cx: i32,
    pub cy: i32,
    pub half_width: i32,
    pub radius: i32,
    pub widest: i32,
}

/// The band of a frame. None if even the widest blue run is below half the width.
pub open spec fn band_of(f: PpmFrame) -> Option<Band> {
    let e = band_extent(f, f.height as int);
    let widest = widest_run(f, f.height as int);
    if widest < f.width * 5 / 10 {
        None
    } else {
        Some(
            Band {
                cx: ((e.left + e.right) / 2) as i32,
                cy: ((e.top + e.bottom) / 2) as i32,
                half_width: ((e.right - e.left) / 2) as i32,
                radius: ((e.bottom - e.top) / 2) as i32,
                widest: widest as i32,
            },
        )
    }
}

/// The frame is wide enough that half its width is more than three tenths of it, or it
/// has blue to measure, or it has no pixels at all.
pub open spec fn is_measurable(f: PpmFrame) -> bool {
    f.width >= 2 || widest_run(f, f.height as int) > 0 || (f.width == 0 && f.height == 0)
}

proof fn lemma_row(f: PpmFrame, y: int, n: int)
    requires
        0 <= n <= f.width,
    ensures
        0 <= run_before(f, y, n) <= n,
        0 <= longest_run(f, y, n) <= n,
        0 <= leftmost(f, y, n) <= f.width,
        0 <= rightmost(f, y, n),
        rightmost(f, y, n) < n || rightmost(f, y, n) == 0,
        longest_run(f, y, n) > 0 ==> leftmost(f, y, n) <= rightmost(f, y, n),
        leftmost(f, y, n) < f.width ==> leftmost(f, y, n) <= rightmost(f, y, n),
    decreases n,
{
    if n > 0 {
        lemma_row(f, y, n - 1);
    }
}

proof fn lemma_extent(f: PpmFrame, n: int)
    requires
        0 <= n <= f.height,
    ensures
        ({
            let e = band_extent(f, n);
            &&& 0 <= e.left <= f.width
            &&& 0 <= e.right <= f.width
            &&& 0 <= e.top <= f.height
            &&& 0 <= e.bottom <= f.height
            &&& 0 <= widest_run(f, n) <= f.width
            &&& widest_run(f, n) > f.width * 3 / 10 ==> e.left <= e.right && e.top <= e.bottom
        }),
    decreases n,
{
    if n > first_row(f) {
        lemma_extent(f, n - 1);
        lemma_row(f, n - 1, f.width as int);
    }
}

/// The position of a pixel in the frame.
fn cell(f: &PpmFrame, x: u32, y: u32) -> (r: usize)
    requires
        f.wf(),
        x < f.width,
        y < f.height,
    ensures
        r == y * f.width + x,
        r < f.pixels@.len(),
{
    proof {
        assert(f.pixels.len() == f.pixels@.len());
        lemma_cell(f.width as int, f.height as int, x as int, y as int);
    }
    (y as u64 * f.width as u64 + x as u64) as usize
}

proof fn lemma_cell(w: int, h: int, x: int, y: int)
    requires
        0 <= x < w <= 0xffff_ffff,
        0 <= y < h <= 0xffff_ffff,
    ensures
        0 <= y * w + x < w * h,
        0 <= y * w <= 0xffff_ffff * 0xffff_ffff,
{
    assert(0 <= y * w && y * w + w <= w * h && y * w <= 0xffff_ffff * 0xffff_ffff)
        by (nonlinear_arith)
        requires
            0 <= x < w <= 0xffff_ffff,
            0 <= y < h <= 0xffff_ffff,
    ;
}

/// What a row shows of the band.
struct Row {
    longest: u32,
    left: u32,
    right: u32,
}

fn measure_row(f: &PpmFrame, y: u32) -> (r: Row)
    requires
        f.wf(),
        y < f.height,
    ensures
        r.longest == longest_run(*f, y as int, f.width as int),
        r.left == leftmost(*f, y as int, f.width as int),
        r.right == rightmost(*f, y as int, f.width as int),
{
    let w: u32 = f.width;
    let mut left: u32 = w;
    let mut right: u32 = 0;
    let mut current: u32 = 0;
    let mut longest: u32 = 0;
    let mut x: u32 = 0;
    while x < w
        invariant
            x <= w,
            w == f.width,
            f.wf(),
            y < f.height,
            current <= x,
            current == run_before(*f, y as int, x as int),
            longest == longest_run(*f, y as int, x as int),
            left == leftmost(*f, y as int, x as int),
            right == rightmost(*f, y as int, x as int),
        decreases w - x,
    {
        if brand_blue(&f.pixels[cell(f, x, y)]) {
            current = current + 1;
            if x < left {
                left = x;
            }
            right = x;
            if current > longest {
                longest = current;
            }
        } else {
            current = 0;
        }
        proof {
            lemma_row(*f, y as int, x as int);
        }
        x = x + 1;
    }
    Row { longest, left, right }
}

/// Measures the subscribe band of a frame: a wide solid blue bar. The band's rows are
/// those of the lower part whose blue run is a large fraction of the width, and their
/// blue extent gives its position and size. A frame whose widest run is still short
/// carries no band.
pub fn measure_band(f: &PpmFrame) -> (r: Option<Band>)
    requires
        f.wf(),
        is_measurable(*f),
    ensures
        r == band_of(*f),
{
    let (w, h) = (f.width, f.height);
    let from: u32 = (h as u64 * 6 / 10) as u32;
    let narrow: u32 = (w as u64 * 3 / 10) as u32;
    let wide: u32 = (w as u64 * 5 / 10) as u32;
    let mut left: u32 = w;
    let mut right: u32 = 0;
    let mut top: u32 = h;
    let mut bottom: u32 = 0;
    let mut widest: u32 = 0;
    let mut y: u32 = from;
    while y < h
        invariant
            f.wf(),
            w == f.width,
            h == f.height,
            from <= y <= h,
            from == first_row(*f),
            narrow == w * 3 / 10,
            widest == widest_run(*f, y as int),
            left == band_extent(*f, y as int).left,
            right == band_extent(*f, y as int).right,
            top == band_extent(*f, y as int).top,
            bottom == band_extent(*f, y as int).bottom,
        decreases h - y,
    {
        let row = measure_row(f, y);
        if row.longest > widest {
            widest = row.longest;
        }
        if row.longest > narrow {
            if y < top {
                top = y;
            }
            if y > bottom {
                bottom = y;
            }
            if row.left < left {
                left = row.left;
            }
            if row.right > right {
                right = row.right;
            }
        }
        y = y + 1;
    }
    proof {
        lemma_extent(*f, h as int);
    }
    if widest < wide {
        return None;
    }
    Some(
        Band {
            cx: ((left as u64 + right as u64) / 2) as i32,
            cy: ((top as u64 + bottom as u64) / 2) as i32,
            half_width: ((right - left) / 2) as i32,
            radius: ((bottom - top) / 2) as i32,
            widest: widest as i32,
        },
    )
}

/// The number of cells in the rows that are searched for the badge.
pub open spec fn badge_cells(f: PpmFrame) -> int {
    (f.height * 4 / 10) * f.width
}

/// Cell `k`, counted row by row, is a cool bright pixel near the top right corner.
pub open spec fn is_badge(f: PpmFrame, k: int) -> bool {
    k % f.width as int >= f.width * 72 / 100 && is_cool_bright(f.pixels@[k])
}

/// The squared distance of cell `k` from the top right corner.
pub open spec fn corner_distance(f: PpmFrame, k: int) -> int {
    let (dx, dy) = (f.width - k % f.width as int, k / f.width as int);
    dx * dx + dy * dy
}

/// The badge pixel nearest to the corner among the first `n` cells, the first of several.
pub open spec fn nearest_badge(f: PpmFrame, n: int) -> Option<int>
    decreases n,
{
    if n <= 0 {
        None
    } else {
        let p = nearest_badge(f, n - 1);
        if is_badge(f, n - 1) && (p matches Some(q) ==> corner_distance(f, n - 1) < corner_distance(
            f,
            q,
        )) {
            Some(n - 1)
        } else {
            p
        }
    }
}

/// The nearest badge pixel is a badge pixel, and no other is nearer to the corner.
pub proof fn law_nearest_badge(f: PpmFrame, n: int)
    ensures
        match nearest_badge(f, n) {
            Some(p) => 0 <= p < n && is_badge(f, p) && forall|k: int|
                0 <= k < n && is_badge(f, k) ==> corner_distance(f, p) <= #[trigger] corner_distance(
                    f,
                    k,
                ),
            None => forall|k: int| 0 <= k < n ==> !#[trigger] is_badge(f, k),
        },
    decreases n,
{
    if n > 0 {
        law_nearest_badge(f, n - 1);
    }
}

/// How far the badge reaches from its nearest pixel: one and a half of its diameter.
pub const BADGE_REACH: i128 = 150;

/// Below this number of pixels a cluster is no badge.
pub const BADGE_PIXELS: u64 = 300;

/// Cell `k` is a badge pixel within reach of cell `c`.
pub open spec fn in_cluster(f: PpmFrame, c: int, k: int) -> bool {
    let w = f.width as int;
    let (dx, dy) = (k % w - c % w, k / w - c / w);
    is_badge(f, k) && dx * dx + dy * dy <= BADGE_REACH * BADGE_REACH
}

/// How many of the first `n` cells are in the cluster around cell `c`.
pub open spec fn cluster_size(f: PpmFrame, c: int, n: int) -> int
    decreases n,
{
    if n <= 0 {
        0
    } else {
        cluster_size(f, c, n - 1) + if in_cluster(f, c, n - 1) {
            1int
        } else {
            0
        }
    }
}

/// The bounding box of the cluster around cell `c` within the first `n` cells.
pub open spec fn cluster_extent(f: PpmFrame, c: int, n: int) -> Extent
    decreases n,
{
    if n <= 0 {
        Extent { left: f.width as int, right: 0, top: f.height as int, bottom: 0 }
    } else {
        let e = cluster_extent(f, c, n - 1);
        let (x, y) = ((n - 1) % f.width as int, (n - 1) / f.width as int);
        if in_cluster(f, c, n - 1) {
            Extent {
                left: min_int(e.left, x),
                right: max_int(e.right, x),
                top: min_int(e.top, y),
                bottom: max_int(e.bottom, y),
            }
        } else {
            e
        }
    }
}

/// The disc of the mascot badge.
#[derive(Debug, Clone, Copy, PartialEq, Eq, Structural)]
pub struct Disc {
    pub cx: i32,
    pub cy: i32,
    pub radius: i32,
}

/// The badge of a frame: the disc around the cluster of the pixel nearest to the corner,
/// with a margin of two so that the rim is not clipped.
pub open spec fn mascot_of(f: PpmFrame) -> Option<Disc> {
    let n = badge_cells(f);
    match nearest_badge(f, n) {
        None => None,
        Some(c) => {
            let e = cluster_extent(f, c, n);
            if cluster_size(f, c, n) < BADGE_PIXELS {
                None
            } else {
                Some(
                    Disc {
                        cx: ((e.left + e.right) / 2) as i32,
                        cy: ((e.top + e.bottom) / 2) as i32,
                        radius: (max_int(e.right - e.left, e.bottom - e.top) / 2 + 2) as i32,
                    },
                )
            }
        },
    }
}

proof fn lemma_cells(f: PpmFrame)
    requires
        f.wf(),
    ensures
        0 <= badge_cells(f) <= f.pixels@.len(),
{
    let (w, h) = (f.width as int, f.height as int);
    assert(0 <= (h * 4 / 10) * w <= h * w) by (nonlinear_arith)
        requires
            0 <= h * 4 / 10 <= h,
            0 <= w,
    ;
    assert(h * w == w * h) by (nonlinear_arith);
}

proof fn lemma_column_row(f: PpmFrame, k: int)
    requires
        0 <= k < badge_cells(f),
    ensures
        0 < f.width,
        0 <= k % f.width as int,
        k % (f.width as int) < f.width,
        0 <= k / f.width as int,
        k / (f.width as int) < f.height,
{
    let w = f.width as int;
    let rows = f.height * 4 / 10;
    assert(w > 0) by (nonlinear_arith)
        requires
            0 <= k < rows * w,
            w >= 0,
    ;
    vstd::arithmetic::div_mod::lemma_mod_bound(k, w);
    vstd::arithmetic::div_mod::lemma_fundamental_div_mod(k, w);
    let q = k / w;
    assert(0 <= q < rows) by (nonlinear_arith)
        requires
            k == w * q + k % w,
            0 <= k % w < w,
            0 <= k < rows * w,
    ;
}

proof fn lemma_cluster(f: PpmFrame, c: int, n: int)
    requires
        0 <= n <= badge_cells(f),
        0 <= c < badge_cells(f),
    ensures
        ({
            let e = cluster_extent(f, c, n);
            let (x, y) = (c % f.width as int, c / f.width as int);
            &&& 0 <= cluster_size(f, c, n) <= n
            &&& 0 <= e.left <= f.width
            &&& 0 <= e.right <= f.width
            &&& 0 <= e.top <= f.height
            &&& 0 <= e.bottom <= f.height
            &&& cluster_size(f, c, n) > 0 ==> {
                &&& x - BADGE_REACH <= e.left <= e.right <= x + BADGE_REACH
                &&& y - BADGE_REACH <= e.top <= e.bottom <= y + BADGE_REACH
            }
            &&& cluster_size(f, c, n) == 0 ==> e == (Extent {
                left: f.width as int,
                right: 0,
                top: f.height as int,
                bottom: 0,
            })
        }),
    decreases n,
{
    if n > 0 {
        lemma_cluster(f, c, n - 1);
        lemma_column_row(f, n - 1);
        lemma_column_row(f, c);
        if in_cluster(f, c, n - 1) {
            let w = f.width as int;
            let (dx, dy) = ((n - 1) % w - c % w, (n - 1) / w - c / w);
            assert(-150 <= dx <= 150 && -150 <= dy <= 150) by (nonlinear_arith)
                requires
                    dx * dx + dy * dy <= 22500,
            ;
        }
    }
}

fn badge(f: &PpmFrame, k: usize) -> (r: bool)
    requires
        f.wf(),
        k < badge_cells(*f),
    ensures
        r == is_badge(*f, k as int),
{
    proof {
        lemma_cells(*f);
        lemma_column_row(*f, k as int);
    }
    let w: u64 = f.width as u64;
    k as u64 % w >= w * 72 / 100 && cool_bright(&f.pixels[k])
}

fn distance(f: &PpmFrame, k: usize) -> (r: i128)
    requires
        k < badge_cells(*f),
    ensures
        r == corner_distance(*f, k as int),
{
    proof {
        lemma_column_row(*f, k as int);
    }
    let w: u64 = f.width as u64;
    let dx: i128 = (w - k as u64 % w) as i128;
    let dy: i128 = (k as u64 / w) as i128;
    assert(0 <= dx * dx <= 0xffff_ffff * 0xffff_ffff && 0 <= dy * dy <= 0xffff_ffff * 0xffff_ffff)
        by (nonlinear_arith)
        requires
            0 <= dx <= 0xffff_ffff,
            0 <= dy <= 0xffff_ffff,
    ;
    dx * dx + dy * dy
}

fn find_badge(f: &PpmFrame, n: usize) -> (r: Option<usize>)
    requires
        f.wf(),
        n == badge_cells(*f),
    ensures
        r is Some <==> nearest_badge(*f, n as int) is Some,
        r matches Some(p) ==> nearest_badge(*f, n as int) == Some(p as int) && p < n,
{
    let mut best: Option<usize> = None;
    let mut k: usize = 0;
    while k < n
        invariant
            k <= n,
            n == badge_cells(*f),
            f.wf(),
            best is Some <==> nearest_badge(*f, k as int) is Some,
            best matches Some(p) ==> nearest_badge(*f, k as int) == Some(p as int) && p < k,
        decreases n - k,
    {
        if badge(f, k) {
            let nearer = match best {
                Some(p) => distance(f, k) < distance(f, p),
                None => true,
            };
            if nearer {
                best = Some(k);
            }
        }
        k = k + 1;
    }
    best
}

fn clustered(f: &PpmFrame, c: usize, k: usize) -> (r: bool)
    requires
        f.wf(),
        c < badge_cells(*f),
        k < badge_cells(*f),
    ensures
        r == in_cluster(*f, c as int, k as int),
{
    proof {
        lemma_column_row(*f, c as int);
        lemma_column_row(*f, k as int);
    }
    let w: u64 = f.width as u64;
    let dx: i128 = (k as u64 % w) as i128 - (c as u64 % w) as i128;
    let dy: i128 = (k as u64 / w) as i128 - (c as u64 / w) as i128;
    assert(0 <= dx * dx <= 0xffff_ffff * 0xffff_ffff && 0 <= dy * dy <= 0xffff_ffff * 0xffff_ffff)
        by (nonlinear_arith)
        requires
            -0xffff_ffff <= dx <= 0xffff_ffff,
            -0xffff_ffff <= dy <= 0xffff_ffff,
    ;
    badge(f, k) && dx * dx + dy * dy <= BADGE_REACH * BADGE_REACH
}

/// Measures the mascot badge of a frame: the disc around it. Its rim is the cool bright
/// blob nearest to the top right corner; a bright object in a feed lies lower and more
/// central, and a room or a shirt is warm. The badge is the cool bright cluster around
/// that nearest pixel.
pub fn measure_mascot(f: &PpmFrame) -> (r: Option<Disc>)
    requires
        f.wf(),
    ensures
        r == mascot_of(*f),
{
    proof {
        lemma_cells(*f);
    }
    let len: usize = f.pixels.len();
    let w: u32 = f.width;
    let rows: u64 = f.height as u64 * 4 / 10;
    assert(rows * w <= len);
    let n: usize = (rows * w as u64) as usize;
    let c: usize = match find_badge(f, n) {
        Some(c) => c,
        None => {
            return None;
        },
    };
    let mut count: u64 = 0;
    let mut left: u32 = w;
    let mut right: u32 = 0;
    let mut top: u32 = f.height;
    let mut bottom: u32 = 0;
    let mut k: usize = 0;
    while k < n
        invariant
            k <= n,
            c < n,
            n == badge_cells(*f),
            w == f.width,
            f.wf(),
            count <= k,
            count == cluster_size(*f, c as int, k as int),
            left == cluster_extent(*f, c as int, k as int).left,
            right == cluster_extent(*f, c as int, k as int).right,
            top == cluster_extent(*f, c as int, k as int).top,
            bottom == cluster_extent(*f, c as int, k as int).bottom,
        decreases n - k,
    {
        if clustered(f, c, k) {
            proof {
                lemma_column_row(*f, k as int);
            }
            let x: u32 = (k as u64 % w as u64) as u32;
            let y: u32 = (k as u64 / w as u64) as u32;
            count = count + 1;
            if x < left {
                left = x;
            }
            if x > right {
                right = x;
            }
            if y < top {
                top = y;
            }
            if y > bottom {
                bottom = y;
            }
        }
        k = k + 1;
    }
    if count < BADGE_PIXELS {
        return None;
    }
    proof {
        lemma_cluster(*f, c as int, n as int);
    }
    let (dx, dy) = (right - left, bottom - top);
    let span: u32 = if dx >= dy { dx } else { dy };
    Some(
        Disc {
            cx: ((left as u64 + right as u64) / 2) as i32,
            cy: ((top as u64 + bottom as u64) / 2) as i32,
            radius: (span / 2 + 2) as i32,
        },
    )
}

/// The pixel in column `x` of row `y` is the brand's blue.
pub open spec fn shows_blue(f: PpmFrame, x: int, y: int) -> bool {
    let p = f.pixels@[y * f.width + x]@;
    p[2] > 120 && p[2] - p[0] > 40 && p[2] - p[1] > 20
}

/// Row `y` has `n` blue pixels side by side, from column `a` on.
pub open spec fn is_run(f: PpmFrame, y: int, a: int, n: int) -> bool {
    0 <= a && a + n <= f.width && forall|x: int| a <= x < a + n ==> #[trigger] shows_blue(f, x, y)
}

/// Row `y` has `n` blue pixels side by side.
pub open spec fn has_run(f: PpmFrame, y: int, n: int) -> bool {
    exists|a: int| #[trigger] is_run(f, y, a, n)
}

proof fn lemma_blue(f: PpmFrame, x: int, y: int)
    ensures
        is_blue_at(f, x, y) == shows_blue(f, x, y),
{
}

proof fn lemma_run_before(f: PpmFrame, y: int, n: int)
    requires
        0 <= n <= f.width,
    ensures
        0 <= run_before(f, y, n) <= n,
        forall|x: int| n - run_before(f, y, n) <= x < n ==> #[trigger] shows_blue(f, x, y),
        run_before(f, y, n) < n ==> !shows_blue(f, n - run_before(f, y, n) - 1, y),
    decreases n,
{
    if n > 0 {
        lemma_blue(f, n - 1, y);
        lemma_run_before(f, y, n - 1);
    }
}

proof fn lemma_longest_run(f: PpmFrame, y: int, n: int)
    requires
        0 <= n <= f.width,
    ensures
        0 <= longest_run(f, y, n) <= n,
        has_run(f, y, longest_run(f, y, n)),
        forall|a: int, m: int|
            #[trigger] is_run(f, y, a, m) && a + m <= n ==> m <= longest_run(f, y, n),
    decreases n,
{
    if n > 0 {
        lemma_longest_run(f, y, n - 1);
        lemma_run_before(f, y, n);
        let r = run_before(f, y, n);
        assert(is_run(f, y, n - r, r));
        assert forall|a: int, m: int| #[trigger] is_run(f, y, a, m) && a + m <= n implies m
            <= longest_run(f, y, n) by {
            if a + m == n && m > r {
                assert(shows_blue(f, n - r - 1, y));
            }
        }
    } else {
        assert(is_run(f, y, 0, 0));
        assert forall|a: int, m: int| #[trigger] is_run(f, y, a, m) && a + m <= n implies m
            <= 0 by {}
    }
}

/// The longest run of a row is one of its runs, and the row has none that is longer.
pub proof fn law_longest_run(f: PpmFrame, y: int, n: int)
    ensures
        has_run(f, y, longest_run(f, y, f.width as int)),
        n > longest_run(f, y, f.width as int) ==> !has_run(f, y, n),
{
    lemma_longest_run(f, y, f.width as int);
    if has_run(f, y, n) {
        let a = choose|a: int| #[trigger] is_run(f, y, a, n);
    }
}

/// A row of the lower two fifths with a blue run of more than three tenths of the width.
pub open spec fn is_wide_row(f: PpmFrame, y: int) -> bool {
    f.height * 6 / 10 <= y < f.height && has_run(f, y, f.width * 3 / 10 + 1)
}

proof fn lemma_shorter_run(f: PpmFrame, y: int, m: int, n: int)
    requires
        0 <= m <= n,
        has_run(f, y, n),
    ensures
        has_run(f, y, m),
{
    let a = choose|a: int| #[trigger] is_run(f, y, a, n);
    assert(is_run(f, y, a, m));
}

proof fn lemma_wide_row(f: PpmFrame, y: int)
    ensures
        is_band_row(f, y) == has_run(f, y, f.width * 3 / 10 + 1),
{
    let m = longest_run(f, y, f.width as int);
    lemma_longest_run(f, y, f.width as int);
    law_longest_run(f, y, f.width * 3 / 10 + 1);
    if m > f.width * 3 / 10 {
        lemma_shorter_run(f, y, f.width * 3 / 10 + 1, m);
    }
}

proof fn lemma_ends(f: PpmFrame, y: int, n: int)
    requires
        0 <= n <= f.width,
    ensures
        forall|x: int|
            0 <= x < n && #[trigger] shows_blue(f, x, y) ==> leftmost(f, y, n) <= x <= rightmost(
                f,
                y,
                n,
            ),
        (exists|x: int| 0 <= x < n && #[trigger] shows_blue(f, x, y)) ==> 0 <= leftmost(f, y, n) < n
            && 0 <= rightmost(f, y, n) < n && shows_blue(f, leftmost(f, y, n), y) && shows_blue(
            f,
            rightmost(f, y, n),
            y,
        ),
        (forall|x: int| 0 <= x < n ==> !#[trigger] shows_blue(f, x, y)) ==> leftmost(f, y, n)
            == f.width,
    decreases n,
{
    if n > 0 {
        lemma_ends(f, y, n - 1);
        lemma_blue(f, n - 1, y);
        if exists|x: int| 0 <= x < n && #[trigger] shows_blue(f, x, y) {
            if !(exists|x: int| 0 <= x < n - 1 && #[trigger] shows_blue(f, x, y)) {
                let x = choose|x: int| 0 <= x < n && #[trigger] shows_blue(f, x, y);
                assert(x == n - 1);
                assert(leftmost(f, y, n - 1) == f.width);
            }
        }
    }
}

/// The rectangle from column `l` to column `r` and from row `t` to row `b` is the least around
/// the blue of the wide rows above row `n`: it holds all of it, and some lies on each side.
pub open spec fn surrounds(f: PpmFrame, l: int, r: int, t: int, b: int, n: int) -> bool {
    &&& forall|y: int| y < n && #[trigger] is_wide_row(f, y) ==> t <= y <= b
    &&& forall|x: int, y: int|
        y < n && 0 <= x < f.width && #[trigger] is_wide_row(f, y) && #[trigger] shows_blue(f, x, y)
            ==> l <= x <= r
    &&& (exists|y: int| y < n && #[trigger] is_wide_row(f, y)) ==> {
        &&& t < n && is_wide_row(f, t)
        &&& b < n && is_wide_row(f, b)
        &&& 0 <= l <= r < f.width
        &&& exists|y: int| y < n && #[trigger] is_wide_row(f, y) && shows_blue(f, l, y)
        &&& exists|y: int| y < n && #[trigger] is_wide_row(f, y) && shows_blue(f, r, y)
    }
}

proof fn lemma_surrounds(f: PpmFrame, n: int)
    requires
        first_row(f) <= n <= f.height,
    ensures
        ({
            let e = band_extent(f, n);
            &&& surrounds(f, e.left, e.right, e.top, e.bottom, n)
            &&& (forall|y: int| y < n ==> !#[trigger] is_wide_row(f, y)) ==> e == (Extent {
                left: f.width as int,
                right: 0,
                top: f.height as int,
                bottom: 0,
            })
        }),
    decreases n,
{
    if n > first_row(f) {
        let y = n - 1;
        let w = f.width as int;
        lemma_surrounds(f, y);
        lemma_wide_row(f, y);
        lemma_ends(f, y, w);
        let (d, e) = (band_extent(f, y), band_extent(f, n));
        assert(is_wide_row(f, y) == is_band_row(f, y));
        if is_wide_row(f, y) {
            let a = choose|a: int| #[trigger] is_run(f, y, a, w * 3 / 10 + 1);
            assert(shows_blue(f, a, y));
            let (l, r) = (leftmost(f, y, w), rightmost(f, y, w));
            if exists|z: int| z < y && #[trigger] is_wide_row(f, z) {
                if d.left < l {
                    let z = choose|z: int|
                        z < y && #[trigger] is_wide_row(f, z) && shows_blue(f, d.left, z);
                    assert(z < n && is_wide_row(f, z) && shows_blue(f, e.left, z));
                }
                if d.right > r {
                    let z = choose|z: int|
                        z < y && #[trigger] is_wide_row(f, z) && shows_blue(f, d.right, z);
                    assert(z < n && is_wide_row(f, z) && shows_blue(f, e.right, z));
                }
            } else {
                assert(forall|z: int| z < y ==> !#[trigger] is_wide_row(f, z));
            }
            if e.left == l {
                assert(y < n && is_wide_row(f, y) && shows_blue(f, e.left, y));
            }
            if e.right == r {
                assert(y < n && is_wide_row(f, y) && shows_blue(f, e.right, y));
            }
        } else {
            assert forall|z: int| z < n && #[trigger] is_wide_row(f, z) implies z < y by {}
            if exists|z: int| z < n && #[trigger] is_wide_row(f, z) {
                let z = choose|z: int| z < n && #[trigger] is_wide_row(f, z);
                assert(z < y);
                let p = choose|p: int|
                    p < y && #[trigger] is_wide_row(f, p) && shows_blue(f, d.left, p);
                assert(p < n && is_wide_row(f, p) && shows_blue(f, e.left, p));
                let q = choose|q: int|
                    q < y && #[trigger] is_wide_row(f, q) && shows_blue(f, d.right, q);
                assert(q < n && is_wide_row(f, q) && shows_blue(f, e.right, q));
            }
        }
    } else {
        assert forall|y: int| y < n implies !#[trigger] is_wide_row(f, y) by {}
    }
}

proof fn lemma_widest_run(f: PpmFrame, n: int)
    requires
        first_row(f) <= n <= f.height,
    ensures
        0 <= widest_run(f, n) <= f.width,
        forall|y: int, m: int|
            first_row(f) <= y < n && #[trigger] has_run(f, y, m) ==> m <= widest_run(f, n),
        widest_run(f, n) > 0 ==> exists|y: int|
            first_row(f) <= y < n && #[trigger] has_run(f, y, widest_run(f, n)),
    decreases n,
{
    if n > first_row(f) {
        let y = n - 1;
        lemma_widest_run(f, y);
        lemma_longest_run(f, y, f.width as int);
        assert forall|z: int, m: int|
            first_row(f) <= z < n && #[trigger] has_run(f, z, m) implies m <= widest_run(f, n) by {
            if z == y {
                law_longest_run(f, y, m);
            }
        }
        if widest_run(f, n) == longest_run(f, y, f.width as int) {
            assert(has_run(f, y, widest_run(f, n)));
        } else {
            let z = choose|z: int|
                first_row(f) <= z < y && #[trigger] has_run(f, z, widest_run(f, y));
            assert(has_run(f, z, widest_run(f, n)));
        }
    }
}

/// A frame has a band exactly if a row of its lower two fifths has a blue run of half the
/// width. The band's widest run is the longest one of those rows.
pub proof fn law_band_is_the_widest_bar(f: PpmFrame)
    requires
        2 <= f.width <= i32::MAX,
        f.height <= i32::MAX,
    ensures
        band_of(f) is Some <==> exists|y: int|
            f.height * 6 / 10 <= y < f.height && #[trigger] has_run(f, y, f.width as int / 2),
        band_of(f) matches Some(b) ==> {
            &&& exists|y: int|
                f.height * 6 / 10 <= y < f.height && #[trigger] has_run(f, y, b.widest as int)
            &&& forall|y: int, m: int|
                f.height * 6 / 10 <= y < f.height && #[trigger] has_run(f, y, m) ==> m <= b.widest
        },
{
    let h = f.height as int;
    lemma_widest_run(f, h);
    let m = widest_run(f, h);
    assert(f.width * 5 / 10 == f.width as int / 2);
    if m >= f.width as int / 2 {
        let y = choose|y: int| first_row(f) <= y < h && #[trigger] has_run(f, y, m);
        lemma_shorter_run(f, y, f.width as int / 2, m);
        let b = band_of(f)->0;
        assert(b.widest == m);
        assert(has_run(f, y, b.widest as int));
        assert forall|z: int, k: int|
            f.height * 6 / 10 <= z < f.height && #[trigger] has_run(f, z, k) implies k
            <= b.widest by {
            assert(first_row(f) <= z < h);
        }
    }
}

/// The band's place: the middle and half the size of the least rectangle around the blue of
/// the rows of the lower two fifths whose blue run is above three tenths of the width.
pub proof fn law_band_is_around_its_blue(f: PpmFrame)
    requires
        2 <= f.width <= i32::MAX,
        f.height <= i32::MAX,
    ensures
        band_of(f) matches Some(b) ==> exists|l: int, r: int, t: int, u: int|
            {
                &&& #[trigger] surrounds(f, l, r, t, u, f.height as int)
                &&& b.cx == (l + r) / 2
                &&& b.cy == (t + u) / 2
                &&& b.half_width == (r - l) / 2
                &&& b.radius == (u - t) / 2
                &&& l <= r && t <= u
            },
{
    let h = f.height as int;
    lemma_surrounds(f, h);
    lemma_extent(f, h);
    let e = band_extent(f, h);
    if band_of(f) is Some {
        assert(surrounds(f, e.left, e.right, e.top, e.bottom, h));
    }
}

/// The pixel in column `x` of row `y` lies in the upper two fifths and right of 72 hundredths
/// of the width, and is cool and bright.
pub open spec fn is_badge_pixel(f: PpmFrame, x: int, y: int) -> bool {
    let p = f.pixels@[y * f.width + x]@;
    &&& 0 <= y < f.height * 4 / 10
    &&& f.width * 72 / 100 <= x < f.width
    &&& p[1] > 190 && p[2] > 190 && p[0] - p[2] <= 8
}

/// A cell is the pixel in its column of its row.
proof fn lemma_badge_pixel(f: PpmFrame, k: int)
    requires
        0 <= k < badge_cells(f),
    ensures
        is_badge(f, k) == is_badge_pixel(f, k % f.width as int, k / f.width as int),
        0 <= k % f.width as int,
{
    let w = f.width as int;
    lemma_column_row(f, k);
    vstd::arithmetic::div_mod::lemma_fundamental_div_mod(k, w);
    let q = k / w;
    assert(q * w == w * q) by (nonlinear_arith);
    assert(q < f.height * 4 / 10) by (nonlinear_arith)
        requires
            w * q <= k,
            k < (f.height * 4 / 10) * w,
            w > 0,
    ;
}

/// The cell of a pixel.
proof fn lemma_cell_of(f: PpmFrame, x: int, y: int) -> (k: int)
    requires
        is_badge_pixel(f, x, y),
    ensures
        0 <= k < badge_cells(f),
        k % f.width as int == x,
        k / f.width as int == y,
{
    let w = f.width as int;
    let k = y * w + x;
    assert(0 <= k < (f.height * 4 / 10) * w) by (nonlinear_arith)
        requires
            k == y * w + x,
            0 <= x < w,
            0 <= y < f.height * 4 / 10,
    ;
    assert(k == w * y + x) by (nonlinear_arith)
        requires
            k == y * w + x,
    ;
    vstd::arithmetic::div_mod::lemma_fundamental_div_mod_converse(k, w, y, x);
    k
}

/// The badge pixel that counts is the one nearest to the top right corner: its squared
/// distance, by columns to the right edge and rows to the top, is at most that of every
/// other. There is none only if no pixel is one. Of two in one column the lower one is never
/// the nearest.
pub proof fn law_nearest_badge_pixel(f: PpmFrame)
    ensures
        match nearest_badge(f, badge_cells(f)) {
            Some(k) => {
                let (x, y) = (k % f.width as int, k / f.width as int);
                &&& is_badge_pixel(f, x, y)
                &&& forall|u: int, v: int| #[trigger]
                    is_badge_pixel(f, u, v) ==> (f.width - x) * (f.width - x) + y * y <= (f.width
                        - u) * (f.width - u) + v * v
                &&& forall|v: int| #[trigger] is_badge_pixel(f, x, v) ==> y <= v
            },
            None => forall|u: int, v: int| !#[trigger] is_badge_pixel(f, u, v),
        },
{
    let n = badge_cells(f);
    law_nearest_badge(f, n);
    let w = f.width as int;
    match nearest_badge(f, n) {
        Some(k) => {
            let (x, y) = (k % w, k / w);
            lemma_badge_pixel(f, k);
            assert forall|u: int, v: int| #[trigger] is_badge_pixel(f, u, v) implies (w - x) * (w
                - x) + y * y <= (w - u) * (w - u) + v * v by {
                let j = lemma_cell_of(f, u, v);
                lemma_badge_pixel(f, j);
                assert(corner_distance(f, k) <= corner_distance(f, j));
            }
            assert forall|v: int| #[trigger] is_badge_pixel(f, x, v) implies y <= v by {
                assert((w - x) * (w - x) + y * y <= (w - x) * (w - x) + v * v);
                assert(y <= v) by (nonlinear_arith)
                    requires
                        y * y <= v * v,
                        0 <= y,
                        0 <= v,
                ;
            }
        },
        None => {
            assert forall|u: int, v: int| !#[trigger] is_badge_pixel(f, u, v) by {
                if is_badge_pixel(f, u, v) {
                    let j = lemma_cell_of(f, u, v);
                    lemma_badge_pixel(f, j);
                    assert(is_badge(f, j));
                }
            }
        },
    }
}

/// The badge pixel in column `u` of row `v` is at most 150 pixels from the one in column `x`
/// of row `y`.
pub open spec fn is_within_reach(f: PpmFrame, x: int, y: int, u: int, v: int) -> bool {
    is_badge_pixel(f, u, v) && (u - x) * (u - x) + (v - y) * (v - y) <= 150 * 150
}

/// The least rectangle around the badge pixels within reach: it holds all of them, and one
/// lies on each side.
pub open spec fn surrounds_cluster(
    f: PpmFrame,
    x: int,
    y: int,
    l: int,
    r: int,
    t: int,
    b: int,
) -> bool {
    &&& forall|u: int, v: int| #[trigger]
        is_within_reach(f, x, y, u, v) ==> l <= u <= r && t <= v <= b
    &&& exists|v: int| #[trigger] is_within_reach(f, x, y, l, v)
    &&& exists|v: int| #[trigger] is_within_reach(f, x, y, r, v)
    &&& exists|u: int| #[trigger] is_within_reach(f, x, y, u, t)
    &&& exists|u: int| #[trigger] is_within_reach(f, x, y, u, b)
}

/// The cells before `n` of the cluster lie in the extent, and reach its sides.
spec fn is_extent_of(f: PpmFrame, c: int, n: int, e: Extent) -> bool {
    let w = f.width as int;
    &&& forall|k: int|
        0 <= k < n && #[trigger] in_cluster(f, c, k) ==> e.left <= k % w <= e.right && e.top <= k
            / w <= e.bottom
    &&& cluster_size(f, c, n) > 0 ==> {
        &&& exists|k: int| 0 <= k < n && #[trigger] in_cluster(f, c, k) && k % w == e.left
        &&& exists|k: int| 0 <= k < n && #[trigger] in_cluster(f, c, k) && k % w == e.right
        &&& exists|k: int| 0 <= k < n && #[trigger] in_cluster(f, c, k) && k / w == e.top
        &&& exists|k: int| 0 <= k < n && #[trigger] in_cluster(f, c, k) && k / w == e.bottom
    }
    &&& cluster_size(f, c, n) == 0 ==> forall|k: int| 0 <= k < n ==> !#[trigger] in_cluster(f, c, k)
}

proof fn lemma_cluster_extent(f: PpmFrame, c: int, n: int)
    requires
        0 <= n <= badge_cells(f),
        0 <= c < badge_cells(f),
    ensures
        is_extent_of(f, c, n, cluster_extent(f, c, n)),
    decreases n,
{
    let w = f.width as int;
    lemma_cluster(f, c, n);
    if n > 0 {
        let j = n - 1;
        lemma_cluster_extent(f, c, j);
        lemma_cluster(f, c, j);
        lemma_column_row(f, j);
        let (d, e) = (cluster_extent(f, c, j), cluster_extent(f, c, n));
        if cluster_size(f, c, j) > 0 {
            let k1 = choose|k: int| 0 <= k < j && #[trigger] in_cluster(f, c, k) && k % w == d.left;
            let k2 = choose|k: int| 0 <= k < j && #[trigger] in_cluster(f, c, k) && k % w == d.right;
            let k3 = choose|k: int| 0 <= k < j && #[trigger] in_cluster(f, c, k) && k / w == d.top;
            let k4 = choose|k: int|
                0 <= k < j && #[trigger] in_cluster(f, c, k) && k / w == d.bottom;
            assert(0 <= k1 < n && in_cluster(f, c, k1));
            assert(0 <= k2 < n && in_cluster(f, c, k2));
            assert(0 <= k3 < n && in_cluster(f, c, k3));
            assert(0 <= k4 < n && in_cluster(f, c, k4));
        }
        if in_cluster(f, c, j) {
            assert(0 <= j < n && in_cluster(f, c, j));
        }
    }
}

/// How many pixels belong to the badge: one more for each within reach of the nearest one,
/// row by row.
pub proof fn law_cluster_size(f: PpmFrame, c: int, k: int)
    requires
        0 <= c < badge_cells(f),
        0 <= k < badge_cells(f),
    ensures
        ({
            let w = f.width as int;
            &&& cluster_size(f, c, 0) == 0
            &&& is_within_reach(f, c % w, c / w, k % w, k / w) ==> cluster_size(f, c, k + 1)
                == cluster_size(f, c, k) + 1
            &&& !is_within_reach(f, c % w, c / w, k % w, k / w) ==> cluster_size(f, c, k + 1)
                == cluster_size(f, c, k)
        }),
{
    lemma_badge_pixel(f, k);
}

/// The badge is the disc in the middle of the least rectangle around the badge pixels within
/// reach of the nearest one, with half of its longer side and two pixels more as radius. It
/// takes 300 of them.
pub proof fn law_mascot_is_around_its_pixels(f: PpmFrame)
    requires
        f.width <= i32::MAX,
        f.height <= i32::MAX,
    ensures
        nearest_badge(f, badge_cells(f)) is None ==> mascot_of(f) is None,
        nearest_badge(f, badge_cells(f)) matches Some(c) ==> {
            let w = f.width as int;
            let (x, y) = (c % w, c / w);
            &&& mascot_of(f) is Some <==> cluster_size(f, c, badge_cells(f)) >= 300
            &&& mascot_of(f) matches Some(d) ==> exists|l: int, r: int, t: int, b: int|
                {
                    &&& #[trigger] surrounds_cluster(f, x, y, l, r, t, b)
                    &&& d.cx == (l + r) / 2
                    &&& d.cy == (t + b) / 2
                    &&& r - l >= b - t ==> d.radius == (r - l) / 2 + 2
                    &&& r - l <= b - t ==> d.radius == (b - t) / 2 + 2
                }
        },
{
    let n = badge_cells(f);
    law_nearest_badge(f, n);
    if let Some(c) = nearest_badge(f, n) {
        let w = f.width as int;
        let (x, y) = (c % w, c / w);
        lemma_cluster_extent(f, c, n);
        lemma_cluster(f, c, n);
        let e = cluster_extent(f, c, n);
        assert forall|k: int| 0 <= k < n implies #[trigger] in_cluster(f, c, k) == is_within_reach(
            f,
            x,
            y,
            k % w,
            k / w,
        ) by {
            lemma_badge_pixel(f, k);
        }
        if cluster_size(f, c, n) >= 300 {
            assert forall|u: int, v: int| #[trigger] is_within_reach(f, x, y, u, v) implies e.left
                <= u <= e.right && e.top <= v <= e.bottom by {
                let k = lemma_cell_of(f, u, v);
                assert(in_cluster(f, c, k));
            }
            let k1 = choose|k: int| 0 <= k < n && #[trigger] in_cluster(f, c, k) && k % w == e.left;
            assert(is_within_reach(f, x, y, e.left, k1 / w));
            let k2 = choose|k: int| 0 <= k < n && #[trigger] in_cluster(f, c, k) && k % w == e.right;
            assert(is_within_reach(f, x, y, e.right, k2 / w));
            let k3 = choose|k: int| 0 <= k < n && #[trigger] in_cluster(f, c, k) && k / w == e.top;
            assert(is_within_reach(f, x, y, k3 % w, e.top));
            let k4 = choose|k: int|
                0 <= k < n && #[trigger] in_cluster(f, c, k) && k / w == e.bottom;
            assert(is_within_reach(f, x, y, k4 % w, e.bottom));
            assert(surrounds_cluster(f, x, y, e.left, e.right, e.top, e.bottom));
        }
    }
}

} // verus!
