//! The mask that keeps the fixed overlays on top of every window.
//!
//! The band's place never changes, but a frame may carry a participant's blue or a lower
//! third that swells or narrows what is measured. Frames spread across the clip are
//! measured and the one with the widest blue run counts: the true band is the widest bar.
//! Its whole stadium is restored, text included; a mask by colour alone would let the
//! feed show through the white letters.
use vstd::prelude::*;

use crate::chrome::{band_of, is_measurable, mascot_of, measure_band, measure_mascot, Band, Disc};
use crate::clock::{floor_div, fmt_t, seconds_text};
use crate::frame::PpmFrame;
use crate::text::{arg, arg_owned, push_signed, signed_decimal, views};

verus! {

/// How many frames are measured.
pub const MASK_SAMPLES: usize = 7;

/// The width to which the measured frames are scaled.
pub const MASK_WIDTH: u32 = 1920;

/// The moment of sample `k`: from 5% to 95% of the clip in equal steps.
pub open spec fn mask_time(duration: int, k: int) -> int {
    duration * (5 + 15 * k) / 100
}

/// The moments at which frames are sampled to measure the overlays.
pub fn mask_times(duration: i64) -> (r: Vec<i64>)
    ensures
        r@.len() == MASK_SAMPLES,
        forall|k: int| 0 <= k < MASK_SAMPLES ==> #[trigger] r@[k] == mask_time(duration as int, k),
{
    let mut out: Vec<i64> = Vec::new();
    let mut k: usize = 0;
    while k < MASK_SAMPLES
        invariant
            k <= MASK_SAMPLES,
            out@.len() == k,
            forall|j: int| 0 <= j < k ==> #[trigger] out@[j] == mask_time(duration as int, j),
        decreases MASK_SAMPLES - k,
    {
        let part: i128 = 5 + 15 * k as i128;
        assert(-0x8000_0000_0000_0000 * 95 <= duration * part <= 0x7fff_ffff_ffff_ffff * 95)
            by (nonlinear_arith)
            requires
                -0x8000_0000_0000_0000 <= duration <= 0x7fff_ffff_ffff_ffff,
                5 <= part <= 95,
        ;
        let t: i128 = floor_div(duration as i128 * part, 100);
        out.push(t as i64);
        k = k + 1;
    }
    out
}

/// Among the first `n` frames, the first whose band has the widest run of all.
pub open spec fn best_frame(frames: Seq<PpmFrame>, n: int) -> Option<int>
    decreases n,
{
    if n <= 0 {
        None
    } else {
        let p = best_frame(frames, n - 1);
        match band_of(frames[n - 1]) {
            Some(b) => match p {
                Some(q) => if b.widest > band_of(frames[q])->0.widest {
                    Some(n - 1)
                } else {
                    p
                },
                None => Some(n - 1),
            },
            None => p,
        }
    }
}

/// The best frame has a band, and no band of another frame is wider. There is none only if
/// no frame has a band.
pub proof fn law_best_frame(frames: Seq<PpmFrame>, n: int)
    ensures
        match best_frame(frames, n) {
            Some(p) => 0 <= p < n && band_of(frames[p]) is Some && forall|k: int|
                0 <= k < n && band_of(#[trigger] frames[k]) is Some ==> band_of(frames[k])->0.widest
                    <= band_of(frames[p])->0.widest,
            None => forall|k: int| 0 <= k < n ==> band_of(#[trigger] frames[k]) is None,
        },
    decreases n,
{
    if n > 0 {
        law_best_frame(frames, n - 1);
    }
}

/// The half width of the band's central bar. The measured half width reaches to the ends
/// of the caps, so the bar is shorter by one radius; otherwise the dark pixels beside the
/// band would be restored too.
pub open spec fn bar_half_width(b: Band) -> int {
    if b.half_width - b.radius > 0 {
        b.half_width - b.radius
    } else {
        0
    }
}

/// The central bar with a cap at each end is exactly as wide as the measured band.
pub proof fn law_caps_reach_the_ends(b: Band)
    requires
        b.radius <= b.half_width,
    ensures
        bar_half_width(b) + b.radius == b.half_width,
{
}

/// The band's central bar as a test.
pub open spec fn bar_text(b: Band) -> Seq<char> {
    "lt(abs(X-"@ + signed_decimal(b.cx as int) + "),"@ + signed_decimal(bar_half_width(b))
        + ")*lt(abs(Y-"@ + signed_decimal(b.cy as int) + "),"@ + signed_decimal(b.radius as int)
        + ")"@
}

/// How far a pixel lies beyond the end of the central bar.
pub open spec fn beyond_text(b: Band) -> Seq<char> {
    "(abs(X-"@ + signed_decimal(b.cx as int) + ")-"@ + signed_decimal(bar_half_width(b)) + ")"@
}

/// How far a pixel lies below the middle of the band.
pub open spec fn below_text(b: Band) -> Seq<char> {
    "(Y-"@ + signed_decimal(b.cy as int) + ")"@
}

/// The band's two end caps as a test.
pub open spec fn caps_text(b: Band) -> Seq<char> {
    "lt("@ + beyond_text(b) + "*"@ + beyond_text(b) + "+"@ + below_text(b) + "*"@ + below_text(b)
        + ","@ + signed_decimal(b.radius as int) + "*"@ + signed_decimal(b.radius as int) + ")"@
}

/// The band as a sum of tests: the central bar and the two end caps.
pub open spec fn band_text(b: Band) -> Seq<char> {
    bar_text(b) + "+"@ + caps_text(b)
}

/// The badge as one more test.
pub open spec fn disc_text(d: Disc) -> Seq<char> {
    let (cx, cy, r) = (
        signed_decimal(d.cx as int),
        signed_decimal(d.cy as int),
        signed_decimal(d.radius as int),
    );
    "+lt((X-"@ + cx + ")*(X-"@ + cx + ")+(Y-"@ + cy + ")*(Y-"@ + cy + "),"@ + r + "*"@ + r + ")"@
}

/// The filter that keeps the cloud's own pixels and makes all but the overlays
/// transparent. The filter language has no `or`: the tests are added up.
pub open spec fn mask_filter(b: Band, mascot: Option<Disc>) -> Seq<char> {
    "format=rgba,geq=r='r(X,Y)':g='g(X,Y)':b='b(X,Y)':a='if(gt("@ + band_text(b) + match mascot {
        Some(d) => disc_text(d),
        None => Seq::empty(),
    } + ",0),255,0)'"@
}

/// The arguments with which ffmpeg makes the mask out of the frame at `time`.
pub open spec fn mask_args(
    cloud: Seq<char>,
    time: int,
    b: Band,
    mascot: Option<Disc>,
    out: Seq<char>,
) -> Seq<Seq<char>> {
    seq![
        "-y"@,
        "-v"@,
        "error"@,
        "-ss"@,
        seconds_text(time),
        "-i"@,
        cloud,
        "-vf"@,
        mask_filter(b, mascot),
        "-frames:v"@,
        "1"@,
        "-f"@,
        "image2"@,
        "-c:v"@,
        "png"@,
        out,
    ]
}

fn bar(b: &Band) -> (r: i128)
    ensures
        r == bar_half_width(*b),
{
    let d: i128 = b.half_width as i128 - b.radius as i128;
    if d > 0 {
        d
    } else {
        0
    }
}

fn push_bar(out: &mut String, b: &Band)
    ensures
        final(out)@ == old(out)@ + bar_text(*b),
{
    out.append("lt(abs(X-");
    push_signed(out, b.cx as i128);
    out.append("),");
    push_signed(out, bar(b));
    out.append(")*lt(abs(Y-");
    push_signed(out, b.cy as i128);
    out.append("),");
    push_signed(out, b.radius as i128);
    out.append(")");
    assert(out@ =~= old(out)@ + bar_text(*b));
}

fn push_beyond(out: &mut String, b: &Band)
    ensures
        final(out)@ == old(out)@ + beyond_text(*b),
{
    out.append("(abs(X-");
    push_signed(out, b.cx as i128);
    out.append(")-");
    push_signed(out, bar(b));
    out.append(")");
    assert(out@ =~= old(out)@ + beyond_text(*b));
}

fn push_below(out: &mut String, b: &Band)
    ensures
        final(out)@ == old(out)@ + below_text(*b),
{
    out.append("(Y-");
    push_signed(out, b.cy as i128);
    out.append(")");
    assert(out@ =~= old(out)@ + below_text(*b));
}

fn push_caps(out: &mut String, b: &Band)
    ensures
        final(out)@ == old(out)@ + caps_text(*b),
{
    out.append("lt(");
    push_beyond(out, b);
    out.append("*");
    push_beyond(out, b);
    out.append("+");
    push_below(out, b);
    out.append("*");
    push_below(out, b);
    out.append(",");
    push_signed(out, b.radius as i128);
    out.append("*");
    push_signed(out, b.radius as i128);
    out.append(")");
    assert(out@ =~= old(out)@ + caps_text(*b));
}

fn push_band(out: &mut String, b: &Band)
    ensures
        final(out)@ == old(out)@ + band_text(*b),
{
    push_bar(out, b);
    out.append("+");
    push_caps(out, b);
    assert(out@ =~= old(out)@ + band_text(*b));
}

fn push_disc(out: &mut String, d: &Disc)
    ensures
        final(out)@ == old(out)@ + disc_text(*d),
{
    let (cx, cy, r) = (d.cx as i128, d.cy as i128, d.radius as i128);
    out.append("+lt((X-");
    push_signed(out, cx);
    out.append(")*(X-");
    push_signed(out, cx);
    out.append(")+(Y-");
    push_signed(out, cy);
    out.append(")*(Y-");
    push_signed(out, cy);
    out.append("),");
    push_signed(out, r);
    out.append("*");
    push_signed(out, r);
    out.append(")");
    assert(out@ =~= old(out)@ + disc_text(*d));
}

fn filter(b: &Band, mascot: &Option<Disc>) -> (r: String)
    ensures
        r@ == mask_filter(*b, *mascot),
{
    let mut out = String::new();
    out.append("format=rgba,geq=r='r(X,Y)':g='g(X,Y)':b='b(X,Y)':a='if(gt(");
    push_band(&mut out, b);
    if let Some(d) = mascot {
        push_disc(&mut out, d);
    }
    out.append(",0),255,0)'");
    assert(out@ =~= mask_filter(*b, *mascot));
    out
}

/// The first frame with the widest band, and that band. None if no frame shows one.
pub fn find_best(frames: &[PpmFrame]) -> (r: Option<(usize, Band)>)
    requires
        forall|i: int|
            0 <= i < frames@.len() ==> (#[trigger] frames@[i]).wf() && is_measurable(frames@[i]),
    ensures
        r is Some <==> best_frame(frames@, frames@.len() as int) is Some,
        r matches Some(p) ==> best_frame(frames@, frames@.len() as int) == Some(p.0 as int) && p.0
            < frames@.len() && band_of(frames@[p.0 as int]) == Some(p.1),
{
    let mut best: Option<(usize, Band)> = None;
    let mut i: usize = 0;
    while i < frames.len()
        invariant
            i <= frames@.len(),
            forall|i: int|
                0 <= i < frames@.len() ==> (#[trigger] frames@[i]).wf() && is_measurable(frames@[i]),
            best is Some <==> best_frame(frames@, i as int) is Some,
            best matches Some(p) ==> best_frame(frames@, i as int) == Some(p.0 as int) && p.0 < i
                && band_of(frames@[p.0 as int]) == Some(p.1),
        decreases frames@.len() - i,
    {
        if let Some(b) = measure_band(&frames[i]) {
            let wider = match best {
                Some((_, prev)) => b.widest > prev.widest,
                None => true,
            };
            if wider {
                best = Some((i, b));
            }
        }
        i = i + 1;
    }
    best
}

/// The arguments with which ffmpeg makes the mask of the fixed overlays, out of the frames
/// that were sampled at `times`. None if no frame shows the band. The badge is measured on
/// the frame whose band counts, and left out if there is none.
pub fn make_overlay_mask(
    cloud: &str,
    times: &[i64],
    frames: &[PpmFrame],
    out: &str,
) -> (r: Option<Vec<String>>)
    requires
        times@.len() == frames@.len(),
        forall|i: int|
            0 <= i < frames@.len() ==> (#[trigger] frames@[i]).wf() && is_measurable(frames@[i]),
    ensures
        match best_frame(frames@, frames@.len() as int) {
            Some(p) => r is Some && views(r->0@) == mask_args(
                cloud@,
                times@[p] as int,
                band_of(frames@[p])->0,
                mascot_of(frames@[p]),
                out@,
            ),
            None => r is None,
        },
{
    let (best, band) = match find_best(frames) {
        Some(p) => p,
        None => {
            return None;
        },
    };
    let mascot = measure_mascot(&frames[best]);
    let time: i64 = times[best];
    let mut cmd: Vec<String> = Vec::new();
    arg(&mut cmd, "-y");
    arg(&mut cmd, "-v");
    arg(&mut cmd, "error");
    arg(&mut cmd, "-ss");
    arg_owned(&mut cmd, fmt_t(time as i128));
    arg(&mut cmd, "-i");
    arg(&mut cmd, cloud);
    arg(&mut cmd, "-vf");
    arg_owned(&mut cmd, filter(&band, &mascot));
    arg(&mut cmd, "-frames:v");
    arg(&mut cmd, "1");
    arg(&mut cmd, "-f");
    arg(&mut cmd, "image2");
    arg(&mut cmd, "-c:v");
    arg(&mut cmd, "png");
    arg(&mut cmd, out);
    assert(views(cmd@) =~= mask_args(cloud@, time as int, band, mascot, out@));
    Some(cmd)
}

/// The frames that are measured are spread evenly over the clip: 5, 20, 35 and so on up to 95
/// hundredths of it, to the nanosecond.
pub proof fn law_mask_times(duration: int, k: int)
    requires
        0 <= k < MASK_SAMPLES,
    ensures
        ({
            let t = mask_time(duration, k);
            0 <= duration * (5 + 15 * k) - 100 * t < 100
        }),
        5 + 15 * (MASK_SAMPLES - 1) == 95,
{
}

/// The frame that counts is the first with the widest run: every band before it is narrower.
pub proof fn law_best_frame_is_the_first(frames: Seq<PpmFrame>, n: int, k: int)
    requires
        0 <= k < n,
        best_frame(frames, n) matches Some(p) ==> k < p,
        band_of(frames[k]) is Some,
    ensures
        best_frame(frames, n) is Some,
        band_of(frames[k])->0.widest < band_of(frames[best_frame(frames, n)->0])->0.widest,
    decreases n,
{
    law_best_frame(frames, n);
    law_best_frame(frames, n - 1);
    assert(band_of(frames[k]) is Some);
    if best_frame(frames, n)->0 < n - 1 {
        law_best_frame_is_the_first(frames, n - 1, k);
    } else {
        assert(k < n - 1);
        let q = best_frame(frames, n - 1)->0;
        assert(band_of(frames[k])->0.widest <= band_of(frames[q])->0.widest);
    }
}

/// A band or a disc keeps a pixel by tests on its column `X` and row `Y`: the bar by the
/// distances to the middle, the caps by the distance to the end of the bar, and the disc by
/// the distance to its middle.
pub proof fn law_mask_tests(b: Band, d: Disc)
    ensures
        ({
            let (x, y) = (signed_decimal(b.cx as int), signed_decimal(b.cy as int));
            let r = signed_decimal(b.radius as int);
            let bar = signed_decimal(bar_half_width(b));
            let end = "(abs(X-"@ + x + ")-"@ + bar + ")"@;
            let mid = "(Y-"@ + y + ")"@;
            &&& bar_text(b) == "lt(abs(X-"@ + x + "),"@ + bar + ")*lt(abs(Y-"@ + y + "),"@ + r
                + ")"@
            &&& caps_text(b) == "lt("@ + end + "*"@ + end + "+"@ + mid + "*"@ + mid + ","@ + r
                + "*"@ + r + ")"@
        }),
        ({
            let (x, y) = (signed_decimal(d.cx as int), signed_decimal(d.cy as int));
            let r = signed_decimal(d.radius as int);
            disc_text(d) == "+lt((X-"@ + x + ")*(X-"@ + x + ")+(Y-"@ + y + ")*(Y-"@ + y + "),"@ + r
                + "*"@ + r + ")"@
        }),
{
}

/// The mask keeps what passes the test of the bar, of the caps or, if there is a badge, of
/// the disc, and makes everything else transparent; the colours stay. It is made of the frame
/// at the given time of the cloud.
pub proof fn law_mask_keeps_the_overlays(
    cloud: Seq<char>,
    time: int,
    b: Band,
    mascot: Option<Disc>,
    out: Seq<char>,
)
    ensures
        ({
            let a = mask_args(cloud, time, b, mascot, out);
            let n = a.len();
            &&& n >= 9
            &&& a[3] == "-ss"@ && a[4] == seconds_text(time)
            &&& a[5] == "-i"@ && a[6] == cloud
            &&& a[7] == "-vf"@ && a[8] == mask_filter(b, mascot)
            &&& a[n - 1] == out
        }),
        mascot is None ==> mask_filter(b, mascot)
            == "format=rgba,geq=r='r(X,Y)':g='g(X,Y)':b='b(X,Y)':a='if(gt("@ + (bar_text(b) + "+"@
            + caps_text(b)) + ",0),255,0)'"@,
        mascot matches Some(d) ==> mask_filter(b, mascot)
            == "format=rgba,geq=r='r(X,Y)':g='g(X,Y)':b='b(X,Y)':a='if(gt("@ + (bar_text(b) + "+"@
            + caps_text(b)) + disc_text(d) + ",0),255,0)'"@,
{
    assert(mascot is None ==> mask_filter(b, mascot)
        =~= "format=rgba,geq=r='r(X,Y)':g='g(X,Y)':b='b(X,Y)':a='if(gt("@ + (bar_text(b) + "+"@
        + caps_text(b)) + ",0),255,0)'"@);
}

} // verus!
