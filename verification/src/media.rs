//! What is asked of ffmpeg and ffprobe, and the raw bytes that come back.
use vstd::prelude::*;

use crate::clock::{fmt_t, seconds_text};
use crate::text::{arg, arg_owned, decimal, push_decimal, views};

verus! {

/// The arguments of `to_raw_pcm`.
pub open spec fn pcm_args(input: Seq<char>, out: Seq<char>, rate: int) -> Seq<Seq<char>> {
    seq![
        "-y"@,
        "-v"@,
        "error"@,
        "-i"@,
        input,
        "-vn"@,
        "-ac"@,
        "1"@,
        "-ar"@,
        decimal(rate),
        "-f"@,
        "s16le"@,
        out,
    ]
}

/// The arguments with which ffmpeg decodes a whole file to mono 16-bit little-endian raw
/// PCM at `rate` Hz.
pub fn to_raw_pcm(input: &str, out: &str, rate: u32) -> (r: Vec<String>)
    ensures
        views(r@) == pcm_args(input@, out@, rate as int),
{
    let mut hz = String::new();
    push_decimal(&mut hz, rate as u128);
    assert(hz@ =~= decimal(rate as int));
    let mut cmd: Vec<String> = Vec::new();
    arg(&mut cmd, "-y");
    arg(&mut cmd, "-v");
    arg(&mut cmd, "error");
    arg(&mut cmd, "-i");
    arg(&mut cmd, input);
    arg(&mut cmd, "-vn");
    arg(&mut cmd, "-ac");
    arg(&mut cmd, "1");
    arg(&mut cmd, "-ar");
    arg_owned(&mut cmd, hz);
    arg(&mut cmd, "-f");
    arg(&mut cmd, "s16le");
    arg(&mut cmd, out);
    assert(views(cmd@) =~= pcm_args(input@, out@, rate as int));
    cmd
}

/// The arguments of `sample_ppm`.
pub open spec fn frame_args(input: Seq<char>, t: int, width: int, out: Seq<char>) -> Seq<Seq<char>> {
    seq![
        "-y"@,
        "-v"@,
        "error"@,
        "-ss"@,
        seconds_text(t),
        "-i"@,
        input,
        "-frames:v"@,
        "1"@,
        "-vf"@,
        "scale="@ + decimal(width) + ":-2"@,
        "-f"@,
        "image2"@,
        "-c:v"@,
        "ppm"@,
        out,
    ]
}

/// The arguments with which ffmpeg grabs the frame at time `t` as a P6 PPM, scaled to
/// `width` pixels.
pub fn sample_ppm(input: &str, t: i64, width: u32, out: &str) -> (r: Vec<String>)
    ensures
        views(r@) == frame_args(input@, t as int, width as int, out@),
{
    let mut scale = String::new();
    scale.append("scale=");
    push_decimal(&mut scale, width as u128);
    scale.append(":-2");
    assert(scale@ =~= "scale="@ + decimal(width as int) + ":-2"@);
    let mut cmd: Vec<String> = Vec::new();
    arg(&mut cmd, "-y");
    arg(&mut cmd, "-v");
    arg(&mut cmd, "error");
    arg(&mut cmd, "-ss");
    arg_owned(&mut cmd, fmt_t(t as i128));
    arg(&mut cmd, "-i");
    arg(&mut cmd, input);
    arg(&mut cmd, "-frames:v");
    arg(&mut cmd, "1");
    arg(&mut cmd, "-vf");
    arg_owned(&mut cmd, scale);
    arg(&mut cmd, "-f");
    arg(&mut cmd, "image2");
    arg(&mut cmd, "-c:v");
    arg(&mut cmd, "ppm");
    arg(&mut cmd, out);
    assert(views(cmd@) =~= frame_args(input@, t as int, width as int, out@));
    cmd
}

/// The arguments with which ffprobe describes a file as JSON.
pub fn probe_args(path: &str) -> (r: Vec<String>)
    ensures
        views(r@) == seq![
            "-v"@,
            "error"@,
            "-print_format"@,
            "json"@,
            "-show_format"@,
            "-show_streams"@,
            path@,
        ],
{
    let mut cmd: Vec<String> = Vec::new();
    arg(&mut cmd, "-v");
    arg(&mut cmd, "error");
    arg(&mut cmd, "-print_format");
    arg(&mut cmd, "json");
    arg(&mut cmd, "-show_format");
    arg(&mut cmd, "-show_streams");
    arg(&mut cmd, path);
    assert(views(cmd@) =~= seq![
        "-v"@,
        "error"@,
        "-print_format"@,
        "json"@,
        "-show_format"@,
        "-show_streams"@,
        path@,
    ]);
    cmd
}

/// The sample that two bytes stand for, the low byte first.
pub open spec fn sample_of(low: u8, high: u8) -> int {
    if high >= 128 {
        low + 256 * high - 65536
    } else {
        low + 256 * high
    }
}

/// The samples of raw PCM bytes. A last odd byte is no sample.
pub open spec fn samples_of(b: Seq<u8>) -> Seq<i16> {
    Seq::new(b.len() / 2, |i: int| sample_of(b[2 * i], b[2 * i + 1]) as i16)
}

/// Reads raw s16le PCM.
pub fn read_pcm(b: &[u8]) -> (r: Vec<i16>)
    ensures
        r@ == samples_of(b@),
{
    let n: usize = b.len() / 2;
    let mut out: Vec<i16> = Vec::new();
    let mut i: usize = 0;
    while i < n
        invariant
            i <= n,
            n == b@.len() / 2,
            n <= usize::MAX / 2,
            out@ == samples_of(b@).take(i as int),
        decreases n - i,
    {
        let (low, high) = (b[2 * i] as i32, b[2 * i + 1] as i32);
        let v: i32 = if high >= 128 { low + 256 * high - 65536 } else { low + 256 * high };
        out.push(v as i16);
        assert(samples_of(b@).take(i + 1) =~= samples_of(b@).take(i as int).push(v as i16));
        i = i + 1;
    }
    assert(samples_of(b@).take(n as int) =~= samples_of(b@));
    out
}

/// A sample without its sign, as the two bytes hold it.
pub open spec fn unsigned(v: i16) -> int {
    if v < 0 {
        v + 65536
    } else {
        v as int
    }
}

/// The s16le bytes of some samples.
pub open spec fn pcm_bytes(s: Seq<i16>) -> Seq<u8> {
    Seq::new(
        2 * s.len(),
        |k: int|
            if k % 2 == 0 {
                (unsigned(s[k / 2]) % 256) as u8
            } else {
                (unsigned(s[k / 2]) / 256) as u8
            },
    )
}

/// Reading gives back the samples that were written, whether or not a stray byte follows.
pub proof fn law_pcm_round_trip(s: Seq<i16>, rest: Seq<u8>)
    requires
        rest.len() <= 1,
    ensures
        samples_of(pcm_bytes(s) + rest) == s,
{
    let b = pcm_bytes(s) + rest;
    assert(b.len() / 2 == s.len());
    assert forall|i: int| 0 <= i < s.len() implies #[trigger] samples_of(b)[i] == s[i] by {
        let u = unsigned(s[i]);
        assert((2 * i) / 2 == i && (2 * i + 1) / 2 == i);
        assert(b[2 * i] == (u % 256) as u8);
        assert(b[2 * i + 1] == (u / 256) as u8);
        assert(u == 256 * (u / 256) + u % 256);
    }
    assert(samples_of(b) =~= s);
}

/// How much of what ffmpeg prints is kept.
pub const TAIL: usize = 8192;

/// The last `n` entries.
pub open spec fn last_of<T>(s: Seq<T>, n: int) -> Seq<T> {
    if s.len() > n {
        s.subrange(s.len() - n, s.len() as int)
    } else {
        s
    }
}

/// Keeping the tail after each piece keeps the tail of everything.
pub proof fn law_tail_is_of_everything<T>(a: Seq<T>, b: Seq<T>, n: int)
    requires
        n >= 0,
    ensures
        last_of(last_of(a, n) + b, n) == last_of(a + b, n),
{
    assert(last_of(last_of(a, n) + b, n) =~= last_of(a + b, n));
}

/// What ffmpeg printed so far with some more behind it, cut to its last bytes.
pub fn keep_tail(last: Vec<u8>, more: &[u8]) -> (r: Vec<u8>)
    ensures
        r@ == last_of(last@ + more@, TAIL as int),
{
    let ghost head = last@;
    let mut all = last;
    let mut i: usize = 0;
    assert(head + more@.take(0) =~= head);
    while i < more.len()
        invariant
            i <= more@.len(),
            all@ == head + more@.take(i as int),
        decreases more@.len() - i,
    {
        all.push(more[i]);
        assert(head + more@.take(i + 1) =~= (head + more@.take(i as int)).push(more@[i as int]));
        i = i + 1;
    }
    assert(more@.take(i as int) =~= more@);
    if all.len() <= TAIL {
        return all;
    }
    let from: usize = all.len() - TAIL;
    let mut out: Vec<u8> = Vec::new();
    let mut k: usize = from;
    while k < all.len()
        invariant
            from <= k <= all@.len(),
            out@ == all@.subrange(from as int, k as int),
        decreases all@.len() - k,
    {
        out.push(all[k]);
        assert(all@.subrange(from as int, k + 1) =~= all@.subrange(from as int, k as int).push(
            all@[k as int],
        ));
        k = k + 1;
    }
    out
}

/// The position behind the last line break of the first `n` bytes.
pub open spec fn line_start(b: Seq<u8>, n: int) -> int
    decreases n,
{
    if n <= 0 || b[n - 1] == 10 || b[n - 1] == 13 {
        n
    } else {
        line_start(b, n - 1)
    }
}

/// `time=` stands at position `p`.
pub open spec fn is_time_at(b: Seq<u8>, p: int) -> bool {
    p + 5 <= b.len() && b[p] == 116 && b[p + 1] == 105 && b[p + 2] == 109 && b[p + 3] == 101 && b[p
        + 4] == 61
}

/// The last position in `from..n` at which `time=` stands.
pub open spec fn last_time(b: Seq<u8>, from: int, n: int) -> Option<int>
    decreases n,
{
    if n <= from || n <= 0 {
        None
    } else if is_time_at(b, n - 1) {
        Some(n - 1)
    } else {
        last_time(b, from, n - 1)
    }
}

/// The progress that ffmpeg reported last: what stands on the last line from the last
/// `time=` on. Its progress lines end in carriage returns.
pub open spec fn progress_of(b: Seq<u8>) -> Option<Seq<u8>> {
    match last_time(b, line_start(b, b.len() as int), b.len() as int) {
        Some(p) => Some(b.subrange(p, b.len() as int)),
        None => None,
    }
}

/// The progress that ffmpeg reported last.
pub fn progress(b: &[u8]) -> (r: Option<Vec<u8>>)
    ensures
        r is Some <==> progress_of(b@) is Some,
        r matches Some(v) ==> progress_of(b@) == Some(v@),
{
    let n: usize = b.len();
    let mut start: usize = n;
    while start > 0 && b[start - 1] != 10 && b[start - 1] != 13
        invariant
            start <= n,
            n == b@.len(),
            line_start(b@, n as int) == line_start(b@, start as int),
        ensures
            start == line_start(b@, n as int),
            start <= n,
        decreases start,
    {
        start = start - 1;
    }
    let mut p: usize = n;
    while p > start
        invariant
            start <= p <= n,
            n == b@.len(),
            start == line_start(b@, n as int),
            last_time(b@, start as int, n as int) == last_time(b@, start as int, p as int),
        decreases p,
    {
        p = p - 1;
        if n - p >= 5 && b[p] == 116 && b[p + 1] == 105 && b[p + 2] == 109 && b[p + 3] == 101 && b[p
            + 4] == 61 {
            let mut out: Vec<u8> = Vec::new();
            let mut k: usize = p;
            while k < n
                invariant
                    p <= k <= n,
                    n == b@.len(),
                    out@ == b@.subrange(p as int, k as int),
                decreases n - k,
            {
                out.push(b[k]);
                assert(b@.subrange(p as int, k + 1) =~= b@.subrange(p as int, k as int).push(
                    b@[k as int],
                ));
                k = k + 1;
            }
            return Some(out);
        }
    }
    None
}

/// What is asked of ffmpeg: a whole file becomes one channel of 16-bit samples at the given
/// rate, and one frame at the given time becomes a picture of the given width.
pub proof fn law_arguments(input: Seq<char>, out: Seq<char>, rate: int, t: int, width: int)
    ensures
        ({
            let a = pcm_args(input, out, rate);
            &&& a[3] == "-i"@ && a[4] == input
            &&& a[6] == "-ac"@ && a[7] == "1"@
            &&& a[8] == "-ar"@ && a[9] == decimal(rate)
            &&& a[10] == "-f"@ && a[11] == "s16le"@
            &&& a.last() == out
        }),
        ({
            let a = frame_args(input, t, width, out);
            &&& a[3] == "-ss"@ && a[4] == seconds_text(t)
            &&& a[5] == "-i"@ && a[6] == input
            &&& a[7] == "-frames:v"@ && a[8] == "1"@
            &&& a[9] == "-vf"@ && a[10] == "scale="@ + decimal(width) + ":-2"@
            &&& a[13] == "-c:v"@ && a[14] == "ppm"@
            &&& a.last() == out
        }),
{
}

/// A sample is the 16-bit number in two's complement of its two bytes, the low one first, and
/// the samples follow one another.
pub proof fn law_samples(b: Seq<u8>, i: int)
    requires
        0 <= i < b.len() / 2,
    ensures
        samples_of(b).len() == b.len() / 2,
        (samples_of(b)[i] - (b[2 * i] + 256 * b[2 * i + 1])) % 65536 == 0,
{
    let (low, high) = (b[2 * i], b[2 * i + 1]);
    assert(samples_of(b)[i] == sample_of(low, high));
}

/// Of what was printed the last bytes are kept: as many as there is room for, and all of them
/// if there are fewer.
pub proof fn law_tail<T>(s: Seq<T>, n: int)
    requires
        n >= 0,
    ensures
        s.len() <= n ==> last_of(s, n) == s,
        s.len() > n ==> last_of(s, n).len() == n && forall|k: int|
            0 <= k < n ==> #[trigger] last_of(s, n)[k] == s[s.len() - n + k],
{
}

proof fn lemma_line_start(b: Seq<u8>, n: int)
    requires
        0 <= n <= b.len(),
    ensures
        0 <= line_start(b, n) <= n,
        forall|k: int| line_start(b, n) <= k < n ==> #[trigger] b[k] != 10 && b[k] != 13,
        line_start(b, n) > 0 ==> b[line_start(b, n) - 1] == 10 || b[line_start(b, n) - 1] == 13,
    decreases n,
{
    if n > 0 && b[n - 1] != 10 && b[n - 1] != 13 {
        lemma_line_start(b, n - 1);
    }
}

/// The word `time=` stands in the bytes at position `p`.
pub open spec fn says_time(b: Seq<u8>, p: int) -> bool {
    p + 5 <= b.len() && b.subrange(p, p + 5) == seq![116u8, 105u8, 109u8, 101u8, 61u8]
}

proof fn lemma_says_time(b: Seq<u8>, p: int)
    requires
        0 <= p,
    ensures
        is_time_at(b, p) == says_time(b, p),
{
    if p + 5 <= b.len() {
        let w = b.subrange(p, p + 5);
        assert(w[0] == b[p] && w[1] == b[p + 1] && w[2] == b[p + 2] && w[3] == b[p + 3] && w[4] == b[p
            + 4]);
        if is_time_at(b, p) {
            assert(w =~= seq![116u8, 105u8, 109u8, 101u8, 61u8]);
        }
    }
}

proof fn lemma_last_time(b: Seq<u8>, from: int, n: int)
    requires
        0 <= from,
        n <= b.len(),
    ensures
        match last_time(b, from, n) {
            Some(p) => from <= p < n && says_time(b, p) && forall|q: int|
                p < q < n ==> !#[trigger] says_time(b, q),
            None => forall|q: int| from <= q < n ==> !#[trigger] says_time(b, q),
        },
    decreases n,
{
    if n > from && n > 0 {
        lemma_says_time(b, n - 1);
        lemma_last_time(b, from, n - 1);
    }
}

/// The progress is the end of what was printed: no line break is in it, it begins with the
/// word `time=`, and the word does not come again. There is none only if the word is not on
/// the last line.
pub proof fn law_progress(b: Seq<u8>)
    ensures
        match progress_of(b) {
            Some(v) => {
                let p = b.len() - v.len();
                &&& 0 <= p
                &&& v == b.subrange(p, b.len() as int)
                &&& says_time(b, p)
                &&& forall|q: int| p < q < b.len() ==> !#[trigger] says_time(b, q)
                &&& forall|k: int| p <= k < b.len() ==> #[trigger] b[k] != 10 && b[k] != 13
            },
            None => forall|q: int|
                0 <= q < b.len() && #[trigger] says_time(b, q) ==> exists|k: int|
                    q <= k < b.len() && (#[trigger] b[k] == 10 || b[k] == 13),
        },
{
    let n = b.len() as int;
    let from = line_start(b, n);
    lemma_line_start(b, n);
    lemma_last_time(b, from, n);
    if progress_of(b) is None {
        assert forall|q: int| 0 <= q < n && #[trigger] says_time(b, q) implies exists|k: int|
            q <= k < n && (#[trigger] b[k] == 10 || b[k] == 13) by {
            assert(q < from);
            assert(b[from - 1] == 10 || b[from - 1] == 13);
        }
    }
}

/// 8192 bytes of what ffmpeg prints are kept.
pub proof fn law_tail_size(s: Seq<u8>)
    ensures
        last_of(s, TAIL as int).len() <= 8_192,
        s.len() >= 8_192 ==> last_of(s, TAIL as int).len() == 8_192,
{
}

} // verus!
