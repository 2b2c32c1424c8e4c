//! The ffmpeg command lines that render the windows, join them and mix the audio.
use vstd::prelude::*;

use crate::clock::{fmt_t, nearest_ms, seconds_text, to_ms};
use crate::model::Participant;
use crate::offset::law_decimal_is_read_back;
use crate::text::{
    arg, arg_owned, decimal, joined, push_decimal, push_signed, signed_decimal, views,
};
use crate::windows::Window;

verus! {

/// The encoder and its options for an operating system.
pub open spec fn codec_of(os: Seq<char>, gpu: bool) -> (Seq<char>, Seq<Seq<char>>) {
    if !gpu {
        ("libx264"@, seq!["-preset"@, "medium"@, "-crf"@, "20"@, "-pix_fmt"@, "yuv420p"@])
    } else if os == "macos"@ {
        ("h264_videotoolbox"@, seq!["-b:v"@, "12M"@])
    } else if os == "linux"@ {
        ("h264_nvenc"@, seq!["-preset"@, "p5"@, "-cq"@, "23"@])
    } else {
        ("libx264"@, seq!["-preset"@, "medium"@, "-crf"@, "20"@])
    }
}

/// Pick the encoder for an operating system (as `std::env::consts::OS` names it);
/// `gpu` prefers hardware acceleration.
pub fn video_codec(os: &str, gpu: bool) -> (r: (String, Vec<String>))
    ensures
        r.0@ == codec_of(os@, gpu).0,
        views(r.1@) == codec_of(os@, gpu).1,
{
    let mut extra: Vec<String> = Vec::new();
    let os = os.to_string();
    if !gpu {
        arg(&mut extra, "-preset");
        arg(&mut extra, "medium");
        arg(&mut extra, "-crf");
        arg(&mut extra, "20");
        arg(&mut extra, "-pix_fmt");
        arg(&mut extra, "yuv420p");
        assert(views(extra@) =~= codec_of(os@, gpu).1);
        ("libx264".to_string(), extra)
    } else if os == "macos".to_string() {
        arg(&mut extra, "-b:v");
        arg(&mut extra, "12M");
        assert(views(extra@) =~= codec_of(os@, gpu).1);
        ("h264_videotoolbox".to_string(), extra)
    } else if os == "linux".to_string() {
        arg(&mut extra, "-preset");
        arg(&mut extra, "p5");
        arg(&mut extra, "-cq");
        arg(&mut extra, "23");
        assert(views(extra@) =~= codec_of(os@, gpu).1);
        ("h264_nvenc".to_string(), extra)
    } else {
        arg(&mut extra, "-preset");
        arg(&mut extra, "medium");
        arg(&mut extra, "-crf");
        arg(&mut extra, "20");
        assert(views(extra@) =~= codec_of(os@, gpu).1);
        ("libx264".to_string(), extra)
    }
}

/// A participant's offset, zero if it has not been aligned.
pub open spec fn offset_of(p: Participant) -> int {
    match p.offset_ns {
        Some(o) => o as int,
        None => 0,
    }
}

fn offset(p: &Participant) -> (r: i64)
    ensures
        r == offset_of(*p),
{
    match p.offset_ns {
        Some(o) => o,
        None => 0,
    }
}

/// Where a local feed has to be entered to be in step with cloud time `start`: the
/// matching local time, but not before the feed begins.
pub open spec fn seek_of(p: Participant, start: int) -> int {
    if start - offset_of(p) > 0 {
        start - offset_of(p)
    } else {
        0
    }
}

/// The inputs for the first `n` tiles, each entered at the matching local time.
pub open spec fn feed_inputs(ps: Seq<Participant>, w: Window, n: int) -> Seq<Seq<char>>
    decreases n,
{
    if n <= 0 {
        Seq::empty()
    } else {
        let p = ps[w.tiles@[n - 1].0 as int];
        feed_inputs(ps, w, n - 1) + seq![
            "-ss"@,
            seconds_text(seek_of(p, w.start as int)),
            "-i"@,
            p.file@,
        ]
    }
}

/// All inputs of a window: the cloud, the feeds, and the looped mask if there is one.
pub open spec fn window_inputs(
    cloud: Seq<char>,
    ps: Seq<Participant>,
    w: Window,
    overlay: Option<Seq<char>>,
) -> Seq<Seq<char>> {
    seq!["-ss"@, seconds_text(w.start as int), "-i"@, cloud] + feed_inputs(
        ps,
        w,
        w.tiles@.len() as int,
    ) + match overlay {
        Some(o) => seq!["-loop"@, "1"@, "-framerate"@, "30"@, "-i"@, o],
        None => Seq::empty(),
    }
}

/// Tile `i` scaled to fill its box, its overflow cropped evenly, and laid over what is
/// there so far.
pub open spec fn tile_text(i: int, b: (u32, u32, u32, u32)) -> Seq<char> {
    "["@ + decimal(1 + i) + ":v]scale="@ + decimal(b.2 as int) + ":"@ + decimal(b.3 as int)
        + ":force_original_aspect_ratio=increase,crop="@ + decimal(b.2 as int) + ":"@ + decimal(
        b.3 as int,
    ) + ",setsar=1[t"@ + decimal(i) + "];[b"@ + decimal(i) + "][t"@ + decimal(i) + "]overlay=x="@
        + decimal(b.0 as int) + ":y="@ + decimal(b.1 as int) + "[b"@ + decimal(i + 1) + "];"@
}

/// The filter graph for the first `n` tiles.
pub open spec fn tiles_graph(tiles: Seq<(usize, (u32, u32, u32, u32))>, n: int) -> Seq<char>
    decreases n,
{
    if n <= 0 {
        "[0:v]format=yuv420p,setsar=1[b0];"@
    } else {
        tiles_graph(tiles, n - 1) + tile_text(n - 1, tiles[n - 1].1)
    }
}

/// A window's filter graph and the label of its output.
pub open spec fn window_graph(w: Window, masked: bool) -> (Seq<char>, Seq<char>) {
    let n = w.tiles@.len() as int;
    if masked {
        (
            tiles_graph(w.tiles@, n) + ("[b"@ + decimal(n) + "]["@ + decimal(1 + n)
                + ":v]overlay=x=0:y=0[outv];"@),
            "[outv]"@,
        )
    } else {
        (tiles_graph(w.tiles@, n), "[b"@ + decimal(n) + "]"@)
    }
}

/// A window's command after its inputs.
pub open spec fn window_output(
    w: Window,
    masked: bool,
    out_clip: Seq<char>,
    os: Seq<char>,
    gpu: bool,
) -> Seq<Seq<char>> {
    seq![
        "-filter_complex"@,
        window_graph(w, masked).0,
        "-map"@,
        window_graph(w, masked).1,
        "-an"@,
        "-t"@,
        seconds_text(w.end - w.start),
        "-c:v"@,
        codec_of(os, gpu).0,
    ] + codec_of(os, gpu).1 + seq![out_clip]
}

pub open spec fn overlay_view(overlay: Option<&str>) -> Option<Seq<char>> {
    match overlay {
        Some(o) => Some(o@),
        None => None,
    }
}

/// The command that renders one window.
pub open spec fn window_command(
    cloud: Seq<char>,
    ps: Seq<Participant>,
    w: Window,
    overlay: Option<Seq<char>>,
    out_clip: Seq<char>,
    os: Seq<char>,
    gpu: bool,
) -> Seq<Seq<char>> {
    seq!["ffmpeg"@, "-y"@] + window_inputs(cloud, ps, w, overlay) + window_output(
        w,
        overlay is Some,
        out_clip,
        os,
        gpu,
    )
}

/// Every tile's participant is there.
pub open spec fn tiles_known(w: Window, ps: Seq<Participant>) -> bool {
    forall|t: int| 0 <= t < w.tiles@.len() ==> (#[trigger] w.tiles@[t]).0 < ps.len()
}

fn push_tile(g: &mut String, i: usize, b: (u32, u32, u32, u32))
    ensures
        final(g)@ == old(g)@ + tile_text(i as int, b),
{
    let (x, y, w, h) = b;
    let k: u128 = i as u128;
    g.append("[");
    push_decimal(g, 1 + k);
    g.append(":v]scale=");
    push_decimal(g, w as u128);
    g.append(":");
    push_decimal(g, h as u128);
    g.append(":force_original_aspect_ratio=increase,crop=");
    push_decimal(g, w as u128);
    g.append(":");
    push_decimal(g, h as u128);
    g.append(",setsar=1[t");
    push_decimal(g, k);
    g.append("];[b");
    push_decimal(g, k);
    g.append("][t");
    push_decimal(g, k);
    g.append("]overlay=x=");
    push_decimal(g, x as u128);
    g.append(":y=");
    push_decimal(g, y as u128);
    g.append("[b");
    push_decimal(g, k + 1);
    g.append("];");
    assert(g@ =~= old(g)@ + tile_text(i as int, b));
}

/// Appends the inputs for a window's tiles.
fn push_feeds(cmd: &mut Vec<String>, participants: &[Participant], window: &Window)
    requires
        tiles_known(*window, participants@),
    ensures
        views(final(cmd)@) == views(old(cmd)@) + feed_inputs(
            participants@,
            *window,
            window.tiles@.len() as int,
        ),
{
    let ghost head = views(cmd@);
    let mut i: usize = 0;
    assert(views(cmd@) =~= head + feed_inputs(participants@, *window, 0));
    while i < window.tiles.len()
        invariant
            i <= window.tiles@.len(),
            tiles_known(*window, participants@),
            views(cmd@) == head + feed_inputs(participants@, *window, i as int),
        decreases window.tiles@.len() - i,
    {
        let ghost before = views(cmd@);
        let p = &participants[window.tiles[i].0];
        let local: i128 = window.start as i128 - offset(p) as i128;
        let seek: i128 = if local > 0 { local } else { 0 };
        arg(cmd, "-ss");
        arg_owned(cmd, fmt_t(seek));
        arg(cmd, "-i");
        arg(cmd, p.file.as_str());
        assert(views(cmd@) =~= before + seq![
            "-ss"@,
            seconds_text(seek_of(*p, window.start as int)),
            "-i"@,
            p.file@,
        ]);
        assert(views(cmd@) =~= head + feed_inputs(participants@, *window, i + 1));
        i = i + 1;
    }
}

/// Appends all inputs of a window.
fn push_inputs(
    cmd: &mut Vec<String>,
    cloud: &str,
    participants: &[Participant],
    window: &Window,
    overlay: Option<&str>,
)
    requires
        tiles_known(*window, participants@),
    ensures
        views(final(cmd)@) == views(old(cmd)@) + window_inputs(
            cloud@,
            participants@,
            *window,
            overlay_view(overlay),
        ),
{
    let ghost head = views(cmd@);
    arg(cmd, "-ss");
    arg_owned(cmd, fmt_t(window.start as i128));
    arg(cmd, "-i");
    arg(cmd, cloud);
    let ghost first = seq!["-ss"@, seconds_text(window.start as int), "-i"@, cloud@];
    assert(views(cmd@) =~= head + first);
    push_feeds(cmd, participants, window);
    let ghost feeds = feed_inputs(participants@, *window, window.tiles@.len() as int);
    assert(views(cmd@) =~= head + (first + feeds));
    let ghost fed = views(cmd@);
    if let Some(o) = overlay {
        arg(cmd, "-loop");
        arg(cmd, "1");
        arg(cmd, "-framerate");
        arg(cmd, "30");
        arg(cmd, "-i");
        arg(cmd, o);
        assert(views(cmd@) =~= fed + seq!["-loop"@, "1"@, "-framerate"@, "30"@, "-i"@, o@]);
    } else {
        assert(views(cmd@) =~= fed + Seq::<Seq<char>>::empty());
    }
    assert(views(cmd@) =~= head + window_inputs(
        cloud@,
        participants@,
        *window,
        overlay_view(overlay),
    ));
}

/// A window's filter graph and the label of its output.
fn graph(window: &Window, masked: bool) -> (r: (String, String))
    ensures
        r.0@ == window_graph(*window, masked).0,
        r.1@ == window_graph(*window, masked).1,
{
    let n: usize = window.tiles.len();
    let mut g = String::new();
    g.append("[0:v]format=yuv420p,setsar=1[b0];");
    assert(g@ =~= tiles_graph(window.tiles@, 0));
    let mut k: usize = 0;
    while k < n
        invariant
            k <= n,
            n == window.tiles@.len(),
            g@ == tiles_graph(window.tiles@, k as int),
        decreases n - k,
    {
        push_tile(&mut g, k, window.tiles[k].1);
        k = k + 1;
    }
    let mut label = String::new();
    if masked {
        g.append("[b");
        push_decimal(&mut g, n as u128);
        g.append("][");
        push_decimal(&mut g, 1 + n as u128);
        g.append(":v]overlay=x=0:y=0[outv];");
        label.append("[outv]");
        assert(label@ =~= "[outv]"@);
        assert(g@ =~= window_graph(*window, true).0);
    } else {
        label.append("[b");
        push_decimal(&mut label, n as u128);
        label.append("]");
        assert(label@ =~= "[b"@ + decimal(n as int) + "]"@);
    }
    (g, label)
}

/// Appends what follows the inputs of a window.
fn push_output(
    cmd: &mut Vec<String>,
    window: &Window,
    masked: bool,
    out_clip: &str,
    os: &str,
    gpu: bool,
)
    ensures
        views(final(cmd)@) == views(old(cmd)@) + window_output(*window, masked, out_clip@, os@, gpu),
{
    let ghost head = views(cmd@);
    let (g, label) = graph(window, masked);
    let (codec, mut extra) = video_codec(os, gpu);
    let ghost options = extra@;
    arg(cmd, "-filter_complex");
    arg_owned(cmd, g);
    arg(cmd, "-map");
    arg_owned(cmd, label);
    arg(cmd, "-an");
    arg(cmd, "-t");
    arg_owned(cmd, fmt_t(window.end as i128 - window.start as i128));
    arg(cmd, "-c:v");
    arg_owned(cmd, codec);
    let ghost fixed = seq![
        "-filter_complex"@,
        window_graph(*window, masked).0,
        "-map"@,
        window_graph(*window, masked).1,
        "-an"@,
        "-t"@,
        seconds_text(window.end - window.start),
        "-c:v"@,
        codec_of(os@, gpu).0,
    ];
    assert(views(cmd@) =~= head + fixed);
    let ghost before = cmd@;
    cmd.append(&mut extra);
    assert(views(cmd@) =~= views(before) + views(options));
    arg(cmd, out_clip);
    assert(views(cmd@) =~= head + window_output(*window, masked, out_clip@, os@, gpu));
}

/// ffmpeg command that renders one window to a video-only clip: the cloud master cut to
/// the window, with the window's local feeds cover-fit into their boxes and the mask, if
/// there is one, on top. Cloud and feeds are entered at the matching time, so they start
/// together. `os` names the operating system.
///
/// The duration cap is an output option: as an input option it would be defeated by the
/// looped mask, which never ends.
pub fn video_window_cmd(
    cloud: &str,
    participants: &[Participant],
    window: &Window,
    overlay: Option<&str>,
    out_clip: &str,
    os: &str,
    gpu: bool,
) -> (r: Vec<String>)
    requires
        tiles_known(*window, participants@),
    ensures
        views(r@) == window_command(
            cloud@,
            participants@,
            *window,
            overlay_view(overlay),
            out_clip@,
            os@,
            gpu,
        ),
{
    let mut cmd: Vec<String> = Vec::new();
    arg(&mut cmd, "ffmpeg");
    arg(&mut cmd, "-y");
    assert(views(cmd@) =~= seq!["ffmpeg"@, "-y"@]);
    push_inputs(&mut cmd, cloud, participants, window, overlay);
    push_output(&mut cmd, window, overlay.is_some(), out_clip, os, gpu);
    cmd
}

/// The command that joins clips without re-encoding.
pub open spec fn concat_command(list_file: Seq<char>, out_video: Seq<char>) -> Seq<Seq<char>> {
    seq![
        "ffmpeg"@,
        "-y"@,
        "-f"@,
        "concat"@,
        "-safe"@,
        "0"@,
        "-i"@,
        list_file,
        "-c"@,
        "copy"@,
        out_video,
    ]
}

/// ffmpeg command that concatenates the window clips (same codec, size and rate, each
/// starting on a keyframe) without re-encoding. `list_file` holds one `file '<path>'`
/// line per clip, in order.
pub fn concat_cmd(list_file: &str, out_video: &str) -> (r: Vec<String>)
    ensures
        views(r@) == concat_command(list_file@, out_video@),
{
    let mut cmd: Vec<String> = Vec::new();
    arg(&mut cmd, "ffmpeg");
    arg(&mut cmd, "-y");
    arg(&mut cmd, "-f");
    arg(&mut cmd, "concat");
    arg(&mut cmd, "-safe");
    arg(&mut cmd, "0");
    arg(&mut cmd, "-i");
    arg(&mut cmd, list_file);
    arg(&mut cmd, "-c");
    arg(&mut cmd, "copy");
    arg(&mut cmd, out_video);
    assert(views(cmd@) =~= concat_command(list_file@, out_video@));
    cmd
}

/// The inputs for the first `n` of the chosen tracks.
pub open spec fn track_inputs(ps: Seq<Participant>, idxs: Seq<usize>, n: int) -> Seq<Seq<char>>
    decreases n,
{
    if n <= 0 {
        Seq::empty()
    } else {
        track_inputs(ps, idxs, n - 1) + seq!["-i"@, ps[idxs[n - 1] as int].file@]
    }
}

/// Track `k` made mono, delayed to its offset and padded with silence.
pub open spec fn delay_text(k: int, offset: int) -> Seq<char> {
    "["@ + decimal(1 + k) + ":a]aformat=channel_layouts=mono,asetpts=PTS-STARTPTS,adelay="@
        + signed_decimal(nearest_ms(offset)) + ",apad[aud"@ + decimal(k) + "];"@
}

/// The filters of the first `n` tracks.
pub open spec fn delays(ps: Seq<Participant>, idxs: Seq<usize>, n: int) -> Seq<char>
    decreases n,
{
    if n <= 0 {
        Seq::empty()
    } else {
        delays(ps, idxs, n - 1) + delay_text(n - 1, offset_of(ps[idxs[n - 1] as int]))
    }
}

/// The labels of the first `n` delayed tracks.
pub open spec fn mix_labels(n: int) -> Seq<char>
    decreases n,
{
    if n <= 0 {
        Seq::empty()
    } else {
        mix_labels(n - 1) + ("[aud"@ + decimal(n - 1) + "]"@)
    }
}

/// The audio graph: every track delayed, all mixed un-normalized behind a limiter.
pub open spec fn mix_graph(ps: Seq<Participant>, idxs: Seq<usize>) -> Seq<char> {
    let n = idxs.len() as int;
    delays(ps, idxs, n) + mix_labels(n) + ("amix=inputs="@ + decimal(n)
        + ":duration=first:normalize=0,alimiter=limit=0.95[aout];"@)
}

/// The command that puts the mixed audio to the joined video.
pub open spec fn mux_command(
    video: Seq<char>,
    ps: Seq<Participant>,
    idxs: Seq<usize>,
    output: Seq<char>,
    duration: int,
) -> Seq<Seq<char>> {
    seq!["ffmpeg"@, "-y"@, "-i"@, video] + track_inputs(ps, idxs, idxs.len() as int) + seq![
        "-filter_complex"@,
        mix_graph(ps, idxs),
        "-map"@,
        "0:v"@,
        "-map"@,
        "[aout]"@,
        "-c:v"@,
        "copy"@,
        "-c:a"@,
        "aac"@,
        "-b:a"@,
        "256k"@,
        "-movflags"@,
        "+faststart"@,
        "-t"@,
        seconds_text(duration),
        output,
    ]
}

/// Every chosen track is there.
pub open spec fn tracks_known(idxs: Seq<usize>, ps: Seq<Participant>) -> bool {
    forall|k: int| 0 <= k < idxs.len() ==> #[trigger] idxs[k] < ps.len()
}

/// The audio graph of the chosen tracks.
fn audio_graph(participants: &[Participant], audio_idxs: &[usize]) -> (r: String)
    requires
        tracks_known(audio_idxs@, participants@),
    ensures
        r@ == mix_graph(participants@, audio_idxs@),
{
    let n: usize = audio_idxs.len();
    let mut g = String::new();
    let mut k: usize = 0;
    while k < n
        invariant
            k <= n,
            n == audio_idxs@.len(),
            tracks_known(audio_idxs@, participants@),
            g@ == delays(participants@, audio_idxs@, k as int),
        decreases n - k,
    {
        let ghost before = g@;
        let off_ms: i64 = to_ms(offset(&participants[audio_idxs[k]]));
        g.append("[");
        push_decimal(&mut g, 1 + k as u128);
        g.append(":a]aformat=channel_layouts=mono,asetpts=PTS-STARTPTS,adelay=");
        push_signed(&mut g, off_ms as i128);
        g.append(",apad[aud");
        push_decimal(&mut g, k as u128);
        g.append("];");
        assert(g@ =~= before + delay_text(
            k as int,
            offset_of(participants@[audio_idxs@[k as int] as int]),
        ));
        k = k + 1;
    }
    let ghost filters = g@;
    let mut j: usize = 0;
    assert(g@ =~= filters + mix_labels(0));
    while j < n
        invariant
            j <= n,
            g@ == filters + mix_labels(j as int),
        decreases n - j,
    {
        let ghost before = g@;
        g.append("[aud");
        push_decimal(&mut g, j as u128);
        g.append("]");
        assert(g@ =~= before + ("[aud"@ + decimal(j as int) + "]"@));
        assert(g@ =~= filters + mix_labels(j + 1));
        j = j + 1;
    }
    g.append("amix=inputs=");
    push_decimal(&mut g, n as u128);
    g.append(":duration=first:normalize=0,alimiter=limit=0.95[aout];");
    assert(g@ =~= mix_graph(participants@, audio_idxs@));
    g
}

/// ffmpeg command that muxes the joined video (stream-copied) with the high-res audio:
/// each chosen local track is shifted to its offset, and all are mixed un-normalized
/// behind a limiter.
///
/// The duration is always capped: the tracks are padded with endless silence, so nothing
/// else would end the output.
pub fn final_mux_cmd(
    video: &str,
    participants: &[Participant],
    audio_idxs: &[usize],
    output: &str,
    duration: i64,
) -> (r: Vec<String>)
    requires
        tracks_known(audio_idxs@, participants@),
    ensures
        views(r@) == mux_command(video@, participants@, audio_idxs@, output@, duration as int),
{
    let mut cmd: Vec<String> = Vec::new();
    arg(&mut cmd, "ffmpeg");
    arg(&mut cmd, "-y");
    arg(&mut cmd, "-i");
    arg(&mut cmd, video);
    let ghost head = seq!["ffmpeg"@, "-y"@, "-i"@, video@];
    assert(views(cmd@) =~= head + track_inputs(participants@, audio_idxs@, 0));
    let mut k: usize = 0;
    while k < audio_idxs.len()
        invariant
            k <= audio_idxs@.len(),
            tracks_known(audio_idxs@, participants@),
            views(cmd@) == head + track_inputs(participants@, audio_idxs@, k as int),
        decreases audio_idxs@.len() - k,
    {
        arg(&mut cmd, "-i");
        arg(&mut cmd, participants[audio_idxs[k]].file.as_str());
        assert(views(cmd@) =~= head + track_inputs(participants@, audio_idxs@, k + 1));
        k = k + 1;
    }
    arg(&mut cmd, "-filter_complex");
    arg_owned(&mut cmd, audio_graph(participants, audio_idxs));
    arg(&mut cmd, "-map");
    arg(&mut cmd, "0:v");
    arg(&mut cmd, "-map");
    arg(&mut cmd, "[aout]");
    arg(&mut cmd, "-c:v");
    arg(&mut cmd, "copy");
    arg(&mut cmd, "-c:a");
    arg(&mut cmd, "aac");
    arg(&mut cmd, "-b:a");
    arg(&mut cmd, "256k");
    arg(&mut cmd, "-movflags");
    arg(&mut cmd, "+faststart");
    arg(&mut cmd, "-t");
    arg_owned(&mut cmd, fmt_t(duration as i128));
    arg(&mut cmd, output);
    assert(views(cmd@) =~= mux_command(
        video@,
        participants@,
        audio_idxs@,
        output@,
        duration as int,
    ));
    cmd
}

proof fn lemma_seconds_text_len(ns: int)
    ensures
        seconds_text(ns).len() >= 5,
{
    reveal_strlit(".");
    reveal_strlit("-");
    let ms = crate::clock::round_half_even(if ns < 0 {
        -ns
    } else {
        ns
    }, 1_000_000);
    lemma_decimal_len(ms / 1000);
}

proof fn lemma_decimal_len(n: int)
    ensures
        decimal(n).len() >= 1,
    decreases n,
{
    if n >= 10 {
        lemma_decimal_len(n / 10);
    }
}

/// In a window's command the duration cap comes after every input: it is followed by
/// codec options and the name of the clip only, and no `-i` is among them. As an input
/// option it would be defeated by the looped mask.
pub proof fn law_window_cap_is_an_output_option(
    cloud: Seq<char>,
    ps: Seq<Participant>,
    w: Window,
    overlay: Option<Seq<char>>,
    out_clip: Seq<char>,
    os: Seq<char>,
    gpu: bool,
)
    ensures
        ({
            let cmd = window_command(cloud, ps, w, overlay, out_clip, os, gpu);
            let t = window_inputs(cloud, ps, w, overlay).len() as int + 7;
            &&& t + 1 < cmd.len() - 1
            &&& cmd[t] == "-t"@
            &&& cmd[t + 1] == seconds_text(w.end - w.start)
            &&& forall|j: int| t < j < cmd.len() - 1 ==> #[trigger] cmd[j] != "-i"@
            &&& cmd.last() == out_clip
        }),
{
    reveal_strlit("-i");
    reveal_strlit("-c:v");
    reveal_strlit("libx264");
    reveal_strlit("h264_videotoolbox");
    reveal_strlit("h264_nvenc");
    reveal_strlit("-preset");
    reveal_strlit("medium");
    reveal_strlit("-crf");
    reveal_strlit("20");
    reveal_strlit("-pix_fmt");
    reveal_strlit("yuv420p");
    reveal_strlit("-b:v");
    reveal_strlit("12M");
    reveal_strlit("p5");
    reveal_strlit("-cq");
    reveal_strlit("23");
    lemma_seconds_text_len(w.end - w.start);
    let cmd = window_command(cloud, ps, w, overlay, out_clip, os, gpu);
    let inputs = window_inputs(cloud, ps, w, overlay);
    let output = window_output(w, overlay is Some, out_clip, os, gpu);
    let options = codec_of(os, gpu).1;
    let base = 2 + inputs.len();
    assert forall|j: int| base + 5 < j < cmd.len() - 1 implies #[trigger] cmd[j] != "-i"@ by {
        assert(cmd[j] == output[j - base]);
        if j >= base + 9 {
            assert(output[j - base] == options[j - base - 9]);
            assert("20"@[0] != "-i"@[0]);
            assert("23"@[0] != "-i"@[0]);
            assert("p5"@[0] != "-i"@[0]);
        }
    }
}

/// The mux always ends with a cap on the duration, which is what ends its endless audio.
pub proof fn law_mux_is_always_capped(
    video: Seq<char>,
    ps: Seq<Participant>,
    idxs: Seq<usize>,
    output: Seq<char>,
    duration: int,
)
    ensures
        ({
            let cmd = mux_command(video, ps, idxs, output, duration);
            let n = cmd.len();
            &&& n >= 3
            &&& cmd[n - 3] == "-t"@
            &&& cmd[n - 2] == seconds_text(duration)
            &&& cmd[n - 1] == output
        }),
{
}

/// The inputs of a command from argument `i` on, as ffmpeg reads them: `-y`, `-an` and `-vn`
/// stand alone, every other option has a value behind it, and that of `-i` is an input. What
/// is no option ends the list.
pub open spec fn inputs_from(cmd: Seq<Seq<char>>, i: int) -> Seq<Seq<char>>
    decreases cmd.len() - i,
{
    if i < 0 || i >= cmd.len() || cmd[i].len() == 0 || cmd[i][0] != '-' {
        Seq::empty()
    } else if cmd[i] == seq!['-', 'y'] || cmd[i] == seq!['-', 'a', 'n'] || cmd[i] == seq![
        '-',
        'v',
        'n',
    ] {
        inputs_from(cmd, i + 1)
    } else if i + 1 == cmd.len() {
        Seq::empty()
    } else if cmd[i] == seq!['-', 'i'] {
        seq![cmd[i + 1]] + inputs_from(cmd, i + 2)
    } else {
        inputs_from(cmd, i + 2)
    }
}

/// An input with the time at which it is entered.
spec fn is_timed_input(cmd: Seq<Seq<char>>, p: int) -> bool {
    0 <= p && p + 3 < cmd.len() && cmd[p] == "-ss"@ && cmd[p + 2] == "-i"@
}

proof fn lemma_timed_input(cmd: Seq<Seq<char>>, p: int)
    requires
        is_timed_input(cmd, p),
    ensures
        inputs_from(cmd, p) == seq![cmd[p + 3]] + inputs_from(cmd, p + 4),
{
    reveal_strlit("-ss");
    reveal_strlit("-i");
    assert("-i"@ =~= seq!['-', 'i']);
    assert(cmd[p][1] == 's');
    assert(cmd[p] != seq!['-', 'y']) by {
        assert(seq!['-', 'y'][1] == 'y');
    }
    assert(cmd[p] != seq!['-', 'a', 'n']) by {
        assert(seq!['-', 'a', 'n'][1] == 'a');
    }
    assert(cmd[p] != seq!['-', 'v', 'n']) by {
        assert(seq!['-', 'v', 'n'][1] == 'v');
    }
    assert(cmd[p].len() == 3);
    assert(cmd[p + 2].len() == 2);
    assert(cmd[p + 2] != seq!['-', 'y']) by {
        assert(seq!['-', 'y'][1] == 'y');
        assert(cmd[p + 2][1] == 'i');
    }
    assert(inputs_from(cmd, p) == inputs_from(cmd, p + 2));
}

proof fn lemma_timed_inputs(cmd: Seq<Seq<char>>, p: int, n: int, m: int)
    requires
        0 <= m < n,
        forall|i: int| 0 <= i < n ==> is_timed_input(cmd, #[trigger] (p + 4 * i)),
    ensures
        m < inputs_from(cmd, p).len(),
        inputs_from(cmd, p)[m] == cmd[p + 4 * m + 3],
        m == n - 1 ==> inputs_from(cmd, p).len() == n + inputs_from(cmd, p + 4 * n).len() && forall|
            j: int,
        |
            0 <= j < inputs_from(cmd, p + 4 * n).len() ==> inputs_from(cmd, p)[n + j]
                == #[trigger] inputs_from(cmd, p + 4 * n)[j],
    decreases n,
{
    assert(is_timed_input(cmd, p + 4 * 0));
    lemma_timed_input(cmd, p);
    let rest = inputs_from(cmd, p + 4);
    if n > 1 {
        assert forall|i: int| 0 <= i < n - 1 implies is_timed_input(
            cmd,
            #[trigger] (p + 4 + 4 * i),
        ) by {
            assert(is_timed_input(cmd, p + 4 * (i + 1)));
        }
        if m > 0 {
            lemma_timed_inputs(cmd, p + 4, n - 1, m - 1);
            assert(inputs_from(cmd, p)[m] == rest[m - 1]);
            if m == n - 1 {
                let tail = inputs_from(cmd, p + 4 * n);
                assert(p + 4 + 4 * (n - 1) == p + 4 * n);
                assert forall|j: int| 0 <= j < tail.len() implies inputs_from(cmd, p)[n + j]
                    == #[trigger] tail[j] by {
                    assert(inputs_from(cmd, p)[n + j] == rest[n - 1 + j]);
                }
            }
        }
    }
}

proof fn lemma_feed_inputs(ps: Seq<Participant>, w: Window, n: int)
    requires
        n >= 0,
    ensures
        feed_inputs(ps, w, n).len() == 4 * n,
        forall|i: int|
            0 <= i < n ==> feed_inputs(ps, w, n)[#[trigger] (4 * i)] == "-ss"@ && feed_inputs(
                ps,
                w,
                n,
            )[4 * i + 1] == seconds_text(seek_of(ps[w.tiles@[i].0 as int], w.start as int))
                && feed_inputs(ps, w, n)[4 * i + 2] == "-i"@ && feed_inputs(ps, w, n)[4 * i + 3]
                == ps[w.tiles@[i].0 as int].file@,
    decreases n,
{
    if n > 0 {
        lemma_feed_inputs(ps, w, n - 1);
        let before = feed_inputs(ps, w, n - 1);
        let all = feed_inputs(ps, w, n);
        assert forall|i: int| 0 <= i < n implies all[#[trigger] (4 * i)] == "-ss"@ && all[4 * i + 1]
            == seconds_text(seek_of(ps[w.tiles@[i].0 as int], w.start as int)) && all[4 * i + 2]
            == "-i"@ && all[4 * i + 3] == ps[w.tiles@[i].0 as int].file@ by {
            if i < n - 1 {
                assert(before[4 * i] == "-ss"@);
            }
        }
    }
}

proof fn lemma_window_inputs(
    cloud: Seq<char>,
    ps: Seq<Participant>,
    w: Window,
    overlay: Option<Seq<char>>,
    out_clip: Seq<char>,
    os: Seq<char>,
    gpu: bool,
)
    ensures
        ({
            let cmd = window_command(cloud, ps, w, overlay, out_clip, os, gpu);
            let n = w.tiles@.len() as int;
            &&& cmd.len() > 6 + 4 * n
            &&& cmd[0] == "ffmpeg"@
            &&& inputs_from(cmd, 1) == inputs_from(cmd, 2)
            &&& cmd[3] == seconds_text(w.start as int)
            &&& cmd[5] == cloud
            &&& forall|i: int| 0 <= i < n + 1 ==> is_timed_input(cmd, #[trigger] (2 + 4 * i))
            &&& forall|i: int|
                0 <= i < n ==> cmd[#[trigger] (6 + 4 * i) + 1] == seconds_text(
                    seek_of(ps[w.tiles@[i].0 as int], w.start as int),
                ) && cmd[6 + 4 * i + 3] == ps[w.tiles@[i].0 as int].file@
        }),
{
    reveal_strlit("-y");
    assert("-y"@ =~= seq!['-', 'y']);
    let cmd = window_command(cloud, ps, w, overlay, out_clip, os, gpu);
    let n = w.tiles@.len() as int;
    let feeds = feed_inputs(ps, w, n);
    lemma_feed_inputs(ps, w, n);
    assert(cmd[1] == "-y"@);
    assert(inputs_from(cmd, 1) == inputs_from(cmd, 2));
    assert forall|i: int| 0 <= i < n implies cmd[#[trigger] (6 + 4 * i) + 1] == seconds_text(
        seek_of(ps[w.tiles@[i].0 as int], w.start as int),
    ) && cmd[6 + 4 * i + 3] == ps[w.tiles@[i].0 as int].file@ by {
        assert(feeds[4 * i] == "-ss"@);
        assert(cmd[6 + 4 * i + 1] == feeds[4 * i + 1]);
        assert(cmd[6 + 4 * i + 3] == feeds[4 * i + 3]);
    }
    assert forall|i: int| 0 <= i < n + 1 implies is_timed_input(cmd, #[trigger] (2 + 4 * i)) by {
        if i > 0 {
            let j = i - 1;
            assert(feeds[4 * j] == "-ss"@);
            assert(cmd[6 + 4 * j] == feeds[4 * j]);
            assert(cmd[6 + 4 * j + 2] == feeds[4 * j + 2]);
        }
    }
}

/// A chain of filters begins with the input that it reads the picture of.
pub open spec fn reads_picture(chain: Seq<char>, input: int) -> bool {
    let end = 1 + decimal(input).len() as int;
    &&& chain.len() >= end + 3
    &&& chain[0] == '['
    &&& chain.subrange(1, end) == decimal(input)
    &&& chain.subrange(end, end + 3) == seq![':', 'v', ']']
}

/// A filter begins with the input that it reads the sound of.
pub open spec fn reads_sound(filter: Seq<char>, input: int) -> bool {
    let end = 1 + decimal(input).len() as int;
    &&& filter.len() >= end + 3
    &&& filter[0] == '['
    &&& filter.subrange(1, end) == decimal(input)
    &&& filter.subrange(end, end + 3) == seq![':', 'a', ']']
}

/// What is read from two inputs is told apart.
pub proof fn law_inputs_are_told_apart(chain: Seq<char>, i: int, j: int)
    requires
        0 <= i,
        0 <= j,
        (reads_picture(chain, i) && reads_picture(chain, j)) || (reads_sound(chain, i)
            && reads_sound(chain, j)),
    ensures
        i == j,
{
    law_decimal_is_read_back(i);
    law_decimal_is_read_back(j);
    let (d, e) = (decimal(i), decimal(j));
    let (m, n) = (d.len() as int, e.len() as int);
    if m < n {
        assert(chain[1 + m] == ':') by {
            assert(chain.subrange(1 + m, 4 + m)[0] == ':');
        }
        assert(chain.subrange(1, 1 + n)[m] == e[m]);
    } else if n < m {
        assert(chain[1 + n] == ':') by {
            assert(chain.subrange(1 + n, 4 + n)[0] == ':');
        }
        assert(chain.subrange(1, 1 + m)[n] == d[n]);
    }
}

proof fn lemma_graph_holds(tiles: Seq<(usize, (u32, u32, u32, u32))>, n: int, i: int) -> (after:
    Seq<char>)
    requires
        0 <= i < n,
    ensures
        tiles_graph(tiles, n) == tiles_graph(tiles, i) + tile_text(i, tiles[i].1) + after,
    decreases n,
{
    if i < n - 1 {
        let rest = lemma_graph_holds(tiles, n - 1, i);
        let after = rest + tile_text(n - 1, tiles[n - 1].1);
        assert(tiles_graph(tiles, n) =~= tiles_graph(tiles, i) + tile_text(i, tiles[i].1) + after);
        after
    } else {
        assert(tiles_graph(tiles, n) =~= tiles_graph(tiles, i) + tile_text(i, tiles[i].1) + Seq::<
            char,
        >::empty());
        Seq::empty()
    }
}

proof fn lemma_window_graph_holds(w: Window, masked: bool, i: int) -> (after: Seq<char>)
    requires
        0 <= i < w.tiles@.len(),
    ensures
        window_graph(w, masked).0 == tiles_graph(w.tiles@, i) + tile_text(i, w.tiles@[i].1) + after,
{
    let n = w.tiles@.len() as int;
    let rest = lemma_graph_holds(w.tiles@, n, i);
    let after = if masked {
        rest + ("[b"@ + decimal(n) + "]["@ + decimal(1 + n) + ":v]overlay=x=0:y=0[outv];"@)
    } else {
        rest
    };
    assert(window_graph(w, masked).0 =~= tiles_graph(w.tiles@, i) + tile_text(i, w.tiles@[i].1)
        + after);
    after
}

proof fn lemma_tile_reads(i: int, b: (u32, u32, u32, u32))
    ensures
        reads_picture(tile_text(i, b), 1 + i),
{
    reveal_strlit("[");
    reveal_strlit(":v]scale=");
    let chain = tile_text(i, b);
    let d = decimal(1 + i);
    let end = 1 + d.len() as int;
    assert(chain.subrange(1, end) =~= d);
    assert(chain.subrange(end, end + 3) =~= seq![':', 'v', ']']);
}

proof fn lemma_input_of_tile(
    cloud: Seq<char>,
    ps: Seq<Participant>,
    w: Window,
    overlay: Option<Seq<char>>,
    out_clip: Seq<char>,
    os: Seq<char>,
    gpu: bool,
    i: int,
)
    requires
        0 <= i < w.tiles@.len(),
    ensures
        ({
            let inputs = inputs_from(window_command(cloud, ps, w, overlay, out_clip, os, gpu), 1);
            1 + i < inputs.len() && inputs[1 + i] == ps[w.tiles@[i].0 as int].file@
        }),
{
    let cmd = window_command(cloud, ps, w, overlay, out_clip, os, gpu);
    let n = w.tiles@.len() as int;
    lemma_window_inputs(cloud, ps, w, overlay, out_clip, os, gpu);
    lemma_timed_inputs(cmd, 2, n + 1, 1 + i);
    assert(cmd[6 + 4 * i + 3] == ps[w.tiles@[i].0 as int].file@);
}

/// Each tile of a window shows its own participant: the window's filter graph holds a chain
/// for it, behind those of the tiles below, and the input that the chain reads, counting the
/// inputs of the command from zero, is the participant's file.
pub proof fn law_each_tile_shows_its_participant(
    cloud: Seq<char>,
    ps: Seq<Participant>,
    w: Window,
    overlay: Option<Seq<char>>,
    out_clip: Seq<char>,
    os: Seq<char>,
    gpu: bool,
    i: int,
) -> (after: Seq<char>)
    requires
        0 <= i < w.tiles@.len(),
    ensures
        ({
            let cmd = window_command(cloud, ps, w, overlay, out_clip, os, gpu);
            let inputs = inputs_from(cmd, 1);
            let chain = tile_text(i, w.tiles@[i].1);
            let graph = window_graph(w, overlay is Some).0;
            &&& exists|m: int|
                0 <= m < inputs.len() && #[trigger] reads_picture(chain, m) && inputs[m]
                    == ps[w.tiles@[i].0 as int].file@
            &&& forall|m: int| #[trigger]
                reads_picture(chain, m) && 0 <= m ==> m < inputs.len() && inputs[m]
                    == ps[w.tiles@[i].0 as int].file@
            &&& graph == tiles_graph(w.tiles@, i) + chain + after
            &&& exists|k: int|
                0 <= k < cmd.len() - 1 && #[trigger] cmd[k] == "-filter_complex"@ && cmd[k + 1]
                    == graph
        }),
{
    let cmd = window_command(cloud, ps, w, overlay, out_clip, os, gpu);
    let inputs = inputs_from(cmd, 1);
    let chain = tile_text(i, w.tiles@[i].1);
    lemma_input_of_tile(cloud, ps, w, overlay, out_clip, os, gpu, i);
    lemma_tile_reads(i, w.tiles@[i].1);
    assert forall|m: int| #[trigger] reads_picture(chain, m) && 0 <= m implies m < inputs.len()
        && inputs[m] == ps[w.tiles@[i].0 as int].file@ by {
        law_inputs_are_told_apart(chain, m, 1 + i);
    }
    let k = 2 + window_inputs(cloud, ps, w, overlay).len() as int;
    assert(cmd[k] == "-filter_complex"@);
    assert(cmd[k + 1] == window_graph(w, overlay is Some).0);
    lemma_window_graph_holds(w, overlay is Some, i)
}

/// What a tile's chain does: its input is scaled to fill a box of the tile's width and height,
/// cropped to it, and laid over the picture so far with its corner at the tile's column and
/// row; the result is the picture that the next tile is laid over.
pub proof fn law_tile_fills_its_box(i: int, x: u32, y: u32, w: u32, h: u32)
    ensures
        ({
            let (left, top) = (decimal(x as int), decimal(y as int));
            let (wide, high) = (decimal(w as int), decimal(h as int));
            let (below, above) = (decimal(i), decimal(i + 1));
            tile_text(i, (x, y, w, h)) == "["@ + above + ":v]scale="@ + wide + ":"@ + high
                + ":force_original_aspect_ratio=increase,crop="@ + wide + ":"@ + high
                + ",setsar=1[t"@ + below + "];[b"@ + below + "][t"@ + below + "]overlay=x="@ + left
                + ":y="@ + top + "[b"@ + above + "];"@
        }),
{
}

/// Cloud and feeds are in step: the cloud is entered where the window begins, and each feed
/// where the window begins in the feed's own time, which is the cloud's less the offset; a
/// feed that has not begun then is entered at its start.
pub proof fn law_inputs_are_in_step(
    cloud: Seq<char>,
    ps: Seq<Participant>,
    w: Window,
    overlay: Option<Seq<char>>,
    out_clip: Seq<char>,
    os: Seq<char>,
    gpu: bool,
    i: int,
)
    requires
        0 <= i < w.tiles@.len(),
    ensures
        ({
            let cmd = window_command(cloud, ps, w, overlay, out_clip, os, gpu);
            let p = ps[w.tiles@[i].0 as int];
            let offset = match p.offset_ns {
                Some(o) => o as int,
                None => 0,
            };
            let at = 6 + 4 * i;
            &&& cmd[2] == "-ss"@ && cmd[3] == seconds_text(w.start as int) && cmd[4] == "-i"@
                && cmd[5] == cloud
            &&& cmd[at] == "-ss"@ && cmd[at + 2] == "-i"@ && cmd[at + 3] == p.file@
            &&& w.start >= offset ==> cmd[at + 1] == seconds_text(w.start - offset)
            &&& w.start <= offset ==> cmd[at + 1] == seconds_text(0)
        }),
{
    let cmd = window_command(cloud, ps, w, overlay, out_clip, os, gpu);
    lemma_window_inputs(cloud, ps, w, overlay, out_clip, os, gpu);
    assert(is_timed_input(cmd, 2 + 4 * 0int));
    assert(is_timed_input(cmd, 2 + 4 * (i + 1)));
    assert(cmd[6 + 4 * i + 3] == ps[w.tiles@[i].0 as int].file@);
}

/// The cloud is the first input and the picture that the lowest tile is laid over. A mask is
/// the last input, looped, and is laid over the picture with all tiles; the result is what the
/// command writes. Without a mask that is the picture with all tiles.
pub proof fn law_cloud_below_and_mask_on_top(
    cloud: Seq<char>,
    ps: Seq<Participant>,
    w: Window,
    overlay: Option<Seq<char>>,
    out_clip: Seq<char>,
    os: Seq<char>,
    gpu: bool,
)
    ensures
        ({
            let cmd = window_command(cloud, ps, w, overlay, out_clip, os, gpu);
            let inputs = inputs_from(cmd, 1);
            let n = w.tiles@.len() as int;
            let k = window_inputs(cloud, ps, w, overlay).len() as int + 2;
            let (graph, label) = window_graph(w, overlay is Some);
            &&& inputs.len() > n
            &&& inputs[0] == cloud
            &&& tiles_graph(w.tiles@, 0) == "[0:v]"@ + "format=yuv420p,setsar=1"@ + "[b0];"@
            &&& overlay matches Some(o) ==> {
                &&& inputs.len() > n + 1
                &&& inputs[n + 1] == o
                &&& cmd[6 + 4 * n] == "-loop"@ && cmd[7 + 4 * n] == "1"@
                &&& cmd[8 + 4 * n] == "-framerate"@ && cmd[9 + 4 * n] == "30"@
                &&& graph == tiles_graph(w.tiles@, n) + ("[b"@ + decimal(n) + "]"@) + ("["@
                    + decimal(n + 1) + ":v]"@) + "overlay=x=0:y=0[outv];"@
                &&& label == "[outv]"@
            }
            &&& overlay is None ==> graph == tiles_graph(w.tiles@, n) && label == "[b"@ + decimal(n)
                + "]"@
            &&& cmd[k] == "-filter_complex"@ && cmd[k + 1] == graph && cmd[k + 2] == "-map"@
                && cmd[k + 3] == label && cmd[k + 4] == "-an"@
        }),
{
    let cmd = window_command(cloud, ps, w, overlay, out_clip, os, gpu);
    let n = w.tiles@.len() as int;
    lemma_window_inputs(cloud, ps, w, overlay, out_clip, os, gpu);
    lemma_feed_inputs(ps, w, n);
    lemma_timed_inputs(cmd, 2, n + 1, 0);
    lemma_timed_inputs(cmd, 2, n + 1, n);
    reveal_strlit("[0:v]format=yuv420p,setsar=1[b0];");
    reveal_strlit("[0:v]");
    reveal_strlit("format=yuv420p,setsar=1");
    reveal_strlit("[b0];");
    assert(tiles_graph(w.tiles@, 0) =~= "[0:v]"@ + "format=yuv420p,setsar=1"@ + "[b0];"@);
    if let Some(o) = overlay {
        let p = 6 + 4 * n;
        reveal_strlit("-loop");
        reveal_strlit("-framerate");
        reveal_strlit("-i");
        reveal_strlit("][");
        reveal_strlit("]");
        reveal_strlit("[");
        reveal_strlit(":v]overlay=x=0:y=0[outv];");
        reveal_strlit(":v]");
        reveal_strlit("overlay=x=0:y=0[outv];");
        assert("-i"@ =~= seq!['-', 'i']);
        assert(p == 2 + 4 * (n + 1));
        assert(cmd[p] == "-loop"@ && cmd[p + 2] == "-framerate"@ && cmd[p + 4] == "-i"@ && cmd[p
            + 5] == o);
        assert(cmd[p].len() == 5 && cmd[p + 2].len() == 10 && cmd[p + 4].len() == 2);
        assert(cmd[p + 4] != seq!['-', 'y']) by {
            assert(seq!['-', 'y'][1] == 'y');
            assert(cmd[p + 4][1] == 'i');
        }
        assert(inputs_from(cmd, p) == inputs_from(cmd, p + 2));
        assert(inputs_from(cmd, p + 2) == inputs_from(cmd, p + 4));
        assert(inputs_from(cmd, p + 4) == seq![o] + inputs_from(cmd, p + 6));
        assert(inputs_from(cmd, p)[0] == o);
        assert(inputs_from(cmd, 2)[n + 1 + 0] == inputs_from(cmd, p)[0]);
        assert(window_graph(w, true).0 =~= tiles_graph(w.tiles@, n) + ("[b"@ + decimal(n) + "]"@)
            + ("["@ + decimal(n + 1) + ":v]"@) + "overlay=x=0:y=0[outv];"@);
    }
}

/// The hardware encoder is used on request, and where there is one; otherwise it is the
/// software one.
pub proof fn law_codec(os: Seq<char>, gpu: bool)
    ensures
        gpu && os == "macos"@ ==> codec_of(os, gpu) == ("h264_videotoolbox"@, seq!["-b:v"@, "12M"@]),
        gpu && os == "linux"@ ==> codec_of(os, gpu) == (
            "h264_nvenc"@,
            seq!["-preset"@, "p5"@, "-cq"@, "23"@],
        ),
        !gpu || (os != "macos"@ && os != "linux"@) ==> codec_of(os, gpu).0 == "libx264"@
            && codec_of(os, gpu).1.len() >= 4 && codec_of(os, gpu).1[2] == "-crf"@ && codec_of(
            os,
            gpu,
        ).1[3] == "20"@,
{
    reveal_strlit("macos");
    reveal_strlit("linux");
    assert("macos"@[0] != "linux"@[0]);
}

proof fn lemma_track_inputs(ps: Seq<Participant>, idxs: Seq<usize>, n: int)
    requires
        n >= 0,
    ensures
        track_inputs(ps, idxs, n).len() == 2 * n,
        forall|k: int|
            0 <= k < n ==> track_inputs(ps, idxs, n)[#[trigger] (2 * k)] == "-i"@ && track_inputs(
                ps,
                idxs,
                n,
            )[2 * k + 1] == ps[idxs[k] as int].file@,
    decreases n,
{
    if n > 0 {
        lemma_track_inputs(ps, idxs, n - 1);
        let before = track_inputs(ps, idxs, n - 1);
        let all = track_inputs(ps, idxs, n);
        assert forall|k: int| 0 <= k < n implies all[#[trigger] (2 * k)] == "-i"@ && all[2 * k + 1]
            == ps[idxs[k] as int].file@ by {
            if k < n - 1 {
                assert(before[2 * k] == "-i"@);
            }
        }
    }
}

proof fn lemma_plain_inputs(cmd: Seq<Seq<char>>, p: int, n: int, m: int)
    requires
        0 <= p,
        0 <= m < n,
        p + 2 * n <= cmd.len(),
        forall|i: int| 0 <= i < n ==> cmd[#[trigger] (p + 2 * i)] == "-i"@,
    ensures
        m < inputs_from(cmd, p).len(),
        inputs_from(cmd, p)[m] == cmd[p + 2 * m + 1],
    decreases n,
{
    reveal_strlit("-i");
    assert("-i"@ =~= seq!['-', 'i']);
    assert(cmd[p + 2 * 0] == "-i"@);
    assert(cmd[p] != seq!['-', 'y']) by {
        assert(seq!['-', 'y'][1] == 'y');
        assert(cmd[p][1] == 'i');
    }
    assert(cmd[p].len() == 2);
    assert(inputs_from(cmd, p) == seq![cmd[p + 1]] + inputs_from(cmd, p + 2));
    if m > 0 {
        assert forall|i: int| 0 <= i < n - 1 implies cmd[#[trigger] (p + 2 + 2 * i)] == "-i"@ by {
            assert(cmd[p + 2 * (i + 1)] == "-i"@);
        }
        lemma_plain_inputs(cmd, p + 2, n - 1, m - 1);
    }
}

proof fn lemma_delays_hold(ps: Seq<Participant>, idxs: Seq<usize>, n: int, k: int) -> (after: Seq<
    char,
>)
    requires
        0 <= k < n,
    ensures
        delays(ps, idxs, n) == delays(ps, idxs, k) + delay_text(k, offset_of(ps[idxs[k] as int]))
            + after,
    decreases n,
{
    let own = delay_text(k, offset_of(ps[idxs[k] as int]));
    if k < n - 1 {
        let rest = lemma_delays_hold(ps, idxs, n - 1, k);
        let after = rest + delay_text(n - 1, offset_of(ps[idxs[n - 1] as int]));
        assert(delays(ps, idxs, n) =~= delays(ps, idxs, k) + own + after);
        after
    } else {
        assert(delays(ps, idxs, n) =~= delays(ps, idxs, k) + own + Seq::<char>::empty());
        Seq::empty()
    }
}

/// What a track's filter does: the sound of its input is made mono, delayed by the offset to
/// the nearest millisecond and padded with silence.
pub proof fn law_track_is_delayed_by_its_offset(k: int, offset: int)
    ensures
        reads_sound(delay_text(k, offset), 1 + k),
        delay_text(k, offset) == "["@ + decimal(k + 1) + ":a]"@
            + "aformat=channel_layouts=mono,asetpts=PTS-STARTPTS,"@ + "adelay="@ + signed_decimal(
            nearest_ms(offset),
        ) + ",apad"@ + "[aud"@ + decimal(k) + "];"@,
{
    reveal_strlit("[");
    reveal_strlit(":a]aformat=channel_layouts=mono,asetpts=PTS-STARTPTS,adelay=");
    reveal_strlit(":a]");
    reveal_strlit("aformat=channel_layouts=mono,asetpts=PTS-STARTPTS,");
    reveal_strlit("adelay=");
    reveal_strlit(",apad");
    reveal_strlit(",apad[aud");
    reveal_strlit("[aud");
    let filter = delay_text(k, offset);
    let d = decimal(1 + k);
    let end = 1 + d.len() as int;
    assert(filter.subrange(1, end) =~= d);
    assert(filter.subrange(end, end + 3) =~= seq![':', 'a', ']']);
    assert(":a]aformat=channel_layouts=mono,asetpts=PTS-STARTPTS,adelay="@ =~= ":a]"@
        + "aformat=channel_layouts=mono,asetpts=PTS-STARTPTS,"@ + "adelay="@);
    assert(",apad[aud"@ =~= ",apad"@ + "[aud"@);
    assert(filter =~= "["@ + decimal(k + 1) + ":a]"@
        + "aformat=channel_layouts=mono,asetpts=PTS-STARTPTS,"@ + "adelay="@ + signed_decimal(
        nearest_ms(offset),
    ) + ",apad"@ + "[aud"@ + decimal(k) + "];"@);
}

proof fn lemma_input_of_track(
    video: Seq<char>,
    ps: Seq<Participant>,
    idxs: Seq<usize>,
    output: Seq<char>,
    duration: int,
    k: int,
)
    requires
        0 <= k < idxs.len(),
    ensures
        ({
            let inputs = inputs_from(mux_command(video, ps, idxs, output, duration), 1);
            inputs.len() > idxs.len() && inputs[0] == video && inputs[1 + k]
                == ps[idxs[k] as int].file@
        }),
{
    reveal_strlit("-y");
    assert("-y"@ =~= seq!['-', 'y']);
    let cmd = mux_command(video, ps, idxs, output, duration);
    let n = idxs.len() as int;
    lemma_track_inputs(ps, idxs, n);
    let tracks = track_inputs(ps, idxs, n);
    assert(cmd[1] == "-y"@);
    assert(inputs_from(cmd, 1) == inputs_from(cmd, 2));
    assert forall|i: int| 0 <= i < n + 1 implies cmd[#[trigger] (2 + 2 * i)] == "-i"@ by {
        if i > 0 {
            assert(tracks[2 * (i - 1)] == "-i"@);
            assert(cmd[4 + 2 * (i - 1)] == tracks[2 * (i - 1)]);
        }
    }
    lemma_plain_inputs(cmd, 2, n + 1, 0);
    lemma_plain_inputs(cmd, 2, n + 1, n);
    lemma_plain_inputs(cmd, 2, n + 1, 1 + k);
    assert(tracks[2 * k] == "-i"@);
    assert(cmd[4 + 2 * k + 1] == tracks[2 * k + 1]);
}

/// Each chosen track is heard: the input that its filter reads, counting the inputs of the
/// command from zero, is the track's file and not the video.
pub proof fn law_each_track_is_heard(
    video: Seq<char>,
    ps: Seq<Participant>,
    idxs: Seq<usize>,
    output: Seq<char>,
    duration: int,
    k: int,
    offset: int,
)
    requires
        0 <= k < idxs.len(),
    ensures
        ({
            let inputs = inputs_from(mux_command(video, ps, idxs, output, duration), 1);
            let filter = delay_text(k, offset);
            &&& inputs.len() > idxs.len()
            &&& inputs[0] == video
            &&& exists|m: int|
                0 < m < inputs.len() && #[trigger] reads_sound(filter, m) && inputs[m]
                    == ps[idxs[k] as int].file@
            &&& forall|m: int| #[trigger]
                reads_sound(filter, m) && 0 <= m ==> 0 < m < inputs.len() && inputs[m]
                    == ps[idxs[k] as int].file@
        }),
{
    let inputs = inputs_from(mux_command(video, ps, idxs, output, duration), 1);
    let filter = delay_text(k, offset);
    lemma_input_of_track(video, ps, idxs, output, duration, k);
    law_track_is_delayed_by_its_offset(k, offset);
    assert forall|m: int| #[trigger] reads_sound(filter, m) && 0 <= m implies 0 < m < inputs.len()
        && inputs[m] == ps[idxs[k] as int].file@ by {
        law_inputs_are_told_apart(filter, m, 1 + k);
    }
}

/// Each chosen track is heard at its own time: the audio graph holds a filter for it, behind
/// those of the tracks before, for the track's own offset. A track that was not aligned
/// begins with the video.
pub proof fn law_each_track_has_its_own_delay(ps: Seq<Participant>, idxs: Seq<usize>, k: int) -> (
    after: Seq<char>)
    requires
        0 <= k < idxs.len(),
    ensures
        match ps[idxs[k] as int].offset_ns {
            Some(o) => mix_graph(ps, idxs) == delays(ps, idxs, k) + delay_text(k, o as int) + after,
            None => mix_graph(ps, idxs) == delays(ps, idxs, k) + delay_text(k, 0) + after,
        },
        delays(ps, idxs, 0).len() == 0,
{
    let n = idxs.len() as int;
    let filter = delay_text(k, offset_of(ps[idxs[k] as int]));
    let rest = lemma_delays_hold(ps, idxs, n, k);
    let after = rest + mix_labels(n) + ("amix=inputs="@ + decimal(n)
        + ":duration=first:normalize=0,alimiter=limit=0.95[aout];"@);
    assert(mix_graph(ps, idxs) =~= delays(ps, idxs, k) + filter + after);
    after
}

/// The labels of the tracks that are mixed.
pub open spec fn track_labels(n: int) -> Seq<Seq<char>> {
    Seq::new(n as nat, |k: int| "[aud"@ + decimal(k) + "]"@)
}

proof fn lemma_mix_labels(n: int)
    requires
        n > 0,
    ensures
        mix_labels(n) == joined(track_labels(n), Seq::empty()),
    decreases n,
{
    let all = track_labels(n);
    assert(all.last() == "[aud"@ + decimal(n - 1) + "]"@);
    if n > 1 {
        lemma_mix_labels(n - 1);
        assert(all.drop_last() =~= track_labels(n - 1));
        assert(mix_labels(n) =~= joined(all, Seq::empty()));
    } else {
        assert(mix_labels(0) =~= Seq::<char>::empty());
        assert(mix_labels(n) =~= joined(all, Seq::empty()));
    }
}

/// All chosen tracks are mixed, each once, without making them quieter, behind a limiter. The
/// mux writes that sound with the picture of the joined video, which is copied.
pub proof fn law_all_tracks_are_mixed(
    video: Seq<char>,
    ps: Seq<Participant>,
    idxs: Seq<usize>,
    output: Seq<char>,
    duration: int,
)
    requires
        idxs.len() > 0,
    ensures
        ({
            let cmd = mux_command(video, ps, idxs, output, duration);
            let n = idxs.len() as int;
            let at = 4 + 2 * n;
            &&& mix_graph(ps, idxs) == delays(ps, idxs, n) + joined(track_labels(n), Seq::empty()) + (
            "amix=inputs="@ + decimal(n)) + ":duration=first:normalize=0"@
                + ",alimiter=limit=0.95[aout];"@
            &&& cmd[at] == "-filter_complex"@ && cmd[at + 1] == mix_graph(ps, idxs)
            &&& cmd[at + 2] == "-map"@ && cmd[at + 3] == "0:v"@
            &&& cmd[at + 4] == "-map"@ && cmd[at + 5] == "[aout]"@
            &&& cmd[at + 6] == "-c:v"@ && cmd[at + 7] == "copy"@
            &&& cmd[at + 8] == "-c:a"@ && cmd[at + 9] == "aac"@
            &&& cmd[at + 10] == "-b:a"@ && cmd[at + 11] == "256k"@
            &&& cmd[at + 12] == "-movflags"@ && cmd[at + 13] == "+faststart"@
        }),
{
    reveal_strlit("amix=inputs=");
    reveal_strlit(":duration=first:normalize=0,alimiter=limit=0.95[aout];");
    reveal_strlit(":duration=first:normalize=0");
    reveal_strlit(",alimiter=limit=0.95[aout];");
    let n = idxs.len() as int;
    lemma_track_inputs(ps, idxs, n);
    lemma_mix_labels(n);
    assert(mix_graph(ps, idxs) =~= delays(ps, idxs, n) + joined(track_labels(n), Seq::empty()) + (
    "amix=inputs="@ + decimal(n)) + ":duration=first:normalize=0"@
        + ",alimiter=limit=0.95[aout];"@);
}

/// Clips are joined from their list without encoding them again.
pub proof fn law_clips_are_copied(list_file: Seq<char>, out_video: Seq<char>)
    ensures
        ({
            let cmd = concat_command(list_file, out_video);
            let n = cmd.len();
            &&& n >= 11
            &&& cmd[2] == "-f"@ && cmd[3] == "concat"@
            &&& cmd[6] == "-i"@ && cmd[7] == list_file
            &&& cmd[8] == "-c"@ && cmd[9] == "copy"@
            &&& cmd[n - 1] == out_video
        }),
{
}

} // verus!
