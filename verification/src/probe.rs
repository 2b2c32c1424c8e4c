//! What ffprobe says of a media file.
use serde_json::Value;
use vstd::prelude::*;

use crate::model::ProbeInfo;

verus! {

/// A JSON value.
#[verifier::external_type_specification]
#[verifier::external_body]
pub struct ExValue(serde_json::Value);

/// Why a text is not JSON.
#[verifier::external_type_specification]
#[verifier::external_body]
pub struct ExError(serde_json::Error);

/// What a JSON value holds. Of a number only the unsigned 64-bit integer counts that it
/// is, if it is one.
pub enum Json {
    Null,
    Bool(bool),
    Number(Option<u64>),
    Text(Seq<char>),
    List(Seq<Json>),
    Object(Map<Seq<char>, Json>),
}

/// What a `serde_json::Value` holds.
pub uninterp spec fn json_of(v: serde_json::Value) -> Json;

/// The JSON value that some bytes are the text of, as `serde_json::from_slice` reads it.
pub uninterp spec fn parsed(b: Seq<u8>) -> Option<Json>;

pub open spec fn all_json(v: Seq<serde_json::Value>) -> Seq<Json> {
    v.map_values(|x: serde_json::Value| json_of(x))
}

/// Calls `serde_json::from_slice` for a `Value`. What it makes of the bytes depends on
/// them alone. Which bytes are JSON, and what they hold, is left to that function.
#[verifier::external_body]
fn parse(b: &[u8]) -> (r: Result<Value, serde_json::Error>)
    ensures
        match r {
            Ok(v) => parsed(b@) == Some(json_of(v)),
            Err(_) => parsed(b@) is None,
        },
{
    serde_json::from_slice(b)
}

/// What stands under a key of a JSON value, if it is an object that has the key.
pub open spec fn member(v: Json, key: Seq<char>) -> Option<Json> {
    match v {
        Json::Object(m) => if m.dom().contains(key) {
            Some(m[key])
        } else {
            None
        },
        _ => None,
    }
}

/// Calls `Value::get` with a string: what stands under that key of an object. There is
/// nothing if the value is no object or the object lacks the key.
#[verifier::external_body]
fn get<'a>(v: &'a Value, key: &str) -> (r: Option<&'a Value>)
    ensures
        match r {
            Some(x) => member(json_of(*v), key@) == Some(json_of(*x)),
            None => member(json_of(*v), key@) is None,
        },
{
    v.get(key)
}

/// Calls `Value::as_array`: the elements of a list, in their order. There are none if the
/// value is no list.
#[verifier::external_body]
fn as_array<'a>(v: &'a Value) -> (r: Option<&'a Vec<Value>>)
    ensures
        match r {
            Some(a) => json_of(*v) == Json::List(all_json(a@)),
            None => !(json_of(*v) is List),
        },
{
    v.as_array()
}

/// Calls `Value::as_str`: the characters of a string value, and nothing for any other.
#[verifier::external_body]
fn as_str<'a>(v: &'a Value) -> (r: Option<&'a str>)
    ensures
        match r {
            Some(s) => json_of(*v) == Json::Text(s@),
            None => !(json_of(*v) is Text),
        },
{
    v.as_str()
}

/// Calls `Value::as_u64`: the unsigned integer that a number is. There is none if the
/// value is negative, has a fraction, is too large or is no number.
#[verifier::external_body]
fn as_u64(v: &Value) -> (r: Option<u64>)
    ensures
        match r {
            Some(n) => json_of(*v) == Json::Number(Some(n)),
            None => !(json_of(*v) matches Json::Number(Some(_))),
        },
{
    v.as_u64()
}

/// What is read of a stream.
#[derive(Debug)]
pub struct StreamEntry {
    pub codec_type: Option<String>,
    pub width: Option<u64>,
    pub height: Option<u64>,
    pub frame_rate: Option<String>,
}

/// `StreamEntry` over mathematical values.
#[verifier::ext_equal]
pub struct StreamView {
    pub codec_type: Option<Seq<char>>,
    pub width: Option<u64>,
    pub height: Option<u64>,
    pub frame_rate: Option<Seq<char>>,
}

pub open spec fn opt_view(s: Option<String>) -> Option<Seq<char>> {
    match s {
        Some(t) => Some(t@),
        None => None,
    }
}

impl View for StreamEntry {
    type V = StreamView;

    open spec fn view(&self) -> StreamView {
        StreamView {
            codec_type: opt_view(self.codec_type),
            width: self.width,
            height: self.height,
            frame_rate: opt_view(self.frame_rate),
        }
    }
}

pub open spec fn stream_views(s: Seq<StreamEntry>) -> Seq<StreamView> {
    s.map_values(|x: StreamEntry| x@)
}

pub open spec fn is_type(s: StreamView, t: Seq<char>) -> bool {
    s.codec_type == Some(t)
}

/// The last of the first `n` streams that is a video.
pub open spec fn last_video(s: Seq<StreamView>, n: int) -> Option<StreamView>
    decreases n,
{
    if n <= 0 {
        None
    } else if is_type(s[n - 1], "video"@) {
        Some(s[n - 1])
    } else {
        last_video(s, n - 1)
    }
}

/// One of the first `n` streams is audio.
pub open spec fn has_audio_in(s: Seq<StreamView>, n: int) -> bool {
    exists|i: int| 0 <= i < n && is_type(#[trigger] s[i], "audio"@)
}

/// A dimension; a missing one counts as zero, and only its low 32 bits are kept.
pub open spec fn dimension(d: Option<u64>) -> u32 {
    match d {
        Some(v) => v as u32,
        None => 0,
    }
}

/// The last video stream gives size and frame rate; any audio stream counts.
pub open spec fn is_summary(
    r: ProbeInfo,
    path: Seq<char>,
    s: Seq<StreamView>,
    duration: Option<Seq<char>>,
) -> bool {
    let video = last_video(s, s.len() as int);
    &&& r.path@ == path
    &&& r.width == match video {
        Some(v) => dimension(v.width),
        None => 0,
    }
    &&& r.height == match video {
        Some(v) => dimension(v.height),
        None => 0,
    }
    &&& opt_view(r.video_fps) == match video {
        Some(v) => v.frame_rate,
        None => None,
    }
    &&& r.has_audio == has_audio_in(s, s.len() as int)
    &&& opt_view(r.duration) == duration
}

fn low_bits(d: &Option<u64>) -> (r: u32)
    ensures
        r == dimension(*d),
{
    match d {
        Some(v) => *v as u32,
        None => 0,
    }
}

fn same(s: &Option<String>, t: &str) -> (r: bool)
    ensures
        r == (opt_view(*s) == Some(t@)),
{
    match s {
        Some(x) => *x == t.to_string(),
        None => false,
    }
}

fn copy(s: &Option<String>) -> (r: Option<String>)
    ensures
        opt_view(r) == opt_view(*s),
{
    match s {
        Some(x) => Some(x.clone()),
        None => None,
    }
}

/// What the streams of a file and its duration say of it.
pub fn summarise(path: &str, streams: &[StreamEntry], duration: Option<String>) -> (r: ProbeInfo)
    ensures
        is_summary(r, path@, stream_views(streams@), opt_view(duration)),
{
    let ghost s = stream_views(streams@);
    let mut width: u32 = 0;
    let mut height: u32 = 0;
    let mut fps: Option<String> = None;
    let mut has_audio = false;
    let mut i: usize = 0;
    while i < streams.len()
        invariant
            i <= streams@.len(),
            s == stream_views(streams@),
            width == match last_video(s, i as int) {
                Some(v) => dimension(v.width),
                None => 0,
            },
            height == match last_video(s, i as int) {
                Some(v) => dimension(v.height),
                None => 0,
            },
            opt_view(fps) == match last_video(s, i as int) {
                Some(v) => v.frame_rate,
                None => None,
            },
            has_audio == has_audio_in(s, i as int),
        decreases streams@.len() - i,
    {
        let e = &streams[i];
        proof {
            assert(s[i as int] == e@);
            reveal_strlit("video");
            reveal_strlit("audio");
            assert("video"@ != "audio"@) by {
                assert("video"@[0] != "audio"@[0]);
            }
        }
        if same(&e.codec_type, "video") {
            width = low_bits(&e.width);
            height = low_bits(&e.height);
            fps = copy(&e.frame_rate);
        } else if same(&e.codec_type, "audio") {
            has_audio = true;
            assert(is_type(s[i as int], "audio"@));
        }
        i = i + 1;
    }
    ProbeInfo { path: path.to_string(), width, height, duration, has_audio, video_fps: fps }
}

pub open spec fn text_of(v: Option<Json>) -> Option<Seq<char>> {
    match v {
        Some(Json::Text(s)) => Some(s),
        _ => None,
    }
}

pub open spec fn integer_of(v: Option<Json>) -> Option<u64> {
    match v {
        Some(Json::Number(n)) => n,
        _ => None,
    }
}

/// What is read of a stream's description.
pub open spec fn stream_of(v: Json) -> StreamView {
    StreamView {
        codec_type: text_of(member(v, "codec_type"@)),
        width: integer_of(member(v, "width"@)),
        height: integer_of(member(v, "height"@)),
        frame_rate: text_of(member(v, "avg_frame_rate"@)),
    }
}

/// The streams that a description lists.
pub open spec fn streams_of(v: Json) -> Seq<StreamView> {
    match member(v, "streams"@) {
        Some(Json::List(s)) => s.map_values(|x: Json| stream_of(x)),
        _ => Seq::empty(),
    }
}

/// The duration that a description gives.
pub open spec fn duration_of(v: Json) -> Option<Seq<char>> {
    match member(v, "format"@) {
        Some(f) => text_of(member(f, "duration"@)),
        None => None,
    }
}

fn text_at(v: &Value, key: &str) -> (r: Option<String>)
    ensures
        opt_view(r) == text_of(member(json_of(*v), key@)),
{
    match get(v, key) {
        Some(x) => match as_str(x) {
            Some(s) => Some(s.to_string()),
            None => None,
        },
        None => None,
    }
}

fn integer_at(v: &Value, key: &str) -> (r: Option<u64>)
    ensures
        r == integer_of(member(json_of(*v), key@)),
{
    match get(v, key) {
        Some(x) => as_u64(x),
        None => None,
    }
}

fn stream(v: &Value) -> (r: StreamEntry)
    ensures
        r@ == stream_of(json_of(*v)),
{
    StreamEntry {
        codec_type: text_at(v, "codec_type"),
        width: integer_at(v, "width"),
        height: integer_at(v, "height"),
        frame_rate: text_at(v, "avg_frame_rate"),
    }
}

fn streams(v: &Value) -> (r: Vec<StreamEntry>)
    ensures
        stream_views(r@) == streams_of(json_of(*v)),
{
    let mut out: Vec<StreamEntry> = Vec::new();
    if let Some(list) = get(v, "streams") {
        if let Some(items) = as_array(list) {
            let ghost all = streams_of(json_of(*v));
            let mut i: usize = 0;
            while i < items.len()
                invariant
                    i <= items@.len(),
                    all == all_json(items@).map_values(|x: Json| stream_of(x)),
                    out@.len() == i,
                    forall|k: int| 0 <= k < i ==> (#[trigger] out@[k])@ == all[k],
                decreases items@.len() - i,
            {
                out.push(stream(&items[i]));
                i = i + 1;
            }
            assert(stream_views(out@) =~= all);
            return out;
        }
    }
    assert(stream_views(out@) =~= streams_of(json_of(*v)));
    out
}

/// Why ffprobe's output cannot be used.
#[derive(Debug)]
pub enum ProbeError {
    BadJson(serde_json::Error),
}

/// Reads the JSON that ffprobe printed for a file: dimensions, duration, audio presence,
/// frame rate.
pub fn probe(path: &str, output: &[u8]) -> (r: Result<ProbeInfo, ProbeError>)
    ensures
        match r {
            Ok(info) => parsed(output@) is Some && is_summary(
                info,
                path@,
                streams_of(parsed(output@)->0),
                duration_of(parsed(output@)->0),
            ),
            Err(_) => parsed(output@) is None,
        },
{
    let v = match parse(output) {
        Ok(v) => v,
        Err(e) => {
            return Err(ProbeError::BadJson(e));
        },
    };
    let entries = streams(&v);
    let duration = match get(&v, "format") {
        Some(f) => text_at(f, "duration"),
        None => None,
    };
    Ok(summarise(path, entries.as_slice(), duration))
}

/// The video stream that counts is the last one: it is a video, and none behind it is.
pub proof fn law_last_video(s: Seq<StreamView>, n: int)
    requires
        0 <= n <= s.len(),
    ensures
        match last_video(s, n) {
            Some(v) => exists|i: int|
                0 <= i < n && #[trigger] s[i] == v && v.codec_type == Some("video"@) && forall|j: int|
                    i < j < n ==> (#[trigger] s[j]).codec_type != Some("video"@),
            None => forall|j: int| 0 <= j < n ==> (#[trigger] s[j]).codec_type != Some("video"@),
        },
    decreases n,
{
    if n > 0 {
        law_last_video(s, n - 1);
        if is_type(s[n - 1], "video"@) {
            assert(s[n - 1] == last_video(s, n)->0);
        } else if let Some(v) = last_video(s, n) {
            let i = choose|i: int|
                0 <= i < n - 1 && #[trigger] s[i] == v && v.codec_type == Some("video"@) && forall|
                    j: int,
                |
                    i < j < n - 1 ==> (#[trigger] s[j]).codec_type != Some("video"@);
            assert(s[i] == v);
        }
    }
}

/// A dimension is kept by its low 32 bits, and a missing one counts as zero.
pub proof fn law_dimension(v: u64)
    ensures
        dimension(None) == 0,
        dimension(Some(v)) == v % 0x1_0000_0000,
{
    assert(v as u32 == v % 0x1_0000_0000) by (bit_vector);
}

/// What a summary says: the size and the frame rate of the last video stream, whether any
/// stream is audio, and the duration.
pub proof fn law_summary(
    r: ProbeInfo,
    path: Seq<char>,
    s: Seq<StreamView>,
    duration: Option<Seq<char>>,
)
    requires
        is_summary(r, path, s, duration),
    ensures
        r.path@ == path,
        opt_view(r.duration) == duration,
        r.has_audio <==> exists|i: int|
            0 <= i < s.len() && (#[trigger] s[i]).codec_type == Some("audio"@),
        last_video(s, s.len() as int) matches Some(v) ==> r.width == dimension(v.width) && r.height
            == dimension(v.height) && opt_view(r.video_fps) == v.frame_rate,
        last_video(s, s.len() as int) is None ==> r.width == 0 && r.height == 0 && r.video_fps is None,
{
    if r.has_audio {
        let i = choose|i: int| 0 <= i < s.len() && is_type(#[trigger] s[i], "audio"@);
        assert(s[i].codec_type == Some("audio"@));
    }
    if exists|i: int| 0 <= i < s.len() && (#[trigger] s[i]).codec_type == Some("audio"@) {
        let i = choose|i: int| 0 <= i < s.len() && (#[trigger] s[i]).codec_type == Some("audio"@);
        assert(is_type(s[i], "audio"@));
    }
}

/// Where the description of a file keeps what is read: each stream in the list `streams`, its
/// kind under `codec_type`, its size under `width` and `height` and its rate under
/// `avg_frame_rate`; the duration under `duration` of `format`.
pub proof fn law_description(
    all: Map<Seq<char>, Json>,
    streams: Seq<Json>,
    one: Map<Seq<char>, Json>,
    format: Map<Seq<char>, Json>,
    i: int,
)
    requires
        all.dom().contains("streams"@),
        all["streams"@] == Json::List(streams),
        0 <= i < streams.len(),
        streams[i] == Json::Object(one),
        all.dom().contains("format"@),
        all["format"@] == Json::Object(format),
    ensures
        ({
            let s = streams_of(Json::Object(all));
            &&& s.len() == streams.len()
            &&& one.dom().contains("codec_type"@) ==> (one["codec_type"@] matches Json::Text(t)
                ==> s[i].codec_type == Some(t))
            &&& !one.dom().contains("codec_type"@) ==> s[i].codec_type is None
            &&& one.dom().contains("width"@) ==> (one["width"@] matches Json::Number(n)
                ==> s[i].width == n)
            &&& one.dom().contains("height"@) ==> (one["height"@] matches Json::Number(n)
                ==> s[i].height == n)
            &&& !one.dom().contains("width"@) ==> s[i].width is None
            &&& !one.dom().contains("height"@) ==> s[i].height is None
            &&& one.dom().contains("avg_frame_rate"@) ==> (one["avg_frame_rate"@] matches Json::Text(
                t,
            ) ==> s[i].frame_rate == Some(t))
        }),
        format.dom().contains("duration"@) ==> (format["duration"@] matches Json::Text(t)
            ==> duration_of(Json::Object(all)) == Some(t)),
        !format.dom().contains("duration"@) ==> duration_of(Json::Object(all)) is None,
{
    let s = streams_of(Json::Object(all));
    assert(s[i] == stream_of(streams[i]));
}

/// What stands for a stream: its own kind, size and rate.
pub proof fn law_stream_values(s: StreamEntry)
    ensures
        s@.width == s.width,
        s@.height == s.height,
        s.codec_type matches Some(t) ==> s@.codec_type == Some(t@),
        s.codec_type is None ==> s@.codec_type is None,
        s.frame_rate matches Some(t) ==> s@.frame_rate == Some(t@),
        s.frame_rate is None ==> s@.frame_rate is None,
{
}

} // verus!
