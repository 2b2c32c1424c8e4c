use streamyard_stitcher::clock::{fmt_t, to_ms};
use streamyard_stitcher::media::{keep_tail, probe_args, progress, read_pcm, sample_ppm, to_raw_pcm};
use streamyard_stitcher::sampling::{sample_times, signature_times};

fn secs(s: f64) -> i64 {
    (s * 1e9).round() as i64
}

#[test]
fn pcm_is_read_back() {
    let samples = [0i16, 1, -1, i16::MAX, i16::MIN, 256, -257];
    let mut b: Vec<u8> = samples.iter().flat_map(|s| s.to_le_bytes()).collect();
    assert_eq!(read_pcm(&b), samples);
    b.push(9);
    assert_eq!(read_pcm(&b), samples);
    assert!(read_pcm(&[1]).is_empty());
}

#[test]
fn arguments_of_ffmpeg_and_ffprobe() {
    assert_eq!(
        to_raw_pcm("in.mp4", "out.raw", 16_000).join(" "),
        "-y -v error -i in.mp4 -vn -ac 1 -ar 16000 -f s16le out.raw"
    );
    assert_eq!(
        sample_ppm("in.mp4", secs(12.3456), 1280, "f.ppm").join(" "),
        "-y -v error -ss 12.346 -i in.mp4 -frames:v 1 -vf scale=1280:-2 -f image2 -c:v ppm f.ppm"
    );
    assert_eq!(
        probe_args("in.mp4").join(" "),
        "-v error -print_format json -show_format -show_streams in.mp4"
    );
}

#[test]
fn only_the_tail_is_kept() {
    let mut last: Vec<u8> = Vec::new();
    let mut all: Vec<u8> = Vec::new();
    for k in 0..5u8 {
        let piece = vec![k; 4096];
        all.extend_from_slice(&piece);
        last = keep_tail(last, &piece);
    }
    assert_eq!(last, all[all.len() - 8192..]);
    assert_eq!(keep_tail(b"ab".to_vec(), b"cd"), b"abcd");
}

#[test]
fn progress_is_on_the_last_line() {
    let p = |s: &[u8]| progress(s).map(|v| String::from_utf8(v).unwrap());
    assert_eq!(
        p(b"frame=1 time=00:01 x\rframe=2 time=00:02 speed=2x "),
        Some("time=00:02 speed=2x ".to_string())
    );
    assert_eq!(p(b"time=1 time=2"), Some("time=2".to_string()));
    assert_eq!(p(b"frame=1 time=00:01\n"), None);
    assert_eq!(p(b"tim"), None);
    assert_eq!(p(b""), None);
}

#[test]
fn times_are_formatted_to_milliseconds() {
    assert_eq!(fmt_t(0), "0.000");
    assert_eq!(fmt_t(secs(99.5) as i128), "99.500");
    assert_eq!(fmt_t(500_000), "0.000");
    assert_eq!(fmt_t(1_500_000), "0.002");
    assert_eq!(fmt_t(500_001), "0.001");
    assert_eq!(fmt_t(-1_250_000_000), "-1.250");
    assert_eq!(to_ms(secs(2.25)), 2250);
    assert_eq!(to_ms(500_000), 1);
    assert_eq!(to_ms(-500_000), -1);
}

#[test]
fn samples_are_in_the_middle_of_their_parts() {
    assert_eq!(
        sample_times(secs(40.0), Some(4)),
        vec![secs(5.0), secs(15.0), secs(25.0), secs(35.0)]
    );
    // Never less than a second apart, and never in the last half second.
    assert_eq!(
        sample_times(secs(2.0), Some(4)),
        vec![secs(0.5), secs(1.5), secs(1.5), secs(1.5)]
    );
    assert!(sample_times(secs(10.0), Some(0)).is_empty());
    assert_eq!(sample_times(secs(60.0), None).len(), 24);
    assert_eq!(sample_times(secs(3600.0), None).len(), 240);
    assert_eq!(sample_times(secs(36000.0), None).len(), 600);
}

#[test]
fn signatures_avoid_the_ends() {
    assert_eq!(signature_times(secs(1.9)), None);
    assert_eq!(signature_times(secs(2.0)), Some(vec![]));
    assert_eq!(
        signature_times(secs(9.0)),
        Some((2..=7).map(|i| secs(i as f64)).collect())
    );
    assert_eq!(signature_times(secs(90.0)).unwrap().len(), 8);
}
