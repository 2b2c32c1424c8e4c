use streamyard_stitcher::probe::{probe, summarise, ProbeError, StreamEntry};

fn entry(t: &str, w: Option<u64>, h: Option<u64>, r: Option<&str>) -> StreamEntry {
    StreamEntry {
        codec_type: Some(t.to_string()),
        width: w,
        height: h,
        frame_rate: r.map(|s| s.to_string()),
    }
}

#[test]
fn ffprobe_output_is_read() {
    let json = br#"{
        "streams": [
            {"codec_type": "video", "width": 640, "height": 360, "avg_frame_rate": "25/1"},
            {"codec_type": "audio", "sample_rate": "48000"},
            {"codec_type": "video", "width": 1920, "height": 1080, "avg_frame_rate": "30000/1001"}
        ],
        "format": {"duration": "3946.220000"}
    }"#;
    let p = probe("a.mp4", json).unwrap();
    assert_eq!((p.path.as_str(), p.width, p.height), ("a.mp4", 1920, 1080));
    assert!(p.has_audio);
    assert_eq!(p.video_fps.as_deref(), Some("30000/1001"));
    assert_eq!(p.duration.as_deref(), Some("3946.220000"));
}

#[test]
fn missing_and_odd_fields_count_as_absent() {
    let p = probe("a", b"{}").unwrap();
    assert_eq!((p.width, p.height, p.has_audio), (0, 0, false));
    assert!(p.duration.is_none() && p.video_fps.is_none());
    assert!(probe("a", b"[1, 2]").unwrap().duration.is_none());
    let p = probe(
        "a",
        br#"{"streams": [{"codec_type": "video", "width": -3, "height": 7.5, "avg_frame_rate": 5},
            {"codec_type": 4}, 9], "format": {"duration": 12.5}}"#,
    )
    .unwrap();
    assert_eq!((p.width, p.height, p.has_audio), (0, 0, false));
    assert!(p.duration.is_none() && p.video_fps.is_none());
    assert!(probe("a", br#"{"streams": {"codec_type": "audio"}}"#).is_ok_and(|p| !p.has_audio));
}

#[test]
fn what_is_not_json_is_refused() {
    assert!(matches!(probe("a", b""), Err(ProbeError::BadJson(_))));
    assert!(matches!(probe("a", b"{} x"), Err(ProbeError::BadJson(_))));
    assert!(matches!(
        probe("a", b"{\"a\": }"),
        Err(ProbeError::BadJson(_))
    ));
}

#[test]
fn last_video_stream_and_any_audio_count() {
    let s = [
        entry("audio", None, None, None),
        entry("video", Some(10), Some(20), Some("25/1")),
        entry("video", Some(0x1_0000_0005), None, None),
        entry("data", Some(7), Some(7), Some("1/1")),
    ];
    let p = summarise("x", &s, Some("1.0".to_string()));
    assert_eq!((p.width, p.height, p.has_audio), (5, 0, true));
    assert!(p.video_fps.is_none());
    assert_eq!(p.duration.as_deref(), Some("1.0"));
}
