use streamyard_stitcher::names::{
    assemble, candidate_name, classify, participant, recognise, slug, slugify, ClassifyError, Kind,
    MediaFile, Source,
};
use streamyard_stitcher::offset::parse_name_offset;

fn secs(s: f64) -> i64 {
    (s * 1e9).round() as i64
}

fn media(stem: &str, ext: &str) -> MediaFile {
    MediaFile {
        file: format!("/in/{stem}.{ext}"),
        stem: stem.to_string(),
        extension: ext.to_string(),
    }
}

#[test]
fn parse_name_offset_reads_streamyard_token() {
    // StreamYard encodes the local start offset in the filename.
    assert_eq!(
        parse_name_offset("x-screen-00h_11m_36s_488ms-StreamYard.mp4"),
        Some(secs(11.0 * 60.0 + 36.0 + 0.488))
    );
    assert_eq!(
        parse_name_offset("x-webcam-00h_00m_00s_433ms-StreamYard.mp4"),
        Some(secs(0.433))
    );
    assert_eq!(parse_name_offset("no-token.mp4"), None);
}

#[test]
fn token_needs_hours_minutes_and_seconds() {
    assert_eq!(parse_name_offset("1h_2m_3s_ms"), Some(secs(3723.0)));
    assert_eq!(parse_name_offset("1h_2m_3s_4"), None);
    assert_eq!(parse_name_offset("h_2m_3s_4ms"), None);
    assert_eq!(parse_name_offset("1h_m_3s_4ms"), None);
    assert_eq!(parse_name_offset("1h_2m_s_4ms"), None);
    assert_eq!(parse_name_offset("1h_x2m_3s_4ms"), None);
    assert_eq!(parse_name_offset("é-1h_2m_3s_4ms"), Some(secs(3723.004)));
}

#[test]
fn first_whole_token_is_read() {
    // Marks that are no part of a token do not matter.
    assert_eq!(
        parse_name_offset("Josh_Smith-webcam-00h_11m_36s_488ms-StreamYard.mp4"),
        Some(secs(11.0 * 60.0 + 36.0 + 0.488))
    );
    assert_eq!(parse_name_offset("with_me-1h_2m_3s_4ms"), Some(secs(3723.004)));
    assert_eq!(
        parse_name_offset("24h_Show___-Dan-webcam-00h_00m_00s_433ms-StreamYard.mp4"),
        Some(secs(0.433))
    );
    assert_eq!(parse_name_offset("1h_2m_3s_4h_5m_6s_7ms"), Some(secs(14706.007)));
    // Of two tokens the first one counts.
    assert_eq!(parse_name_offset("0h_0m_1s_0ms-0h_0m_2s_0ms"), Some(secs(1.0)));
}

#[test]
fn huge_tokens_saturate() {
    assert_eq!(
        parse_name_offset("99999999999999999999999999h_0m_0s_0ms"),
        Some(i64::MAX)
    );
    assert_eq!(parse_name_offset("2562047h_47m_16s_854ms"), Some(9_223_372_036_854_000_000));
    assert_eq!(parse_name_offset("2562047h_47m_16s_855ms"), Some(i64::MAX));
}

#[test]
fn slugs() {
    assert_eq!(slugify("Dan Garfield"), "dan-garfield");
    assert_eq!(slugify("  __Dän & Co. 2!"), "d-n-co-2");
    assert_eq!(slugify("---"), "");
    assert_eq!(slugify("ÀB"), "b");
    assert_eq!(slug("already-a-slug"), "already-a-slug");
    assert_eq!(slug(&slug("a  b")), slug("a  b"));
    for text in ["Dan Garfield", "ÀÉ x\u{130}Y", "\u{212a}elvin", "A__B--C"] {
        let once = slugify(text);
        assert_eq!(slugify(&once), once);
        assert!(once.chars().all(|c| c.is_ascii_lowercase() || c.is_ascii_digit() || c == '-'));
    }
    assert_eq!(slugify("A__B--C"), "a-b-c");
    assert_eq!(slugify("\u{212a}elvin"), "kelvin");
}

#[test]
fn recordings_are_recognised() {
    assert!(matches!(recognise("txt", "dan-webcam"), Kind::Other));
    assert!(matches!(recognise("mp4", "my show"), Kind::Cloud));
    assert!(
        matches!(recognise("mov", "show___- dan_g -webcam-00h"), Kind::Local(Source::Webcam, n) if n == "dan_g")
    );
    assert!(
        matches!(recognise("mkv", "a___-b___-c-screen-x-webcam"), Kind::Local(Source::Webcam, n) if n == "c-screen-x")
    );
    assert!(
        matches!(recognise("webm", "guest-screen"), Kind::Local(Source::Screen, n) if n == "guest")
    );
    // The token in any case; the name as it is written.
    assert!(
        matches!(recognise("mp4", "Show___-Éva_B-WebCam-00h"), Kind::Local(Source::Webcam, n) if n == "Éva_B")
    );
}

#[test]
fn directory_is_classified() {
    let files = vec![
        media("notes", "txt"),
        media("My_Show", "MP4"),
        media("My_Show___-Dan_Garfield-webcam-00h_00m_00s_433ms-StreamYard", "mp4"),
        media("Another", "mkv"),
        media("My_Show___-Dan_Garfield-SCREEN-00h_11m_36s_488ms-StreamYard", "WebM"),
    ];
    let (cloud, locals) = classify(&files).unwrap();
    assert_eq!(cloud, "/in/My_Show.MP4");
    assert_eq!(locals.len(), 2);
    assert_eq!(locals[0].id, "dan-garfield-webcam");
    assert_eq!(locals[0].name, "Dan Garfield");
    assert_eq!(locals[0].source, "webcam");
    assert_eq!(locals[0].file, files[2].file);
    assert_eq!(locals[0].duration, 0);
    assert!(locals[0].offset_ns.is_none() && locals[0].drift.is_none());
    assert!(locals[0].confidence.is_none());
    assert_eq!(locals[1].id, "dan-garfield-screen");
    assert_eq!(locals[1].name, "Dan Garfield");
    assert_eq!(locals[1].source, "screen");
}

#[test]
fn what_is_missing_is_reported() {
    assert_eq!(classify(&[]).unwrap_err(), ClassifyError::NoLocals);
    assert_eq!(
        classify(&[media("cloud", "mp4")]).unwrap_err(),
        ClassifyError::NoLocals
    );
    assert_eq!(
        classify(&[media("a-webcam", "mp4")]).unwrap_err(),
        ClassifyError::NoCloud
    );
    let mut nameless = media("cloud", "mp4");
    nameless.file = String::new();
    assert_eq!(
        classify(&[media("a-webcam", "mp4"), nameless]).unwrap_err(),
        ClassifyError::EmptyCloudFile
    );
    let p = participant("/f", Source::Screen, "x_y", "x-y");
    assert_eq!((p.id.as_str(), p.name.as_str()), ("x-y-screen", "x y"));
    assert!(assemble(Some("/c".to_string()), vec![p]).is_ok());
    assert!(ClassifyError::NoLocals.message().contains("-webcam or -screen"));
    assert!(ClassifyError::NoCloud.message().contains("without a -webcam/-screen"));
    assert_eq!(
        ClassifyError::EmptyCloudFile.message(),
        "no cloud master file found"
    );
}

#[test]
fn candidate_names_differ() {
    assert_eq!(candidate_name("master", "mp4", 0), "master.mp4");
    assert_eq!(candidate_name("master", "mp4", 1), "master-1.mp4");
    assert_eq!(candidate_name("master", "mp4", 12), "master-12.mp4");
}
