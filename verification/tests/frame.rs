use streamyard_stitcher::frame::{read_ppm, NumberError, PpmError};

#[test]
fn read_ppm_parses_p6() {
    let (w, h) = (4u32, 3u32);
    let mut buf = b"P6\n4 3\n255\n".to_vec();
    for i in 0..(w * h) {
        buf.extend_from_slice(&[i as u8, (i * 2) as u8, (i * 3) as u8]);
    }
    let f = read_ppm(&buf).unwrap();
    assert_eq!((f.width, f.height), (4, 3));
    assert_eq!(f.pixels.len(), 12);
    assert_eq!(f.pixels[0], [0, 0, 0]);
    assert_eq!(f.pixels[11], [11, 22, 33]);
}

#[test]
fn comments_and_white_space_are_skipped() {
    let b = b"# made by hand\n P6 # size follows\n\t1  # one wide\n+2\r\n255\nabcdef and more";
    let f = read_ppm(b).unwrap();
    assert_eq!((f.width, f.height), (1, 2));
    assert_eq!(f.pixels, vec![*b"abc", *b"def"]);
}

#[test]
fn exactly_one_byte_follows_the_maxval() {
    let f = read_ppm(b"P6 1 1 255\n\n  ").unwrap();
    assert_eq!(f.pixels, vec![*b"\n  "]);
}

#[test]
fn bad_frames_are_refused() {
    assert!(matches!(read_ppm(b"P5\n1 1\n255\nabc"), Err(PpmError::BadMagic(m)) if m == b"P5"));
    assert!(matches!(read_ppm(b""), Err(PpmError::BadMagic(m)) if m.is_empty()));
    assert!(matches!(
        read_ppm(b"P6\n"),
        Err(PpmError::BadNumber(NumberError::Empty))
    ));
    assert!(matches!(
        read_ppm(b"P6\n-1 1\n255\nabc"),
        Err(PpmError::BadNumber(NumberError::InvalidDigit))
    ));
    assert!(matches!(
        read_ppm(b"P6\n1 4294967296\n255\nabc"),
        Err(PpmError::BadNumber(NumberError::Overflow))
    ));
    assert!(matches!(
        read_ppm(b"P6\n1 1\n65535\nabcdef"),
        Err(PpmError::UnsupportedMaxval(65535))
    ));
    assert!(matches!(
        read_ppm(b"P6\n1 1\n255\nab"),
        Err(PpmError::Truncated)
    ));
    assert!(matches!(
        read_ppm(b"P6\n4294967295 4294967295\n255\nab"),
        Err(PpmError::Truncated)
    ));
}

#[test]
fn a_frame_without_pixels_is_a_frame() {
    let f = read_ppm(b"P6 0 7 255 ").unwrap();
    assert_eq!((f.width, f.height, f.pixels.len()), (0, 7, 0));
}
