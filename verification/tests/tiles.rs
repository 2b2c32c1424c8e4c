use streamyard_stitcher::appearance::{best_reference, content_score, Score};
use streamyard_stitcher::colour::content;
use streamyard_stitcher::frame::PpmFrame;
use streamyard_stitcher::geometry::Rect;
use streamyard_stitcher::tiles::{detect_tiles, participant_tiles};

const GREY: [u8; 3] = [100, 100, 100];
const BLUE: [u8; 3] = [10, 60, 200];

fn rect(x: u32, y: u32, w: u32, h: u32) -> Rect {
    Rect { x, y, w, h }
}

fn frame(w: u32, h: u32, boxes: &[(Rect, [u8; 3])]) -> PpmFrame {
    let mut pixels = vec![[0u8; 3]; (w * h) as usize];
    for (r, c) in boxes {
        for y in r.y..r.y + r.h {
            for x in r.x..r.x + r.w {
                pixels[(y * w + x) as usize] = *c;
            }
        }
    }
    PpmFrame {
        width: w,
        height: h,
        pixels,
    }
}

#[test]
fn tiles_are_the_bright_regions_largest_first() {
    let f = frame(
        160,
        90,
        &[(rect(2, 2, 40, 30), GREY), (rect(60, 5, 90, 60), GREY)],
    );
    assert_eq!(
        detect_tiles(&f, 4),
        vec![rect(60, 5, 90, 60), rect(2, 2, 40, 30)]
    );
    assert_eq!(detect_tiles(&f, 1), vec![rect(60, 5, 90, 60)]);
    assert!(detect_tiles(&f, 0).is_empty());
    let white = frame(10, 10, &[(rect(0, 0, 10, 10), [255; 3])]);
    assert!(detect_tiles(&white, 0).is_empty());
    assert_eq!(detect_tiles(&white, 1), vec![rect(0, 0, 10, 10)]);
    assert_eq!(participant_tiles(&f, 0).len(), 1);
    assert_eq!(participant_tiles(&f, 2).len(), 2);
}

#[test]
fn overlays_and_dust_are_no_tiles() {
    let f = frame(
        160,
        90,
        &[
            (rect(0, 0, 60, 45), GREY),
            (rect(60, 0, 60, 45), BLUE),   // flush against the tile
            (rect(10, 60, 120, 10), GREY), // a name bar
            (rect(150, 80, 8, 8), GREY),   // a corner graphic
        ],
    );
    assert_eq!(detect_tiles(&f, 4), vec![rect(0, 0, 60, 45)]);
}

#[test]
fn clutter_inside_a_larger_box_is_dropped() {
    // A frame of content around a dark moat with content in the middle of it.
    let f = frame(
        100,
        100,
        &[
            (rect(0, 0, 100, 100), GREY),
            (rect(20, 20, 60, 60), [0, 0, 0]),
            (rect(30, 30, 40, 40), GREY),
        ],
    );
    assert_eq!(detect_tiles(&f, 4), vec![rect(0, 0, 100, 100)]);
}

#[test]
fn limits_of_plausible_boxes() {
    // 2:5 and 13:5 are out; so is less than 1.5% of the frame.
    let f = frame(200, 100, &[(rect(0, 0, 20, 50), GREY)]);
    assert!(detect_tiles(&f, 4).is_empty());
    let f = frame(200, 100, &[(rect(0, 0, 21, 50), GREY)]);
    assert_eq!(detect_tiles(&f, 4).len(), 1);
    let f = frame(200, 100, &[(rect(0, 0, 130, 50), GREY)]);
    assert!(detect_tiles(&f, 4).is_empty());
    let f = frame(200, 100, &[(rect(0, 0, 20, 15), GREY)]);
    assert_eq!(detect_tiles(&f, 4).len(), 1);
    let f = frame(200, 100, &[(rect(0, 0, 20, 14), GREY)]);
    assert!(detect_tiles(&f, 4).is_empty());
}

#[test]
fn brightness_floor() {
    assert!(!content(&[20, 20, 20]));
    assert!(content(&[21, 20, 20]));
    // Exactly on the floor.
    assert!(!content(&[5, 29, 13]));
    assert!(!content(&BLUE));
    assert!(!content(&[0, 0, 0]));
}

#[test]
fn content_is_the_variance_of_brightness() {
    // Brightness 0 and 255: a variance of 127.5 squared.
    let f = PpmFrame {
        width: 2,
        height: 1,
        pixels: vec![[0, 0, 0], [255, 255, 255]],
    };
    let s = content_score(&f);
    assert_eq!(
        s,
        Score {
            num: 255_000 * 255_000,
            den: 4
        }
    );
    assert_eq!(s.num as f64 / s.den as f64 / 1e6, 127.5 * 127.5);
    let blank = content_score(&frame(3, 3, &[]));
    assert_eq!(blank.num, 0);
    assert!(blank.blank() && !s.blank());
    assert!(s.above(&blank) && !blank.above(&s) && !s.above(&s));
    let none = PpmFrame {
        width: 0,
        height: 0,
        pixels: vec![],
    };
    assert_eq!(content_score(&none), Score { num: 0, den: 1 });
    assert_eq!(best_reference(&[blank, s, s]), Some(1));
    assert_eq!(best_reference(&[]), None);
}
