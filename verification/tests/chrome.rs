use streamyard_stitcher::chrome::{measure_band, measure_mascot, Band, Disc};
use streamyard_stitcher::frame::PpmFrame;
use streamyard_stitcher::mask::{find_best, make_overlay_mask, mask_times};

const BLUE: [u8; 3] = [10, 60, 200];
const WHITE: [u8; 3] = [250, 250, 250];

fn frame(w: u32, h: u32, boxes: &[(u32, u32, u32, u32, [u8; 3])]) -> PpmFrame {
    let mut pixels = vec![[0u8; 3]; (w * h) as usize];
    for (x0, y0, bw, bh, c) in boxes {
        for y in *y0..y0 + bh {
            for x in *x0..x0 + bw {
                pixels[(y * w + x) as usize] = *c;
            }
        }
    }
    PpmFrame {
        width: w,
        height: h,
        pixels,
    }
}

#[test]
fn band_is_the_wide_blue_bar() {
    // Columns 20..80 of rows 85..95, with white text inside.
    let f = frame(
        100,
        100,
        &[(20, 85, 60, 11, BLUE), (40, 90, 5, 1, WHITE)],
    );
    assert_eq!(
        measure_band(&f),
        Some(Band {
            cx: 49,
            cy: 90,
            half_width: 29,
            radius: 5,
            widest: 60,
        })
    );
}

#[test]
fn no_band_without_a_wide_run() {
    assert_eq!(measure_band(&frame(100, 100, &[(0, 90, 49, 5, BLUE)])), None);
    assert!(measure_band(&frame(100, 100, &[(0, 90, 50, 5, BLUE)])).is_some());
    // Above the lower two fifths nothing counts.
    assert_eq!(measure_band(&frame(100, 100, &[(0, 50, 100, 10, BLUE)])), None);
    assert_eq!(measure_band(&frame(2, 2, &[])), None);
}

#[test]
fn narrower_blue_rows_do_not_swell_the_band() {
    let f = frame(
        100,
        100,
        &[(20, 85, 60, 11, BLUE), (0, 70, 30, 5, BLUE)],
    );
    let plain = frame(100, 100, &[(20, 85, 60, 11, BLUE)]);
    assert_eq!(measure_band(&f), measure_band(&plain));
}

#[test]
fn mascot_is_the_cluster_at_the_corner() {
    let f = frame(400, 200, &[(360, 10, 30, 30, WHITE), (100, 20, 50, 50, WHITE)]);
    assert_eq!(
        measure_mascot(&f),
        Some(Disc {
            cx: 374,
            cy: 24,
            radius: 16,
        })
    );
}

#[test]
fn small_or_warm_blobs_are_no_mascot() {
    assert_eq!(measure_mascot(&frame(400, 200, &[])), None);
    // 299 pixels are too few, 300 are enough.
    assert_eq!(
        measure_mascot(&frame(400, 200, &[(360, 10, 23, 13, WHITE)])),
        None
    );
    assert!(measure_mascot(&frame(400, 200, &[(360, 10, 20, 15, WHITE)])).is_some());
    assert_eq!(
        measure_mascot(&frame(400, 200, &[(360, 10, 30, 30, [250, 240, 235])])),
        None
    );
}

#[test]
fn distance_to_the_nearest_pixel_counts_in_every_direction() {
    // The nearest pixel is in the middle of the cluster's rows: part of the cluster lies
    // to its left and above it.
    let f = frame(
        1000,
        500,
        &[
            (900, 40, 100, 10, WHITE),
            (880, 30, 60, 10, WHITE),
            (725, 0, 5, 200, WHITE), // farther than 150 away
        ],
    );
    let d = measure_mascot(&f).unwrap();
    assert_eq!(
        d,
        Disc {
            cx: (880 + 999) / 2,
            cy: (30 + 49) / 2,
            radius: (999 - 880) / 2 + 2,
        }
    );
}

#[test]
fn mask_is_sampled_from_5_to_95_percent() {
    assert_eq!(mask_times(1000), vec![50, 200, 350, 500, 650, 800, 950]);
}

#[test]
fn mask_is_made_of_the_widest_band() {
    let narrow = frame(400, 200, &[(100, 180, 200, 9, BLUE)]);
    let wide = frame(
        400,
        200,
        &[(80, 180, 240, 9, BLUE), (360, 10, 30, 30, WHITE)],
    );
    let none = frame(400, 200, &[]);
    let times = [1_000_000_000, 2_500_000_000, 3_000_000_000];
    let frames = [narrow, wide, none.clone()];
    let (best, band) = find_best(&frames).unwrap();
    assert_eq!(best, 1);
    assert_eq!(Some(band), measure_band(&frames[1]));
    let args = make_overlay_mask("c.mp4", &times, &frames, "m.png").unwrap();
    let filter = "format=rgba,geq=r='r(X,Y)':g='g(X,Y)':b='b(X,Y)':a='if(gt(\
lt(abs(X-199),115)*lt(abs(Y-184),4)\
+lt((abs(X-199)-115)*(abs(X-199)-115)+(Y-184)*(Y-184),4*4)\
+lt((X-374)*(X-374)+(Y-24)*(Y-24),16*16),0),255,0)'";
    assert_eq!(
        args,
        [
            "-y",
            "-v",
            "error",
            "-ss",
            "2.500",
            "-i",
            "c.mp4",
            "-vf",
            filter,
            "-frames:v",
            "1",
            "-f",
            "image2",
            "-c:v",
            "png",
            "m.png",
        ]
    );
    assert!(make_overlay_mask("c.mp4", &[0], &[none], "m.png").is_none());
    assert!(make_overlay_mask("c.mp4", &[], &[], "m.png").is_none());
    assert!(find_best(&[]).is_none());
}
