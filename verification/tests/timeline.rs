use streamyard_stitcher::geometry::Rect;
use streamyard_stitcher::layout::bisect_boundary;
use streamyard_stitcher::matching::TileScore;
use streamyard_stitcher::timeline::build_timeline;

fn secs(s: f64) -> i64 {
    (s * 1e9).round() as i64
}

fn tile(id: &str, x: u32, w: u32, sim: f64) -> TileScore {
    TileScore {
        participant_id: id.to_string(),
        rect: Rect { x, y: 0, w, h: 100 },
        sim: (sim * 1e9).round() as u64,
    }
}

/// A solo of "a" until `change`, then "a" and "b" side by side.
fn show(t: i64, change: i64) -> Vec<TileScore> {
    if t < change {
        vec![tile("a", 0, 200, 0.9)]
    } else {
        vec![tile("a", 0, 100, 0.9), tile("b", 100, 100, 0.9)]
    }
}

#[test]
fn boundary_is_found_by_halving() {
    let change = secs(13.3);
    let canon: Vec<Rect> = show(change, change).iter().map(|t| t.rect).collect();
    let look = |t: i64| show(t, change);
    // 10..20, 10..15, 12.5..15, 12.5..13.75, 13.125..13.75, 13.125..13.4375
    assert_eq!(
        bisect_boundary(&look, secs(10.0), secs(20.0), &canon, false),
        secs(13.28125)
    );
    // A narrow gap is not searched.
    assert_eq!(
        bisect_boundary(&look, secs(13.0), secs(13.2), &canon, false),
        secs(13.1)
    );
    // Six halvings at most: 64 seconds become one.
    let far = secs(40.0);
    let look = |t: i64| show(t, far);
    assert_eq!(
        bisect_boundary(&look, 0, secs(64.0), &canon, false),
        secs(39.5)
    );
    let solo: Vec<Rect> = show(0, far).iter().map(|t| t.rect).collect();
    assert_eq!(
        bisect_boundary(&look, 0, secs(64.0), &solo, true),
        secs(39.5)
    );
}

#[test]
fn runs_become_contiguous_segments() {
    let change = secs(13.3);
    let look = |t: i64| show(t, change);
    // Out of order on purpose.
    let coarse: Vec<(i64, Vec<TileScore>)> = [20.0, 0.1, 5.0, 10.0, 25.0]
        .iter()
        .map(|s| (secs(*s), look(secs(*s))))
        .collect();
    let tl = build_timeline(coarse, &look, "c.mp4", 200, 100, secs(30.0));
    assert_eq!(
        (tl.cloud.as_str(), tl.width, tl.height, tl.duration),
        ("c.mp4", 200, 100, secs(30.0))
    );
    let got: Vec<(i64, i64, &str, (u32, u32, u32, u32))> = tl
        .segments
        .iter()
        .map(|s| {
            (
                s.start_time,
                s.end_time,
                s.participant_id.as_str(),
                s.bounding_box,
            )
        })
        .collect();
    let mid = secs(13.28125);
    assert_eq!(
        got,
        vec![
            (secs(0.05), mid, "a", (0, 0, 200, 100)),
            (mid, secs(30.0), "a", (0, 0, 100, 100)),
            (mid, secs(30.0), "b", (100, 0, 100, 100)),
        ]
    );
}

#[test]
fn blank_and_single_sample_runs_are_dropped() {
    let nothing = |_: i64| Vec::new();
    let coarse = vec![
        (secs(0.0), vec![]),
        (secs(1.0), vec![]),
        (secs(2.0), vec![tile("a", 0, 50, 0.9)]),
        (secs(3.0), vec![tile("a", 100, 50, 0.9)]),
    ];
    let tl = build_timeline(coarse, &nothing, "c", 200, 100, secs(10.0));
    assert!(tl.segments.is_empty());
    assert!(build_timeline(vec![], &nothing, "c", 1, 1, 0)
        .segments
        .is_empty());
}

#[test]
fn identity_is_decided_by_the_whole_run() {
    let nothing = |_: i64| Vec::new();
    let coarse = vec![
        (secs(0.0), vec![tile("b", 0, 100, 0.9)]),
        (secs(0.1), vec![tile("a", 2, 100, 0.6)]),
        (secs(0.2), vec![tile("a", 3, 101, 0.6)]),
        (secs(0.3), vec![tile("", 0, 100, 0.1)]),
    ];
    let tl = build_timeline(coarse, &nothing, "c", 200, 100, secs(10.0));
    assert_eq!(tl.segments.len(), 1);
    let s = &tl.segments[0];
    // 1.2 for "a" against 0.9 for "b"; the box is the mean, 1.25 and 100.25.
    assert_eq!(s.participant_id, "a");
    assert_eq!(s.bounding_box, (1, 0, 100, 100));
    assert_eq!((s.start_time, s.end_time), (0, secs(10.0)));
}

#[test]
fn a_box_of_nobody_gives_no_segment() {
    let nothing = |_: i64| Vec::new();
    let coarse = vec![
        (secs(0.0), vec![tile("", 0, 100, 0.9)]),
        (secs(0.1), vec![tile("", 0, 100, 0.9)]),
    ];
    let tl = build_timeline(coarse, &nothing, "c", 200, 100, secs(10.0));
    assert!(tl.segments.is_empty());
}

#[test]
fn a_run_beyond_the_end_is_left_out() {
    let nothing = |_: i64| Vec::new();
    let coarse = vec![
        (secs(8.0), vec![tile("a", 0, 100, 0.9)]),
        (secs(9.0), vec![tile("a", 0, 100, 0.9)]),
    ];
    // Nothing is seen before the run, so it begins where its first sample is.
    let tl = build_timeline(coarse, &nothing, "c", 200, 100, secs(5.0));
    assert!(tl.segments.is_empty());
}
