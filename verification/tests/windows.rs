use streamyard_stitcher::model::{LayoutTimeline, Participant, SpatialSegment};
use streamyard_stitcher::windows::{build_windows, Window};

fn secs(s: f64) -> i64 {
    (s * 1e9).round() as i64
}

fn part(id: &str, off: f64) -> Participant {
    Participant {
        id: id.to_string(),
        name: id.to_string(),
        source: "webcam".to_string(),
        file: format!("/{id}.mp4"),
        duration: secs(9999.0),
        offset_ns: Some(secs(off)),
        drift: None,
        confidence: None,
    }
}

fn tl(segs: Vec<SpatialSegment>) -> LayoutTimeline {
    LayoutTimeline {
        cloud: "c.mp4".to_string(),
        width: 1920,
        height: 1080,
        duration: secs(100.0),
        segments: segs,
    }
}

fn seg(p: &str, st: f64, en: f64, box_: (u32, u32, u32, u32)) -> SpatialSegment {
    SpatialSegment {
        start_time: secs(st),
        end_time: secs(en),
        participant_id: p.to_string(),
        bounding_box: box_,
    }
}

#[test]
fn windows_group_shared_bounds_and_fill_gaps() {
    let ps = vec![part("a", 0.5), part("b", 1.0)];
    let t = tl(vec![
        seg("a", 10.0, 40.0, (0, 0, 960, 1080)),
        seg("b", 10.0, 40.0, (960, 0, 960, 1080)),
        seg("a", 50.0, 80.0, (0, 0, 1920, 1080)),
    ]);
    let w = build_windows(&t, &ps, secs(100.0));
    assert_eq!(w.len(), 5, "{w:?}");
    assert_eq!(
        (w[0].start, w[0].end, w[0].tiles.len()),
        (secs(0.0), secs(10.0), 0),
        "intro pass-through"
    );
    assert_eq!(w[1].tiles.len(), 2, "two tiles share the 10-40 window");
    assert_eq!(
        (w[2].start, w[2].end, w[2].tiles.len()),
        (secs(40.0), secs(50.0), 0),
        "gap pass-through"
    );
    assert_eq!(w[3].tiles.len(), 1);
    assert_eq!(
        (w[4].start, w[4].end, w[4].tiles.len()),
        (secs(80.0), secs(100.0), 0),
        "tail pass-through"
    );
}

#[test]
fn windows_clip_to_end_and_skip_invalid() {
    let ps = vec![part("a", 0.5)];
    let t = tl(vec![
        seg("a", 90.0, 200.0, (0, 0, 1920, 1080)), // runs past the clip
        seg("zz", 10.0, 20.0, (0, 0, 100, 100)),   // unknown participant
        seg("a", 30.0, 40.0, (0, 0, 0, 100)),      // zero-width box
    ]);
    let w = build_windows(&t, &ps, secs(100.0));
    assert_eq!(w.len(), 2, "{w:?}");
    assert_eq!(
        (w[1].start, w[1].end, w[1].tiles.len()),
        (secs(90.0), secs(100.0), 1),
        "clipped to end"
    );
}

fn bounds(w: &[Window]) -> Vec<(i64, i64, usize)> {
    w.iter().map(|x| (x.start, x.end, x.tiles.len())).collect()
}

#[test]
fn windows_cover_from_zero_to_the_end() {
    let ps = vec![part("a", 0.0), part("b", 0.0)];
    // Out of order, and the second overlaps the first.
    let t = tl(vec![
        seg("b", 30.0, 60.0, (0, 0, 8, 8)),
        seg("a", 5.0, 40.0, (0, 0, 4, 4)),
    ]);
    let w = build_windows(&t, &ps, secs(70.0));
    assert_eq!(
        bounds(&w),
        vec![
            (0, secs(5.0), 0),
            (secs(5.0), secs(30.0), 1),
            (secs(30.0), secs(40.0), 2),
            (secs(40.0), secs(60.0), 1),
            (secs(60.0), secs(70.0), 0),
        ]
    );
    assert_eq!(w[1].tiles, vec![(0, (0, 0, 4, 4))]);
    assert_eq!(w[2].tiles, vec![(0, (0, 0, 4, 4)), (1, (0, 0, 8, 8))]);
    assert_eq!(w[3].tiles, vec![(1, (0, 0, 8, 8))]);
}

#[test]
fn overlapping_segments_are_both_on_screen() {
    let ps = vec![part("a", 0.0), part("b", 0.0)];
    let (box_a, box_b) = ((0, 0, 960, 1080), (960, 0, 960, 1080));
    let t = tl(vec![seg("a", 0.0, 10.0, box_a), seg("b", 5.0, 15.0, box_b)]);
    let w = build_windows(&t, &ps, secs(15.0));
    assert_eq!(
        bounds(&w),
        vec![
            (0, secs(5.0), 1),
            (secs(5.0), secs(10.0), 2),
            (secs(10.0), secs(15.0), 1),
        ]
    );
    assert_eq!(w[0].tiles, vec![(0, box_a)]);
    assert_eq!(w[1].tiles, vec![(0, box_a), (1, box_b)]);
    assert_eq!(w[2].tiles, vec![(1, box_b)]);
}

#[test]
fn windows_are_maximal() {
    let ps = vec![part("a", 0.0)];
    let t = tl(vec![
        seg("a", 0.0, 10.0, (0, 0, 8, 8)),
        seg("a", 10.0, 20.0, (0, 0, 8, 8)), // goes on as it was
        seg("a", 20.0, 30.0, (0, 0, 4, 4)),
        seg("zz", 25.0, 28.0, (0, 0, 4, 4)), // unknown: changes nothing
    ]);
    let w = build_windows(&t, &ps, secs(30.0));
    assert_eq!(bounds(&w), vec![(0, secs(20.0), 1), (secs(20.0), secs(30.0), 1)]);
}

#[test]
fn a_shorter_output_is_a_longer_one_cut_off() {
    let ps = vec![part("a", 0.0), part("b", 0.0)];
    let t = tl(vec![
        seg("a", -5.0, 10.0, (0, 0, 8, 8)),
        seg("b", 5.0, 15.0, (8, 0, 8, 8)),
    ]);
    let long = build_windows(&t, &ps, secs(20.0));
    assert_eq!(
        bounds(&long),
        vec![
            (0, secs(5.0), 1),
            (secs(5.0), secs(10.0), 2),
            (secs(10.0), secs(15.0), 1),
            (secs(15.0), secs(20.0), 0),
        ]
    );
    let short = build_windows(&t, &ps, secs(7.0));
    assert_eq!(bounds(&short), vec![(0, secs(5.0), 1), (secs(5.0), secs(7.0), 2)]);
    assert_eq!(short[1].tiles, long[1].tiles);
    // Half a microsecond of the last gap is left, and gets no window.
    let short = build_windows(&t, &ps, secs(15.0) + 500);
    assert_eq!(bounds(&short), bounds(&long)[..3].to_vec());
}

#[test]
fn near_segments_begin_and_end_together() {
    let ps = vec![part("a", 0.0), part("b", 0.0)];
    let mut late = seg("b", 0.0, 10.0, (8, 0, 8, 8));
    late.start_time += 999;
    late.end_time -= 999;
    let t = tl(vec![seg("a", 0.0, 10.0, (0, 0, 8, 8)), late.clone()]);
    let w = build_windows(&t, &ps, secs(10.0));
    assert_eq!(bounds(&w), vec![(0, secs(10.0), 2)]);
    late.start_time += 1;
    late.end_time -= 1;
    let t = tl(vec![seg("a", 0.0, 10.0, (0, 0, 8, 8)), late]);
    let w = build_windows(&t, &ps, secs(10.0));
    assert_eq!(
        bounds(&w),
        vec![
            (0, 1000, 1),
            (1000, secs(10.0) - 1000, 2),
            (secs(10.0) - 1000, secs(10.0), 1),
        ]
    );
}

#[test]
fn no_segment_is_lost_at_the_edges() {
    let ps = vec![part("a", 0.0)];
    let box_a = (0, 0, 8, 8);
    // Half a microsecond of it lies in the output.
    let mut late = seg("a", 100.0, 200.0, box_a);
    late.start_time -= 500;
    let w = build_windows(&tl(vec![late]), &ps, secs(100.0));
    assert_eq!(
        bounds(&w),
        vec![(0, secs(100.0) - 500, 0), (secs(100.0) - 500, secs(100.0), 1)]
    );
    assert_eq!(w[1].tiles, vec![(0, box_a)]);
    let mut early = seg("a", -5.0, 0.0, box_a);
    early.end_time += 500;
    let w = build_windows(&tl(vec![early]), &ps, secs(100.0));
    assert_eq!(bounds(&w), vec![(0, 500, 1), (500, secs(100.0), 0)]);
    // So does a microsecond of output.
    let w = build_windows(&tl(vec![seg("a", 0.0, 1.0, box_a)]), &ps, 1000);
    assert_eq!(bounds(&w), vec![(0, 1000, 1)]);
    // One that lies outside, or is empty, is not there.
    let t = tl(vec![
        seg("a", -5.0, 0.0, box_a),
        seg("a", 100.0, 200.0, box_a),
        seg("a", 50.0, 50.0, box_a),
        seg("a", 60.0, 40.0, box_a),
    ]);
    assert_eq!(bounds(&build_windows(&t, &ps, secs(100.0))), vec![(0, secs(100.0), 0)]);
}

#[test]
fn gaps_of_a_microsecond_get_no_window() {
    let ps = vec![part("a", 0.0)];
    let gap = |ns: i64| {
        let mut first = seg("a", 0.0, 10.0, (0, 0, 8, 8));
        let mut second = seg("a", 10.0, 20.0, (0, 0, 4, 4));
        first.start_time += ns;
        second.start_time += ns;
        second.end_time -= ns;
        bounds(&build_windows(&tl(vec![first, second]), &ps, secs(20.0)))
    };
    assert_eq!(
        gap(1000),
        vec![(1000, secs(10.0), 1), (secs(10.0) + 1000, secs(20.0) - 1000, 1)]
    );
    assert_eq!(
        gap(1001),
        vec![
            (0, 1001, 0),
            (1001, secs(10.0), 1),
            (secs(10.0), secs(10.0) + 1001, 0),
            (secs(10.0) + 1001, secs(20.0) - 1001, 1),
            (secs(20.0) - 1001, secs(20.0), 0),
        ]
    );
}

#[test]
fn no_segments_pass_the_cloud_through() {
    let w = build_windows(&tl(vec![]), &[], secs(3.0));
    assert_eq!(w.len(), 1);
    assert_eq!((w[0].start, w[0].end, w[0].tiles.len()), (0, secs(3.0), 0));
    assert!(build_windows(&tl(vec![]), &[], 1000).is_empty());
}
