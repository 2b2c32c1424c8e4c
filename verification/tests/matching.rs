use streamyard_stitcher::geometry::Rect;
use streamyard_stitcher::matching::match_tiles;

fn rect(x: u32, y: u32, w: u32, h: u32) -> Rect {
    Rect { x, y, w, h }
}

fn sim(rows: &[&[f64]]) -> Vec<Vec<u64>> {
    rows.iter()
        .map(|r| r.iter().map(|v| (v * 1e9).round() as u64).collect())
        .collect()
}

fn ids(v: &[&str]) -> Vec<String> {
    v.iter().map(|s| s.to_string()).collect()
}

#[test]
fn confident_and_clear_matches_are_accepted() {
    let tiles = vec![rect(0, 0, 10, 10), rect(20, 0, 10, 10), rect(40, 0, 10, 10)];
    let m = sim(&[&[0.86, 0.9], &[0.65, 0.5], &[0.77, 0.7]]);
    let r = match_tiles(&tiles, &m, &ids(&["a", "b"]), 100, 100, 100, 100);
    // The first is confident, the second clear by a margin, the third neither.
    assert_eq!(r.len(), 2);
    assert_eq!((r[0].participant_id.as_str(), r[0].rect), ("b", tiles[0]));
    assert_eq!((r[1].participant_id.as_str(), r[1].rect), ("a", tiles[1]));
    assert_eq!(r[0].sim, 900_000_000);
}

#[test]
fn thresholds_are_inclusive() {
    let t = vec![rect(0, 0, 10, 10)];
    let one = |row: &[f64]| match_tiles(&t, &sim(&[row]), &ids(&["a", "b"]), 9, 9, 9, 9).len();
    assert_eq!(one(&[0.85, 0.85]), 1);
    assert_eq!(one(&[0.849999, 0.849999]), 0);
    assert_eq!(one(&[0.6, 0.45]), 1);
    assert_eq!(one(&[0.6, 0.450001]), 0);
    assert_eq!(one(&[0.599999, 0.0]), 0);
}

#[test]
fn nobody_is_assigned_twice_or_downgraded() {
    let tiles = vec![rect(0, 0, 10, 10), rect(20, 0, 10, 10)];
    // Both are best for "a"; the weaker one does not fall back to "b".
    let m = sim(&[&[0.90, 0.88], &[0.95, 0.1]]);
    let r = match_tiles(&tiles, &m, &ids(&["a", "b"]), 100, 100, 100, 100);
    assert_eq!(r.len(), 1);
    assert_eq!((r[0].participant_id.as_str(), r[0].rect), ("a", tiles[1]));
}

#[test]
fn boxes_are_scaled_to_the_output() {
    let tiles = vec![rect(1, 3, 2, 0)];
    let m = sim(&[&[1.0]]);
    let r = match_tiles(&tiles, &m, &ids(&["a"]), 4, 8, 6, 4);
    // 1.5 and 1.5 round up, 3.0 stays, and no box is empty.
    assert_eq!(r[0].rect, rect(2, 2, 3, 1));
    assert!(match_tiles(&[], &[], &ids(&["a"]), 0, 0, 6, 4).is_empty());
    assert!(match_tiles(&tiles, &[vec![]], &[], 4, 8, 6, 4).is_empty());
}
