use streamyard_stitcher::appearance::{center_rect, signature_rect};
use streamyard_stitcher::components::component_boxes;
use streamyard_stitcher::geometry::{Ratio, Rect};
use streamyard_stitcher::layout::same_layout;

fn rect(x: u32, y: u32, w: u32, h: u32) -> Rect {
    Rect { x, y, w, h }
}

#[test]
fn overlap_ratios_are_exact() {
    let a = rect(0, 0, 10, 10);
    let b = rect(5, 0, 10, 10);
    assert_eq!(a.iou(&b), Ratio { num: 50, den: 150 });
    assert_eq!(b.iou(&a), a.iou(&b));
    assert_eq!(a.covered_by(&b), Ratio { num: 50, den: 100 });
    assert_eq!(a.iou(&rect(10, 0, 5, 5)), Ratio { num: 0, den: 1 });
    assert_eq!(a.iou(&a), Ratio { num: 100, den: 100 });
    let small = rect(2, 2, 2, 2);
    assert_eq!(small.covered_by(&a), Ratio { num: 4, den: 4 });
    assert_eq!(a.covered_by(&small), Ratio { num: 4, den: 100 });
}

#[test]
fn thresholds_are_strict() {
    // Two of three thirds shared: intersection over union is exactly one half.
    let a = rect(0, 0, 3, 1);
    let b = rect(1, 0, 3, 1);
    assert_eq!(a.iou(&b), Ratio { num: 2, den: 4 });
    assert!(!a.is_same_place(&b));
    assert!(a.is_same_place(&a));
    // Exactly seven tenths inside.
    let c = rect(0, 0, 10, 1);
    assert!(!c.is_mostly_inside(&rect(3, 0, 10, 1)));
    assert!(c.is_mostly_inside(&rect(2, 0, 10, 1)));
}

#[test]
fn layouts_are_compared_without_order() {
    let a = vec![rect(0, 0, 10, 10), rect(20, 0, 10, 10)];
    let b = vec![rect(20, 1, 10, 10), rect(1, 0, 10, 10)];
    assert!(same_layout(&a, &b));
    assert!(same_layout(&b, &a));
    assert!(same_layout(&a, &a));
    assert!(!same_layout(&a, &b[..1]));
    assert!(same_layout(&[], &[]));
    assert!(!same_layout(&a, &[]));
    assert!(!same_layout(&a, &[rect(0, 0, 10, 10), rect(0, 0, 10, 10)]));
}

#[test]
fn components_are_boxed_in_order_of_their_first_cell() {
    // .##..
    // .#..#
    // ##..#
    // ...#.
    let rows = [".##..", ".#..#", "##..#", "...#."];
    let mask: Vec<bool> = rows
        .iter()
        .flat_map(|r| r.chars().map(|c| c == '#'))
        .collect();
    assert_eq!(
        component_boxes(&mask, 5, 4),
        vec![rect(0, 0, 3, 3), rect(4, 1, 1, 2), rect(3, 3, 1, 1)]
    );
}

#[test]
fn centres_leave_out_a_tenth() {
    assert_eq!(center_rect(&rect(100, 50, 320, 180)), rect(132, 68, 256, 144));
    assert_eq!(center_rect(&rect(0, 0, 5, 4)), rect(1, 0, 3, 4));
    assert_eq!(center_rect(&rect(7, 7, 0, 1)), rect(7, 7, 1, 1));
    assert_eq!(
        center_rect(&rect(u32::MAX, 0, 100, 100)),
        rect(u32::MAX, 10, 80, 80)
    );
    assert_eq!(signature_rect(1280, 719), rect(128, 71, 1024, 577));
}
