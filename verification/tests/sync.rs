use streamyard_stitcher::model::SyncReport;
use streamyard_stitcher::sync::{
    align, best_offset_at, ncc, to_sync_row, window_energy, Alignment, Correlation, Drift,
    ANALYSIS_SR,
};

const NONE: Correlation = Correlation { cross: 0, energy_a: 1, energy_b: 1 };

fn value(c: &Correlation) -> f64 {
    c.cross as f64 / ((c.energy_a as f64).sqrt() * (c.energy_b as f64).sqrt())
}

/// Noise from a linear congruential generator.
fn noise(n: usize, seed: u32) -> Vec<i16> {
    let mut s = seed;
    (0..n)
        .map(|_| {
            s = s.wrapping_mul(1_664_525).wrapping_add(1_013_904_223);
            ((s >> 16) as i16) / 4
        })
        .collect()
}

#[test]
fn correlation_of_small_windows() {
    let a = [1000i16, 3000, 2000];
    let b = [2000i16, 6000, 4000];
    let c = ncc(&a, 0, &b, 0, 3);
    assert!((value(&c) - 1.0).abs() < 1e-12);
    let d = [3000i16, 1000, 2000];
    assert!((value(&ncc(&a, 0, &d, 0, 3)) + 1.0).abs() < 1e-12);
    let e = [1000i16, 2000, 3000];
    assert!((value(&ncc(&a, 0, &e, 0, 3)) - 0.5).abs() < 1e-12);
    assert_eq!(ncc(&a, 1, &b, 0, 3), NONE);
    assert_eq!(ncc(&a, 0, &b, 0, 0), NONE);
    assert_eq!(ncc(&[5, 5, 5], 0, &b, 0, 3), NONE);
}

#[test]
fn equal_windows_correlate_fully() {
    let a = noise(1000, 7);
    let mut b = vec![0i16; 300];
    b.extend_from_slice(&a);
    let c = ncc(&a, 100, &b, 400, 800);
    assert!(c.cross > 0);
    assert_eq!((c.cross * c.cross) as u128, c.energy_a * c.energy_b);
}

#[test]
fn energy_of_a_window() {
    let a = [3i16, -4, 100];
    assert_eq!(window_energy(&a, 0, 2), 25);
    assert_eq!(window_energy(&a, 2, 2), 0);
}

#[test]
fn search_finds_the_window() {
    let local = noise(2 * ANALYSIS_SR, 3);
    let mut cloud = noise(5 * ANALYSIS_SR, 11);
    // Half a second steps, then ten milliseconds: 16_000 + 800 is on the fine grid.
    let at = 16_800usize;
    cloud[at..at + local.len()].copy_from_slice(&local);
    let (t, c) = best_offset_at(&cloud, &local, 0, local.len(), 16_800, 40_000);
    assert_eq!(t, 16_800);
    assert!((value(&c) - 1.0).abs() < 1e-9);
    assert_eq!(
        best_offset_at(&cloud, &local, 0, local.len(), 90_000, 10).0,
        90_000
    );
}

#[test]
fn short_tracks_are_not_aligned() {
    let t = noise(ANALYSIS_SR, 1);
    let r = align(&t, &t[1..], Some(5_000_000_000));
    assert_eq!(
        r,
        Alignment {
            offset_ns: 5_000_000_000,
            drift: Drift { num: 0, den: 1 },
            confidence: NONE,
        }
    );
    assert_eq!(align(&t[1..], &t, None).offset_ns, 0);
}

#[test]
fn track_is_found_in_the_cloud() {
    let local = noise(3 * ANALYSIS_SR, 5);
    let mut cloud = vec![0i16; 24_000];
    cloud.extend_from_slice(&local);
    cloud.extend(vec![0i16; 8_000]);
    // 1.5 s in, without a hint: the correlation decides.
    let r = align(&cloud, &local, None);
    assert_eq!(r.offset_ns, 1_500_000_000);
    assert!((value(&r.confidence) - 1.0).abs() < 1e-9);
    assert_eq!(r.drift, Drift { num: 0, den: 1 });
    // A hint confines the search, and what is found there refines it.
    let r = align(&cloud, &local, Some(1_400_000_000));
    assert_eq!(r.offset_ns, 1_500_000_000);
    assert!((value(&r.confidence) - 1.0).abs() < 1e-9);
}

#[test]
fn hint_is_refined_by_what_is_found() {
    let mut local = vec![0i16; 32_000];
    local[100] = i16::MAX;
    let mut cloud = vec![0i16; 160_000];
    cloud[48_100] = i16::MAX;
    let r = align(&cloud, &local, Some(2_000_000_000));
    assert_eq!(r.offset_ns, 3_000_000_000);
    assert!((value(&r.confidence) - 1.0).abs() < 1e-9);
    assert_eq!(r, align(&cloud, &local, None));
}

#[test]
fn hint_confines_the_search_to_five_seconds() {
    let local = noise(2 * ANALYSIS_SR, 21);
    let mut cloud = vec![0i16; 20 * ANALYSIS_SR];
    // Once at 3 s and once, fainter, at 14 s.
    cloud[48_000..80_000].copy_from_slice(&local);
    for (i, x) in local.iter().enumerate() {
        cloud[224_000 + i] = x / 2 + (i % 7) as i16 * 300;
    }
    assert_eq!(align(&cloud, &local, None).offset_ns, 3_000_000_000);
    assert_eq!(align(&cloud, &local, Some(12_000_000_000)).offset_ns, 14_000_000_000);
    // Nothing correlates around these hints, so they stand.
    for hint in [-60_000_000_000, 60_000_000_000, i64::MAX, i64::MIN] {
        let r = align(&cloud, &local, Some(hint));
        assert_eq!(r.offset_ns, hint);
        assert_eq!(r.confidence, NONE);
    }
}

#[test]
fn hint_stands_where_the_track_is_silent() {
    let local = vec![0i16; 2 * ANALYSIS_SR];
    let cloud = noise(20 * ANALYSIS_SR, 13);
    let r = align(&cloud, &local, Some(10_000_000_000));
    assert_eq!(r.offset_ns, 10_000_000_000);
    assert_eq!(r.confidence, NONE);
    // The drift is measured from where the hint puts the track's start.
    let local = vec![0i16; 41 * ANALYSIS_SR];
    let cloud = noise(60 * ANALYSIS_SR, 17);
    let r = align(&cloud, &local, Some(10_000_000_000));
    assert_eq!(r.offset_ns, 10_000_000_000);
    assert_eq!(r.drift, Drift { num: 80_000, den: 624_000 });
}

#[test]
fn negative_peak_gives_no_confidence() {
    let local = noise(2 * ANALYSIS_SR, 33);
    let cloud: Vec<i16> = local.iter().map(|x| -x).collect();
    let c = ncc(&local, 0, &cloud, 0, local.len());
    assert!((value(&c) + 1.0).abs() < 1e-12);
    let r = align(&cloud, &local, None);
    assert_eq!(r.offset_ns, 0);
    assert_eq!(r.confidence, NONE);
    assert_eq!(align(&cloud, &local, Some(7)).offset_ns, 7);
}

#[test]
fn correlation_is_symmetric_and_turns_with_the_sign() {
    let (a, b) = (noise(3_000, 1), noise(3_000, 2));
    let c = ncc(&a, 10, &b, 700, 2_000);
    assert_ne!(c.cross, 0);
    let back = ncc(&b, 700, &a, 10, 2_000);
    assert_eq!(
        (back.cross, back.energy_a, back.energy_b),
        (c.cross, c.energy_b, c.energy_a)
    );
    let turned: Vec<i16> = b.iter().map(|x| -x).collect();
    let d = ncc(&a, 10, &turned, 700, 2_000);
    assert_eq!(d, Correlation { cross: -c.cross, ..c });
}

#[test]
fn long_windows_are_exact() {
    // Their energy does not fit in 128 bits.
    let n = 200_000usize;
    let a: Vec<i16> = (0..n)
        .map(|i| if i % 2 == 0 { i16::MIN } else { i16::MAX })
        .collect();
    let c = ncc(&a, 0, &a, 0, n);
    // Half the range, squared, for each pair of samples.
    let energy = (n as u128) * (n as u128) * 65_535 * 65_535 / 4;
    assert_eq!((c.energy_a, c.energy_b), (energy, energy));
    assert_eq!(c.cross as u128, energy);
    // The search compares such windows exactly too.
    let mut cloud = vec![0i16; 8_000];
    cloud.extend_from_slice(&a);
    assert_eq!(best_offset_at(&cloud, &a, 0, n, 0, 8_000).0, 8_000);
}

#[test]
fn search_stays_in_its_range() {
    let local = [0i16, i16::MAX, 0];
    let mut cloud = vec![0i16; 20_000];
    cloud[321] = i16::MAX;
    cloud[8_161] = i16::MAX;
    cloud[8_162] = i16::MAX / 2;
    assert_eq!(best_offset_at(&cloud, &local, 0, 3, 8_000, 9_000).0, 8_160);
    // Without the lower limit the better place is found.
    assert_eq!(best_offset_at(&cloud, &local, 0, 3, 0, 9_000).0, 320);
}

#[test]
fn silence_is_anchored_at_the_start() {
    let local = vec![0i16; 4 * ANALYSIS_SR];
    let cloud = noise(6 * ANALYSIS_SR, 9);
    let r = align(&cloud, &local, None);
    assert_eq!(r.confidence, NONE);
    // Every place is as good as any other; the last one is taken.
    assert_eq!(r.offset_ns, 4_000_000_000);
}

#[test]
fn row_of_the_report() {
    let a = Alignment {
        offset_ns: 5,
        drift: Drift { num: -1, den: 7 },
        confidence: Correlation { cross: 3, energy_a: 3, energy_b: 6 },
    };
    let r = to_sync_row("id", "name", "webcam", &a);
    assert_eq!((r.id.as_str(), r.name.as_str(), r.source.as_str()), ("id", "name", "webcam"));
    assert_eq!((r.offset_ns, r.drift, r.confidence), (a.offset_ns, a.drift, a.confidence));
    let report = SyncReport {
        cloud: "c".to_string(),
        cloud_duration: 1,
        sample_rate: ANALYSIS_SR as u32,
        participants: vec![r],
    };
    assert_eq!(report.participants.len(), 1);
}
