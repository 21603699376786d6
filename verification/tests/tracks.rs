use visiomatch::ieee::{Binary32, Binary64};
use visiomatch::tracker::{CentroidTracker, Detection, TRACK_MAX_MISSED};

fn b32(v: f32) -> Binary32 {
    Binary32 { bits: v.to_bits() }
}

fn b64(v: f64) -> Binary64 {
    Binary64 { bits: v.to_bits() }
}

fn detection(cx: f32, cy: f32, name: &str, confidence: f64, diag: f32) -> Detection {
    Detection {
        cx: b32(cx),
        cy: b32(cy),
        name: name.to_string(),
        confidence: b64(confidence),
        face_diag: b32(diag),
    }
}

fn ids(results: &[(u32, String, Binary64)]) -> Vec<u32> {
    results.iter().map(|r| r.0).collect()
}

#[test]
fn far_detections_start_tracks() {
    let mut tracker = CentroidTracker::new();
    assert!(tracker.tracks().is_empty());
    let results = tracker.update(&[
        detection(0.0, 0.0, "ada", 0.9, 100.0),
        detection(500.0, 0.0, "bob", 0.8, 100.0),
    ]);
    assert_eq!(ids(&results), [1, 2]);
    assert_eq!(results[0].1, "ada");
    assert_eq!(results[1].2, b64(0.8));
    assert_eq!(tracker.tracks().len(), 2);
    assert_eq!(tracker.tracks()[1].centroid, (b32(500.0), b32(0.0)));
}

#[test]
fn a_close_detection_goes_to_its_track() {
    let mut tracker = CentroidTracker::new();
    tracker.update(&[detection(100.0, 100.0, "ada", 0.5, 100.0)]);
    let results = tracker.update(&[detection(130.0, 140.0, "eve", 1.0, 100.0)]);
    assert_eq!(ids(&results), [1]);
    assert_eq!(results[0].1, "eve");
    assert_eq!(results[0].2, b64(0.5 * (1.0 - 0.4) + 1.0 * 0.4));
    assert_eq!(tracker.tracks().len(), 1);
    assert_eq!(tracker.tracks()[0].centroid, (b32(130.0), b32(140.0)));
    assert_eq!(tracker.tracks()[0].missed, 0);
}

#[test]
fn closeness_is_in_proportion_to_the_face() {
    // 0.6 times the diagonal is the limit, and the limit itself is too far.
    let limit = 100.0f32 * 0.6 * 100.0 * 0.6;
    for (dx, dy, diag) in [(59.9f32, 0.0f32, 100.0f32), (60.0, 0.0, 100.0), (36.0, 48.0, 100.0), (36.0, 47.9, 100.0), (60.0, 0.0, 101.0)] {
        let reach = diag * 0.6 * diag * 0.6;
        let close = dx * dx + dy * dy < reach;
        let mut tracker = CentroidTracker::new();
        tracker.update(&[detection(0.0, 0.0, "a", 0.5, diag)]);
        let results = tracker.update(&[detection(dx, dy, "a", 0.5, diag)]);
        assert_eq!(ids(&results), [if close { 1 } else { 2 }], "{dx} {dy} {diag} {limit}");
    }
}

#[test]
fn the_first_close_track_wins() {
    let mut tracker = CentroidTracker::new();
    tracker.update(&[
        detection(0.0, 0.0, "a", 0.5, 100.0),
        detection(70.0, 0.0, "b", 0.5, 100.0),
    ]);
    assert_eq!(tracker.tracks().len(), 2);
    // Close to both, but the older one comes first.
    let results = tracker.update(&[detection(50.0, 0.0, "c", 0.5, 100.0)]);
    assert_eq!(ids(&results), [1]);
}

#[test]
fn two_detections_can_share_a_track() {
    let mut tracker = CentroidTracker::new();
    let results = tracker.update(&[
        detection(0.0, 0.0, "a", 0.5, 100.0),
        detection(10.0, 0.0, "b", 1.0, 100.0),
    ]);
    assert_eq!(ids(&results), [1, 1]);
    assert_eq!(results[0].2, b64(0.5));
    assert_eq!(results[1].2, b64(0.5 * (1.0 - 0.4) + 1.0 * 0.4));
    assert_eq!(tracker.tracks().len(), 1);
}

#[test]
fn tracks_without_detections_are_dropped_in_time() {
    let mut tracker = CentroidTracker::new();
    tracker.update(&[detection(0.0, 0.0, "a", 0.5, 100.0)]);
    for missed in 1..TRACK_MAX_MISSED {
        assert!(tracker.update(&[]).is_empty());
        assert_eq!(tracker.tracks().len(), 1);
        assert_eq!(tracker.tracks()[0].missed, missed);
    }
    tracker.update(&[]);
    assert!(tracker.tracks().is_empty());
    // IDs are not given out again.
    let results = tracker.update(&[detection(0.0, 0.0, "a", 0.5, 100.0)]);
    assert_eq!(ids(&results), [2]);
}

#[test]
fn a_detection_brings_a_track_back() {
    let mut tracker = CentroidTracker::new();
    tracker.update(&[detection(0.0, 0.0, "a", 0.5, 100.0)]);
    for _ in 0..TRACK_MAX_MISSED - 1 {
        tracker.update(&[detection(1000.0, 0.0, "b", 0.5, 100.0)]);
    }
    let results = tracker.update(&[detection(1.0, 1.0, "a", 0.5, 100.0)]);
    assert_eq!(ids(&results), [1]);
    assert_eq!(tracker.tracks()[0].missed, 0);
    assert_eq!(tracker.tracks()[1].missed, 1);
}

#[test]
fn ids_rise_from_the_oldest_track_to_the_youngest() {
    let mut tracker = CentroidTracker::new();
    for frame in 0..30 {
        let shift = frame as f32 * 300.0;
        tracker.update(&[
            detection(shift, 0.0, "a", 0.5, 100.0),
            detection(shift, 5000.0, "b", 0.5, 100.0),
        ]);
        let all: Vec<u32> = tracker.tracks().iter().map(|t| t.id).collect();
        for pair in all.windows(2) {
            assert!(pair[0] < pair[1]);
        }
    }
}

#[test]
fn results_follow_the_detections() {
    let mut tracker = CentroidTracker::new();
    let results = tracker.update(&[
        detection(900.0, 0.0, "z", 0.1, 50.0),
        detection(0.0, 0.0, "y", 0.2, 50.0),
        detection(300.0, 0.0, "x", 0.3, 50.0),
    ]);
    let names: Vec<&str> = results.iter().map(|r| r.1.as_str()).collect();
    assert_eq!(names, ["z", "y", "x"]);
}

#[test]
fn a_detection_without_numbers_is_close_to_nothing() {
    let mut tracker = CentroidTracker::new();
    tracker.update(&[detection(0.0, 0.0, "a", 0.5, 100.0)]);
    let results = tracker.update(&[detection(f32::NAN, 0.0, "a", 0.5, 100.0)]);
    assert_eq!(ids(&results), [2]);
}

#[test]
fn a_detection_shown_again_keeps_its_track() {
    for (cx, cy, diag) in [
        (0.0f32, 0.0f32, 1.0f32),
        (640.5, 360.25, 141.4),
        (-3.0e38, 3.0e38, 1.0),
        (f32::MIN_POSITIVE, -0.0, 1.0e6),
        (1.0, 1.0, f32::INFINITY),
    ] {
        let mut tracker = CentroidTracker::new();
        tracker.update(&[
            detection(100.0, 100.0, "bob", 0.4, 100.0),
            detection(900.0, 100.0, "eve", 0.4, 100.0),
        ]);
        let first = tracker.update(&[detection(cx, cy, "ada", 0.9, diag)]);
        let tracks = tracker.tracks().len();
        for _ in 0..3 {
            let again = tracker.update(&[detection(cx, cy, "ada", 0.9, diag)]);
            assert_eq!(ids(&again), ids(&first), "{cx} {cy} {diag}");
            assert!(tracker.tracks().len() <= tracks);
        }
    }
}

#[test]
fn smoothed_confidences_lie_between_the_old_and_the_observed() {
    for (old, observed) in [
        (0.2f64, 0.9f64),
        (0.9, 0.2),
        (0.7, 0.7),
        (-0.3, 0.3),
        (1.0, -1.0),
        (5.0e-324, 5.0e-324),
        (f64::MAX, f64::MAX),
        (f64::MAX, f64::MIN),
    ] {
        let mut tracker = CentroidTracker::new();
        tracker.update(&[detection(0.0, 0.0, "ada", old, 100.0)]);
        let results = tracker.update(&[detection(0.0, 0.0, "ada", observed, 100.0)]);
        let smoothed = f64::from_bits(results[0].2.bits);
        let slack = (old.abs() / 2.0 + observed.abs() / 2.0) * f64::EPSILON * 2.0 + 1.0e-323;
        assert!(smoothed.is_finite());
        assert!(old.min(observed) - slack <= smoothed, "{old} {observed}: {smoothed}");
        assert!(smoothed <= old.max(observed) + slack, "{old} {observed}: {smoothed}");
    }
}

#[test]
fn no_id_is_given_out_again() {
    let mut tracker = CentroidTracker::new();
    let mut highest = 0;
    let mut started = 0;
    for frame in 0..200u32 {
        // Faces come and go: a spot is left alone long enough for its track to go.
        let spots: Vec<Detection> = (0..3)
            .map(|i| detection(((frame / 7 + i) % 9 * 1000) as f32, 0.0, "ada", 0.5, 100.0))
            .collect();
        for (id, _, _) in tracker.update(&spots) {
            if id > highest {
                started += 1;
                assert_eq!(id, started);
                highest = id;
            }
        }
    }
    assert!(started > 9, "{started}");
    assert!(tracker.tracks().iter().all(|t| t.id <= highest));
}
