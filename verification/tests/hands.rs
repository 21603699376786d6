use visiomatch::geometry::{Rect, Segment};
use visiomatch::hands::{
    can_crop, can_draw_hand_hud, find_hand_candidates, hand_crop, hand_hud, hand_label,
    is_present, is_right_hand, model_missing_text, parse_handedness, parse_landmarks,
    parse_presence, project_landmarks, read_hand, skeleton, view_hand, Score,
};
use visiomatch::ieee::{Binary32, Binary64};

fn b32(v: f32) -> Binary32 {
    Binary32 { bits: v.to_bits() }
}

fn areas(values: &[f64]) -> Vec<Binary64> {
    values.iter().map(|v| Binary64 { bits: v.to_bits() }).collect()
}

fn vector(values: &[f32]) -> Vec<Binary32> {
    values.iter().map(|v| b32(*v)).collect()
}

#[test]
fn the_two_largest_hands_are_picked() {
    assert!(find_hand_candidates(&areas(&[])).is_empty());
    assert!(find_hand_candidates(&areas(&[1499.9, 0.0, f64::NAN])).is_empty());
    assert_eq!(find_hand_candidates(&areas(&[10.0, 1500.0])), [1]);
    assert_eq!(find_hand_candidates(&areas(&[1600.0, 9000.0, 2000.0])), [1, 2]);
    assert_eq!(find_hand_candidates(&areas(&[2000.0, 2000.0, 2000.0])), [0, 1]);
    assert_eq!(find_hand_candidates(&areas(&[2000.0, 3000.0, 2000.0, 3000.0])), [1, 3]);
}

#[test]
fn crops_are_padded_squares() {
    assert!(can_crop(Rect::new(200, 100, 90, 60), 1280, 720));
    assert_eq!(
        hand_crop(Rect::new(200, 100, 90, 60), 1280, 720),
        Some(Rect::new(170, 70, 150, 150))
    );
    assert_eq!(
        hand_crop(Rect::new(10, 20, 60, 90), 1280, 720),
        Some(Rect::new(0, 0, 130, 140))
    );
    // Too small, or too little of it in the frame.
    assert_eq!(hand_crop(Rect::new(100, 100, 20, 20), 1280, 720), None);
    assert_eq!(hand_crop(Rect::new(1261, 100, 90, 60), 1280, 720), None);
    assert_eq!(hand_crop(Rect::new(2000, 100, 90, 60), 1280, 720), None);
    assert_eq!(hand_crop(Rect::new(0, 0, -5, -5), 1280, 720), None);
    assert!(!can_crop(Rect::new(0, 0, i32::MAX, 1), 1280, 720));
    assert!(!can_crop(Rect::new(i32::MIN, 0, 90, 90), 1280, 720));
}

#[test]
fn landmarks_come_in_threes() {
    assert!(parse_landmarks(&vector(&[0.5; 62])).is_none());
    let output: Vec<f32> = (0..70).map(|i| i as f32).collect();
    let landmarks = parse_landmarks(&vector(&output)).unwrap();
    assert_eq!(landmarks.len(), 21);
    assert_eq!(landmarks[0], (b32(0.0), b32(1.0), b32(2.0)));
    assert_eq!(landmarks[20], (b32(60.0), b32(61.0), b32(62.0)));
}

#[test]
fn scores_and_what_they_say() {
    assert_eq!(parse_handedness(None), Score::Plain(b32(0.5)));
    assert_eq!(parse_handedness(Some(b32(0.0))), Score::Plain(b32(0.0)));
    assert_eq!(parse_handedness(Some(b32(1.0))), Score::Plain(b32(1.0)));
    assert_eq!(parse_handedness(Some(b32(1.5))), Score::Logit(b32(1.5)));
    assert_eq!(parse_handedness(Some(b32(-0.5))), Score::Logit(b32(-0.5)));
    assert!(matches!(parse_handedness(Some(b32(f32::NAN))), Score::Logit(_)));
    assert_eq!(parse_presence(None), Score::Plain(b32(1.0)));
    assert_eq!(parse_presence(Some(b32(0.2))), Score::Logit(b32(0.2)));

    assert_eq!(Score::Plain(b32(0.3)).exponent(), None);
    assert_eq!(Score::Logit(b32(2.0)).exponent(), Some(b32(-2.0)));
    assert_eq!(Score::Plain(b32(0.3)).confidence(b32(7.0)), b32(0.3));
    let e = (-2.0f32).exp();
    assert_eq!(Score::Logit(b32(2.0)).confidence(b32(e)), b32(1.0 / (1.0 + e)));

    assert!(is_right_hand(b32(0.51)));
    assert!(!is_right_hand(b32(0.5)));
    assert!(is_present(b32(0.5)));
    assert!(!is_present(b32(0.49)));
    // What is no number is not below the limit.
    assert!(is_present(b32(f32::NAN)));
    assert_eq!(hand_label(true), "RIGHT");
    assert_eq!(hand_label(false), "LEFT");
}

#[test]
fn landmarks_are_projected_onto_the_frame() {
    let rect = Rect::new(100, -50, 224, 150);
    let landmarks = vec![
        (b32(0.0), b32(0.0), b32(0.0)),
        (b32(1.0), b32(1.0), b32(0.0)),
        (b32(0.333), b32(0.1), b32(0.0)),
        (b32(-10.0), b32(1.0e30), b32(0.0)),
        (b32(f32::NAN), b32(-1.0e30), b32(0.0)),
    ];
    let pts = project_landmarks(&landmarks, rect);
    assert_eq!(pts[0], (100, -50));
    assert_eq!(pts[1], (324, 100));
    assert_eq!(
        pts[2],
        ((0.333f32 * 224.0 + 100.0) as i32, (0.1f32 * 150.0 - 50.0) as i32)
    );
    assert_eq!(pts[3], (-2140, i32::MAX));
    assert_eq!(pts[4], (0, i32::MIN));
    assert_eq!(pts[5], (0, 0));
    assert_eq!(pts[20], (0, 0));
}

#[test]
fn the_skeleton_joins_all_landmarks() {
    let mut pts = [(0, 0); 21];
    for (i, p) in pts.iter_mut().enumerate() {
        *p = (i as i32, 100 + i as i32);
    }
    let lines = skeleton(&pts);
    assert_eq!(lines.len(), 23);
    assert_eq!(lines[0], Segment { x1: 0, y1: 100, x2: 1, y2: 101 });
    assert_eq!(lines[22], Segment { x1: 13, y1: 113, x2: 17, y2: 117 });
    for i in 1..21 {
        assert!(lines.iter().any(|l| l.x2 == i));
    }
    for l in &lines {
        assert!(l.x1 < l.x2);
    }
}

#[test]
fn what_is_drawn_around_a_hand() {
    let rect = Rect::new(100, 200, 80, 60);
    assert!(can_draw_hand_hud(rect));
    let hud = hand_hud(rect, "LEFT", b32(0.125), b32(0.995));
    let corners: Vec<(i32, i32)> = hud.segments.iter().map(|s| (s.x1, s.y1)).collect();
    assert_eq!(
        corners,
        [
            (100, 200), (100, 200), (180, 200), (180, 200), (100, 260), (100, 260), (180, 260),
            (180, 260)
        ]
    );
    assert_eq!(hud.segments[2], Segment { x1: 180, y1: 200, x2: 162, y2: 200 });
    assert_eq!(hud.segments[7], Segment { x1: 180, y1: 260, x2: 180, y2: 242 });
    let texts: Vec<(&str, i32, i32)> =
        hud.labels.iter().map(|l| (l.text.as_str(), l.x, l.y)).collect();
    assert_eq!(
        texts,
        [
            ("LEFT HAND", 100, 160),
            (format!("SIDE : {:.0}%", 0.125f32 * 100.0).as_str(), 100, 176),
            (format!("CONF : {:.0}%", 0.995f32 * 100.0).as_str(), 100, 192),
        ]
    );
    assert!(!can_draw_hand_hud(Rect::new(0, i32::MIN, 10, 10)));
    assert!(!can_draw_hand_hud(Rect::new(i32::MAX - 5, 0, 10, 10)));
}

#[test]
fn a_hand_is_read_and_shown() {
    assert!(read_hand(&vec![]).is_none());
    assert!(read_hand(&vec![vector(&[0.5; 10])]).is_none());
    let reading = read_hand(&vec![vector(&[0.5; 63])]).unwrap();
    assert_eq!(reading.side, Score::Plain(b32(0.5)));
    assert_eq!(reading.presence, Score::Plain(b32(1.0)));
    let reading = read_hand(&vec![vector(&[0.5; 63]), vector(&[]), vector(&[])]).unwrap();
    assert_eq!(reading.side, Score::Plain(b32(0.5)));
    let reading =
        read_hand(&vec![vector(&[0.5; 63]), vector(&[0.9, 0.1]), vector(&[3.0])]).unwrap();
    assert_eq!(reading.side, Score::Plain(b32(0.9)));
    assert_eq!(reading.presence, Score::Logit(b32(3.0)));

    let rect = Rect::new(100, 200, 80, 60);
    let e = (-3.0f32).exp();
    let view = view_hand(&reading, rect, b32(0.0), b32(e)).unwrap();
    assert!(view.is_right);
    assert_eq!(view.joints[7], (140, 230));
    assert_eq!(view.bones.len(), 23);
    assert_eq!(view.hud.labels[0].text, "RIGHT HAND");
    assert_eq!(view.hud.labels[1].text, "SIDE : 90%");
    assert_eq!(view.hud.labels[2].text, "CONF : 95%");
    // An exponential above one makes the presence too uncertain.
    assert!(view_hand(&reading, rect, b32(0.0), b32(1.5)).is_none());
}

#[test]
fn the_hint_for_a_missing_model() {
    let text = model_missing_text();
    assert!(text.starts_with(
        "[!] Hand landmark model not found at: data/models/handpose_estimation_mediapipe_2023feb.onnx\n    Download it:\n"
    ));
    assert!(text.ends_with("\n    Then: cargo run -- hands"));
}

#[test]
fn confidences_lie_between_zero_and_one() {
    for raw in [-1.0e30f32, -90.0, -3.0, -0.1, 0.0, 0.3, 1.0, 1.1, 20.0, 100.0, 1.0e30] {
        let e = b32((-raw).exp());
        for score in [parse_handedness(Some(b32(raw))), parse_presence(Some(b32(raw)))] {
            let confidence = f32::from_bits(score.confidence(e).bits);
            assert!((0.0..=1.0).contains(&confidence), "{raw}: {confidence}");
        }
        let sigmoid = 1.0 / (1.0 + (-raw).exp());
        assert_eq!(parse_presence(Some(b32(raw))).confidence(e), b32(sigmoid), "{raw}");
    }
}

#[test]
fn a_greater_logit_gives_no_smaller_confidence() {
    let raws = [-1.0e30f32, -90.0, -20.0, -3.0, -0.1, -0.0, 0.0, 0.3, 1.0, 1.1, 20.0, 100.0, 1.0e30];
    let mut last = 0.0f32;
    for raw in raws {
        let e = b32((-raw).exp());
        let confidence = f32::from_bits(parse_presence(Some(b32(raw))).confidence(e).bits);
        assert!(last <= confidence, "{raw}: {last} {confidence}");
        last = confidence;
    }
    assert_eq!(last, 1.0);
    assert_eq!(parse_presence(Some(b32(0.0))).confidence(b32(1.0)), b32(0.5));
}

#[test]
fn a_greater_exponential_gives_no_greater_confidence() {
    let logit = Score::Logit(b32(3.0));
    let mut last = 1.0f32;
    for e in [0.0f32, 1.0e-45, 1.0e-9, 0.5, 1.0, 1.0000001, 7.0, 1.0e30, f32::MAX, f32::INFINITY] {
        let confidence = f32::from_bits(logit.confidence(b32(e)).bits);
        assert!(confidence <= last, "{e}: {last} {confidence}");
        last = confidence;
    }
    assert_eq!(last, 0.0);
}
