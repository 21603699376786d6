use visiomatch::arcface::{
    average_embeddings, check_model, cosine_similarity, embedding_of, find_best_match, normalize,
};
use visiomatch::camera::{check_opened, fps_line, next_fps, resolution_warning};
use visiomatch::detect::{
    can_clamp, can_clamp_faces, cascade_path, clamp_faces, clamp_rect, find_cascade, min_face,
    to_full_resolution,
};
use visiomatch::embeddings::EmbeddingDb;
use visiomatch::geometry::{Rect, Segment};
use visiomatch::ieee::{Binary32, Binary64};
use visiomatch::recognize::{
    can_draw_face_hud, can_place, can_show, display_name, face_hud, identify, identities_line,
    is_exit_key, is_match, no_identities_text, online_text, RecognizeSession,
};

fn b32(v: f32) -> Binary32 {
    Binary32 { bits: v.to_bits() }
}

fn b64(v: f64) -> Binary64 {
    Binary64 { bits: v.to_bits() }
}

fn vector(values: &[f32]) -> Vec<Binary32> {
    values.iter().map(|v| b32(*v)).collect()
}

fn floats(values: &[Binary32]) -> Vec<f32> {
    values.iter().map(|v| f32::from_bits(v.bits)).collect()
}

/// The unit vector of one direction.
fn direction(i: usize) -> Vec<Binary32> {
    let mut v = vec![b32(0.0); 512];
    v[i] = b32(1.0);
    v
}

// --- Embeddings

#[test]
fn similarity_is_the_dot_product() {
    let a = [0.25f32, -0.1, 0.7, 1.0e-3];
    let b = [0.3f32, 0.9, -0.2, 0.55];
    let want: f32 = a.iter().zip(b.iter()).map(|(x, y)| *x * *y).sum();
    assert_eq!(cosine_similarity(&vector(&a), &vector(&b)), b64(want as f64));
    assert_eq!(
        cosine_similarity(&vector(&a), &vector(&b)),
        cosine_similarity(&vector(&b), &vector(&a))
    );
    // The shorter vector decides how far both are read.
    let short: f32 = a[..2].iter().zip(b.iter()).map(|(x, y)| *x * *y).sum();
    assert_eq!(cosine_similarity(&vector(&a[..2]), &vector(&b)), b64(short as f64));
    let nothing: f32 = std::iter::empty::<f32>().sum();
    assert_eq!(cosine_similarity(&vector(&[]), &vector(&b)), b64(nothing as f64));
}

#[test]
fn vectors_are_divided_by_their_length() {
    assert_eq!(floats(&normalize(&vector(&[3.0, 4.0]))), [0.6, 0.8]);
    // A vector without length is divided by 1e-10.
    assert_eq!(floats(&normalize(&vector(&[0.0, 0.0]))), [0.0, 0.0]);
    assert_eq!(floats(&normalize(&vector(&[1.0e-12]))), [1.0e-12 / 1.0e-10]);
    let raw = [0.1f32, -2.5, 7.25, 0.003];
    let norm = raw.iter().map(|x| x * x).sum::<f32>().sqrt().max(1e-10);
    let want: Vec<f32> = raw.iter().map(|x| x / norm).collect();
    assert_eq!(floats(&normalize(&vector(&raw))), want);
}

#[test]
fn embeddings_are_averaged() {
    assert!(average_embeddings(&vec![]).is_empty());
    let one: Vec<f32> = (0..512).map(|i| (i as f32 - 200.0) / 300.0).collect();
    let two: Vec<f32> = (0..512).map(|i| 1.0 / (i as f32 + 1.0)).collect();
    let three: Vec<f32> = vec![0.125; 100];
    let samples = vec![one.clone(), two.clone(), three.clone()];
    let mut avg = vec![0.0f32; 512];
    for s in &samples {
        for (a, v) in avg.iter_mut().zip(s.iter()) {
            *a += v;
        }
    }
    for v in avg.iter_mut() {
        *v /= 3.0;
    }
    let norm = avg.iter().map(|x| x * x).sum::<f32>().sqrt().max(1e-10);
    let want: Vec<f32> = avg.iter().map(|x| x / norm).collect();
    let got = average_embeddings(&samples.iter().map(|s| vector(s)).collect());
    assert_eq!(floats(&got), want);
}

#[test]
fn averages_have_length_one() {
    // Elements of a magnitude of at most one, in no particular order.
    let mixed = |seed: u32, scale: f32| -> Vec<Binary32> {
        let mut state = seed;
        (0..512)
            .map(|_| {
                state = state.wrapping_mul(1664525).wrapping_add(1013904223);
                b32(((state >> 8) as f32 / 8388608.0 - 1.0) * scale)
            })
            .collect()
    };
    let sets = [
        vec![mixed(1, 1.0)],
        vec![mixed(2, 1.0), mixed(3, 1.0), mixed(4, 0.001)],
        vec![vector(&[1.0; 512]), vector(&[1.0; 512])],
        vec![mixed(5, 1.0e-11)],
        vec![vector(&[1.0e-10]), vector(&[1.0e-10])],
        vec![direction(7); 40],
        // As great as the squares of all elements can be added up.
        vec![vector(&[576460752303423488.0; 512])],
        vec![vector(&[18446742974197923840.0])],
    ];
    for embeddings in sets {
        let average = floats(&average_embeddings(&embeddings));
        assert_eq!(average.len(), 512);
        assert!(average.iter().all(|x| x.is_finite()));
        let squared: f64 = average.iter().map(|x| *x as f64 * *x as f64).sum();
        assert!((squared - 1.0).abs() <= 1.0 / 2048.0, "{squared}");
    }
    // Where the squares overflow, all that is left is zero.
    let huge = floats(&average_embeddings(&vec![vector(&[f32::MAX; 512])]));
    assert!(huge.iter().all(|x| *x == 0.0));
    // Below 1e-10 the length is not made one, but no element leaves the numbers.
    let faint = floats(&average_embeddings(&vec![vector(&[1.0e-12, f32::MIN_POSITIVE])]));
    assert!(faint.iter().all(|x| x.is_finite()));
    assert_eq!(faint[0], 1.0e-12f32 / 1.0e-10f32);
    let gone = floats(&average_embeddings(&vec![direction(0), vector(&[-1.0])]));
    assert!(gone.iter().all(|x| *x == 0.0));
}

#[test]
fn the_embedding_in_the_outputs() {
    assert_eq!(embedding_of(&vec![]).unwrap_err(), "ArcFace produced no output");
    assert_eq!(
        embedding_of(&vec![vector(&[1.0; 511]), vector(&[1.0; 512])]).unwrap_err(),
        "ArcFace output too small: 511 elements (expected 512)"
    );
    let mut output = vec![0.0f32; 600];
    output[0] = 3.0;
    output[1] = 4.0;
    output[512] = 1000.0;
    let embedding = embedding_of(&vec![vector(&output)]).unwrap();
    assert_eq!(embedding.len(), 512);
    assert_eq!(floats(&embedding[..3]), [0.6, 0.8, 0.0]);
}

#[test]
fn the_model_must_be_there() {
    assert!(check_model(true).is_ok());
    assert_eq!(
        check_model(false).unwrap_err(),
        "ArcFace model not found at: data/models/w600k_mbf.onnx\nDownload it:\nwget -O data/models/w600k_mbf.onnx \\\nhttps://huggingface.co/deepghs/insightface/resolve/main/buffalo_s/w600k_mbf.onnx"
    );
}

#[test]
fn the_closest_identity() {
    let mut db: EmbeddingDb<Binary32> = EmbeddingDb::new();
    let (name, sim) = find_best_match(&db, &direction(0));
    assert_eq!((name.as_str(), sim), ("UNKNOWN", b64(-1.0)));
    db.insert("ada".to_string(), direction(0));
    db.insert("bob".to_string(), direction(1));
    db.insert("eve".to_string(), direction(1));
    let query = vector(&[0.6, 0.8]);
    let (name, sim) = find_best_match(&db, &query);
    assert_eq!((name.as_str(), sim), ("bob", b64(0.8f32 as f64)));
    let away = vector(&[-1.0, -1.0]);
    assert_eq!(find_best_match(&db, &away), ("UNKNOWN".to_string(), b64(-1.0)));
    let nan = vector(&[f32::NAN, 0.0]);
    assert_eq!(find_best_match(&db, &nan), ("UNKNOWN".to_string(), b64(-1.0)));
}

#[test]
fn the_greatest_similarity_ignores_the_order() {
    let people = [("ada", direction(0)), ("bob", direction(1)), ("eve", direction(2))];
    let query = vector(&[0.1, 0.5, 0.3]);
    let mut forward: EmbeddingDb<Binary32> = EmbeddingDb::new();
    let mut backward: EmbeddingDb<Binary32> = EmbeddingDb::new();
    for (name, v) in &people {
        forward.insert(name.to_string(), v.clone());
    }
    for (name, v) in people.iter().rev() {
        backward.insert(name.to_string(), v.clone());
    }
    assert_eq!(find_best_match(&forward, &query), find_best_match(&backward, &query));
}

// --- Detection

#[test]
fn cascade_files() {
    assert_eq!(
        cascade_path(0),
        "/usr/share/opencv5/haarcascades/haarcascade_frontalface_default.xml"
    );
    assert_eq!(
        cascade_path(1),
        "/usr/share/opencv4/haarcascades/haarcascade_frontalface_default.xml"
    );
    assert_eq!(find_cascade(&vec![true, true]), Ok(cascade_path(0)));
    assert_eq!(find_cascade(&vec![false, true]), Ok(cascade_path(1)));
    assert_eq!(
        find_cascade(&vec![false, false]).unwrap_err(),
        "Haar cascade not found. Searched:\n  - /usr/share/opencv5/haarcascades/haarcascade_frontalface_default.xml\n  - /usr/share/opencv4/haarcascades/haarcascade_frontalface_default.xml"
    );
}

#[test]
fn rectangles_are_clamped_to_the_frame() {
    assert_eq!(clamp_rect(Rect::new(10, 20, 30, 40), 100, 100), Some(Rect::new(10, 20, 30, 40)));
    assert_eq!(clamp_rect(Rect::new(-10, -5, 30, 40), 100, 100), Some(Rect::new(0, 0, 20, 35)));
    assert_eq!(clamp_rect(Rect::new(90, 95, 30, 40), 100, 100), Some(Rect::new(90, 95, 10, 5)));
    assert_eq!(clamp_rect(Rect::new(100, 0, 5, 5), 100, 100), None);
    assert_eq!(clamp_rect(Rect::new(-5, 0, 5, 5), 100, 100), None);
    assert_eq!(clamp_rect(Rect::new(0, 0, 0, 5), 100, 100), None);
    let once = clamp_rect(Rect::new(-10, 50, 500, 500), 640, 480).unwrap();
    assert_eq!(clamp_rect(once, 640, 480), Some(once));
    assert!(can_clamp(Rect::new(0, 0, 10, 10), 5, 5));
    assert!(!can_clamp(Rect::new(i32::MAX, 0, 1, 1), 5, 5));
    assert!(!can_clamp(Rect::new(i32::MAX, 0, 0, 1), -2, 5));
}

#[test]
fn faces_outside_of_the_frame_are_left_out() {
    let faces = vec![
        Rect::new(-10, 0, 20, 20),
        Rect::new(200, 0, 20, 20),
        Rect::new(5, 5, 20, 20),
    ];
    assert!(can_clamp_faces(&faces, 100, 100));
    assert_eq!(
        clamp_faces(&faces, 100, 100),
        [Rect::new(0, 0, 10, 20), Rect::new(5, 5, 20, 20)]
    );
    assert!(!can_clamp_faces(&vec![faces[0], Rect::new(i32::MAX, 0, 1, 1)], 100, 100));
}

#[test]
fn detections_are_brought_to_full_resolution() {
    assert_eq!(min_face(), 40);
    let small = vec![Rect::new(1, -2, 30, 40), Rect::new(i32::MAX, i32::MIN, 1 << 30, 0)];
    assert_eq!(
        to_full_resolution(&small),
        [Rect::new(2, -4, 60, 80), Rect::new(i32::MAX, i32::MIN, i32::MAX, 0)]
    );
}

// --- Camera

#[test]
fn the_camera_is_checked() {
    assert!(check_opened(true).is_ok());
    assert_eq!(
        check_opened(false).unwrap_err(),
        "[-] FATAL: Could not open camera device (index 0). Check permissions or connection."
    );
    for (w, h, off) in [
        (1280.0, 720.0, false),
        (1281.0, 719.0, false),
        (1281.5, 720.0, true),
        (1280.0, 480.0, true),
        (640.0, 480.0, true),
        (f64::NAN, 720.0, false),
    ] {
        let warning = resolution_warning(b64(w), b64(h), &format!("{w}"), &format!("{h}"));
        assert_eq!(warning.is_some(), off, "{w}x{h}");
    }
    assert_eq!(
        resolution_warning(b64(640.0), b64(480.0), "640", "480").unwrap(),
        "[!] Warning: Requested 1280x720, but camera provided 640x480"
    );
}

#[test]
fn the_frame_rate_is_smoothed() {
    let mut fps = 0.0f64;
    let mut got = b64(0.0);
    for dt in [0.03, 0.04, 0.0, 0.031, 0.5, -1.0, 1.0e-9] {
        if dt > 0.0 {
            let instant_fps = 1.0 / dt;
            fps = fps * (1.0 - 0.15) + instant_fps * 0.15;
        }
        got = next_fps(got, b64(dt));
        assert_eq!(got, b64(fps), "{dt}");
    }
    assert_eq!(fps_line(b64(29.96), "  //  ARCFACE"), "FPS: 30.0  //  ARCFACE");
    assert_eq!(fps_line(b64(0.0), ""), "FPS: 0.0");
}

// --- Recognition

#[test]
fn similarity_makes_a_match() {
    assert!(is_match(b64(0.4)));
    assert!(is_match(b64(0.8)));
    assert!(!is_match(b64(0.3999999999999999)));
    assert!(!is_match(b64(f64::NAN)));
    // The nearest single to 0.4 is above the threshold.
    assert!(is_match(b64(0.4f32 as f64)));
    assert_eq!(display_name("ada".to_string(), b64(0.5)), "ada");
    assert_eq!(display_name("ada".to_string(), b64(0.1)), "UNKNOWN");
}

#[test]
fn a_face_is_identified() {
    let mut db: EmbeddingDb<Binary32> = EmbeddingDb::new();
    db.insert("ada".to_string(), direction(0));
    let rect = Rect::new(10, 20, 31, 40);
    assert!(can_place(rect));
    let (d, found) = identify(&db, &direction(0), rect);
    assert!(found);
    assert_eq!(d.name, "ada");
    assert_eq!(d.confidence, b64(1.0));
    assert_eq!((d.cx, d.cy), (b32(25.0), b32(40.0)));
    assert_eq!(d.face_diag, b32(((31 * 31 + 40 * 40) as f32).sqrt()));
    let (d, found) = identify(&db, &direction(3), rect);
    assert!(!found);
    assert_eq!(d.name, "UNKNOWN");
    assert_eq!(d.confidence, b64(0.0));
    assert!(!can_place(Rect::new(0, 0, 50_000, 0)));
    assert!(!can_place(Rect::new(i32::MAX, 0, 2, 0)));
}

#[test]
fn what_is_drawn_for_a_face() {
    let rect = Rect::new(100, 50, 80, 90);
    assert!(can_draw_face_hud(rect));
    let hud = face_hud(rect, true, 7, b64(0.625), "ada");
    let line = |x1, y1, x2, y2| Segment { x1, y1, x2, y2 };
    assert_eq!(
        hud.segments,
        [
            line(100, 50, 130, 50),
            line(100, 50, 100, 80),
            line(100, 140, 130, 140),
            line(100, 140, 100, 110),
        ]
    );
    let texts: Vec<(&str, i32, i32)> =
        hud.labels.iter().map(|l| (l.text.as_str(), l.x, l.y)).collect();
    assert_eq!(
        texts,
        [
            ("TRACK  : #007", 195, 68),
            ("NAME   : ada", 195, 86),
            ("SIM    : 0.62", 195, 104),
            ("STATUS : MATCH", 195, 122),
        ]
    );
    let hud = face_hud(rect, false, 1234, b64(-1.0), "UNKNOWN");
    assert_eq!(hud.labels[0].text, "TRACK  : #1234");
    assert_eq!(hud.labels[2].text, "SIM    : -1.00");
    assert_eq!(hud.labels[3].text, "STATUS : UNKNOWN");
    assert!(!can_draw_face_hud(Rect::new(i32::MAX - 20, 0, 1, 1)));
}

#[test]
fn lines_and_keys_of_the_live_view() {
    assert_eq!(identities_line(3), "IDENTITIES: 3  //  THRESHOLD: 0.40");
    assert_eq!(online_text(2), "[*] ARCFACE RECOGNITION ENGINE ONLINE // 2 known identities loaded");
    assert_eq!(
        no_identities_text(),
        "[-] No enrolled identities found. Enroll someone first:\n    cargo run -- enroll <name>"
    );
    assert!(is_exit_key('q' as i32));
    assert!(is_exit_key(27));
    assert!(!is_exit_key('Q' as i32));
    assert!(!is_exit_key(-1));
}

#[test]
fn a_recognition_runs() {
    let nobody: EmbeddingDb<Binary32> = EmbeddingDb::new();
    assert!(RecognizeSession::start(nobody).is_none());
    let mut db: EmbeddingDb<Binary32> = EmbeddingDb::new();
    db.insert("ada".to_string(), direction(0));
    db.insert("bob".to_string(), direction(1));
    let mut session = RecognizeSession::start(db).unwrap();
    assert_eq!(session.identity_count(), 2);
    assert_eq!(session.fps(), b64(0.0));
    session.on_frame(b64(0.05));
    assert_eq!(session.fps(), b64(0.0 * (1.0 - 0.15) + 1.0 / 0.05 * 0.15));

    let faces = vec![Rect::new(0, 0, 100, 100), Rect::new(500, 0, 100, 100)];
    assert!(can_show(&faces));
    let views = session.on_faces(&faces, &vec![direction(1), direction(5)]);
    assert_eq!(views.len(), 2);
    assert!(views[0].is_match);
    assert_eq!(views[0].hud.labels[0].text, "TRACK  : #001");
    assert_eq!(views[0].hud.labels[1].text, "NAME   : bob");
    assert!(!views[1].is_match);
    assert_eq!(views[1].hud.labels[0].text, "TRACK  : #002");
    assert_eq!(views[1].hud.labels[1].text, "NAME   : UNKNOWN");

    // The second face moves a little and turns out to be known: its track goes
    // on, with a smoothed similarity.
    let moved = vec![Rect::new(510, 5, 100, 100)];
    let views = session.on_faces(&moved, &vec![direction(0)]);
    assert_eq!(views[0].hud.labels[0].text, "TRACK  : #002");
    assert_eq!(views[0].hud.labels[1].text, "NAME   : ada");
    assert_eq!(views[0].hud.labels[2].text, "SIM    : 0.40");
    assert!(views[0].is_match);
    assert!(!can_show(&vec![Rect::new(i32::MAX, 0, 10, 10)]));
}
