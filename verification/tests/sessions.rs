use visiomatch::arcface::average_embeddings;
use visiomatch::cli::{parse_command, unknown_text, Command};
use visiomatch::embeddings::EmbeddingDb;
use visiomatch::enroll::{welcome, EnrollSession, FrameAction, CAPTURE_INTERVAL, ENROLL_TARGET};
use visiomatch::geometry::Rect;
use visiomatch::ieee::Binary32;
use visiomatch::setup::{
    answer_hint, download_args, find_downloader, model, parse_answer, plan_model, Line, Mark,
    ModelPlan, SetupRun, Stage, MODEL_COUNT,
};

fn sample(first: f32) -> Vec<Binary32> {
    (0..512).map(|i| Binary32 { bits: (first + i as f32).to_bits() }).collect()
}

// --- Enrolment

#[test]
fn an_enrolment_takes_its_samples() {
    let face = Rect::new(-10, 10, 100, 100);
    let marked = Rect::new(0, 10, 90, 100);
    let mut session = EnrollSession::new();
    assert!(session.is_running());
    let mut now = 1_000;
    let mut samples = Vec::new();
    for i in 0..ENROLL_TARGET {
        assert_eq!(session.crop_file(), format!("{i:03}.png"));
        assert_eq!(session.caption("ada"), format!("Enrolling 'ada': {i}/5"));
        assert_eq!(
            session.on_frame(&vec![face], 640, 480, now),
            FrameAction { highlight: Some(marked), capture: true }
        );
        samples.push(sample(i as f32));
        session.on_capture(sample(i as f32), now);
        assert_eq!(session.captured(), i + 1);
        assert_eq!(session.capture_message(), format!("[+] Captured {}/5", i + 1));
        // Too early for the next one.
        assert_eq!(
            session.on_frame(&vec![face], 640, 480, now + CAPTURE_INTERVAL - 1),
            FrameAction { highlight: Some(marked), capture: false }
        );
        now += CAPTURE_INTERVAL;
    }
    assert!(!session.is_running());
    let mut db: EmbeddingDb<Binary32> = EmbeddingDb::new();
    assert!(session.store("ada", &mut db));
    assert_eq!(db.len(), 1);
    assert_eq!(db.identities()[0].name, "ada");
    assert_eq!(db.identities()[0].embedding, average_embeddings(&samples));
    assert_eq!(
        session.stored_message("ada", db.len()),
        "[+] Enrolled 'ada' (5 samples, 1 total identities) -> data/embeddings.json"
    );
}

#[test]
fn exactly_one_face_must_be_visible() {
    let face = Rect::new(10, 10, 100, 100);
    let nothing = FrameAction { highlight: None, capture: false };
    let session = EnrollSession::new();
    assert_eq!(session.on_frame(&vec![], 640, 480, 0), nothing);
    assert_eq!(session.on_frame(&vec![face, face], 640, 480, 0), nothing);
    assert_eq!(session.on_frame(&vec![Rect::new(640, 0, 10, 10)], 640, 480, 0), nothing);
    assert!(session.on_frame(&vec![face], 640, 480, 0).capture);
}

#[test]
fn an_enrolment_can_be_stopped() {
    let mut session = EnrollSession::new();
    assert!(!session.on_key(-1));
    assert!(!session.on_key('x' as i32));
    assert!(session.is_running());
    assert!(session.on_key('q' as i32));
    assert!(!session.is_running());
    assert_eq!(session.stop_message(), "[-] Enrollment stopped at 0/5 samples.");
    let mut db: EmbeddingDb<Binary32> = EmbeddingDb::new();
    assert!(!session.store("ada", &mut db));
    assert!(db.is_empty());

    // What was captured before the stop is stored all the same.
    let mut session = EnrollSession::new();
    session.on_capture(sample(1.0), 7);
    assert!(session.on_key(27));
    assert!(session.store("ada", &mut db));
    assert_eq!(db.len(), 1);
    assert_eq!(
        welcome("ada"),
        "[*] Enrolling 'ada'. Move your head slightly between captures.\n[*] Need 5 samples. Press 'q' to cancel."
    );
}

// --- Setup

fn lines(got: &[Line]) -> Vec<(Mark, &str)> {
    got.iter().map(|l| (l.mark, l.text.as_str())).collect()
}

fn heading(tag: &str, title: &str) -> (String, String) {
    (tag.to_string(), title.to_string())
}

#[test]
fn a_setup_that_succeeds() {
    let mut run = SetupRun::new();
    assert_eq!(run.heading().unwrap(), heading("[1/5]", "Checking download tools"));
    let (tool, said) = run.on_tools(false, true);
    assert_eq!(tool, Some("wget"));
    assert_eq!(lines(&said), [(Mark::Fine, "Found: wget")]);
    assert_eq!(run.heading().unwrap(), heading("[2/5]", "Checking directory structure"));
    assert_eq!(
        lines(&run.on_directories()),
        [(Mark::Fine, "data/models/ ready"), (Mark::Fine, "data/faces/ ready")]
    );
    // The first model is there, the second is not wanted, the third is truncated.
    assert_eq!(run.heading().unwrap(), heading("[3/5]", "ArcFace MobileFaceNet (~13 MB)"));
    let (plan, said) = run.on_size(Some(13_616_099));
    assert_eq!(plan, ModelPlan::Keep);
    let want = format!("Already downloaded ({:.1} MB)", 13_616_099u64 as f64 / 1_048_576.0);
    assert_eq!(lines(&said), [(Mark::Fine, want.as_str())]);
    assert_eq!(run.stage(), Stage::Inspect(1));
    assert_eq!(run.heading().unwrap(), heading("[4/5]", "MediaPipe Hand Landmarks (~5 MB)"));
    let (plan, said) = run.on_size(None);
    assert_eq!(plan, ModelPlan::Ask { discard: false });
    assert!(said.is_empty());
    assert_eq!(run.heading(), None);
    assert_eq!(
        lines(&run.on_answer(false)),
        [(Mark::Warning, "Skipped (you can download it later with `cargo run -- setup`)")]
    );
    assert_eq!(run.heading().unwrap(), heading("[5/5]", "Haar Cascade Frontal Face (~900 KB)"));
    let (plan, said) = run.on_size(Some(1024));
    assert_eq!(plan, ModelPlan::Download { discard: true });
    assert_eq!(
        lines(&said),
        [
            (Mark::Warning, "File exists but looks truncated — re-downloading"),
            (Mark::Note, "This model is required — downloading now."),
        ]
    );
    assert_eq!(run.stage(), Stage::Fetch(2));
    assert_eq!(lines(&run.on_fetched(Ok(930_127))), [(Mark::Fine, "Downloaded (0.9 MB)")]);
    assert_eq!(run.heading().unwrap(), heading("[+]", "Verifying Haar cascade"));
    assert_eq!(lines(&run.on_cascade(Some("/x.xml"))), [(Mark::Fine, "Found: /x.xml")]);
    assert_eq!(run.heading().unwrap(), heading("[+]", "Verifying ArcFace model"));
    assert_eq!(
        lines(&run.on_arcface(Some(Ok(())))),
        [(Mark::Fine, "Model loads and initializes correctly")]
    );
    assert_eq!(run.stage(), Stage::End);
    assert_eq!(run.outcome(), Ok(()));
}

#[test]
fn a_setup_without_a_tool_is_over() {
    let mut run = SetupRun::new();
    let (tool, said) = run.on_tools(false, false);
    assert_eq!(tool, None);
    assert_eq!(
        lines(&said),
        [
            (Mark::Failure, "Neither curl nor wget found"),
            (Mark::Note, "Install one of them:"),
            (Mark::Hint, "sudo pacman -S curl    # Arch"),
            (Mark::Hint, "sudo apt install curl  # Ubuntu/Debian"),
        ]
    );
    assert_eq!(run.stage(), Stage::End);
    assert_eq!(
        run.outcome().unwrap_err(),
        "No download tool available. Install curl or wget."
    );
}

/// A setup in which all files are missing and the downloads of the models in
/// `broken` fail.
fn setup_with(broken: &[usize], cascade: Option<&str>, loads: Option<Result<(), String>>) -> SetupRun {
    let mut run = SetupRun::new();
    run.on_tools(true, true);
    run.on_directories();
    for i in 0..MODEL_COUNT {
        assert_eq!(run.stage(), Stage::Inspect(i));
        let (plan, _) = run.on_size(None);
        if matches!(plan, ModelPlan::Ask { .. }) {
            assert!(run.on_answer(true).is_empty());
        }
        assert_eq!(run.stage(), Stage::Fetch(i));
        if broken.contains(&i) {
            assert_eq!(
                lines(&run.on_fetched(Err("exit code: 7".to_string()))),
                [(Mark::Failure, "Download failed: exit code: 7")]
            );
        } else {
            run.on_fetched(Ok(5_000_000));
        }
    }
    run.on_cascade(cascade);
    run.on_arcface(loads);
    assert_eq!(run.stage(), Stage::End);
    run
}

#[test]
fn only_what_is_required_fails_a_setup() {
    let incomplete = Err("Setup incomplete — see errors above".to_string());
    assert_eq!(setup_with(&[], Some("x"), Some(Ok(()))).outcome(), Ok(()));
    assert_eq!(setup_with(&[1], Some("x"), Some(Ok(()))).outcome(), Ok(()));
    assert_eq!(setup_with(&[0], Some("x"), None).outcome(), incomplete);
    assert_eq!(setup_with(&[2], Some("x"), Some(Ok(()))).outcome(), incomplete);
    assert_eq!(setup_with(&[], None, Some(Ok(()))).outcome(), incomplete);
    assert_eq!(setup_with(&[], Some("x"), Some(Err("bad".to_string()))).outcome(), incomplete);
    // A missing file is not tried.
    assert_eq!(setup_with(&[], Some("x"), None).outcome(), Ok(()));
}

#[test]
fn what_is_said_of_a_cascade_and_a_model_that_fail() {
    let mut run = SetupRun::new();
    run.on_tools(true, false);
    run.on_directories();
    for _ in 0..MODEL_COUNT {
        run.on_size(Some(2_000));
    }
    assert_eq!(
        lines(&run.on_cascade(None)),
        [
            (Mark::Failure, "Haar cascade not found (local or system)"),
            (Mark::Note, "Install OpenCV with data files, or run setup again:"),
            (Mark::Hint, "cargo run -- setup"),
        ]
    );
    assert_eq!(
        lines(&run.on_arcface(Some(Err("no layers".to_string())))),
        [(Mark::Failure, "Model failed to load: no layers")]
    );
}

#[test]
fn models_and_plans() {
    assert!(model(0).required && !model(1).required && model(2).required);
    assert_eq!(model(0).path, "data/models/w600k_mbf.onnx");
    assert_eq!(model(1).description, "Optional — needed only for hand tracking mode");
    assert!(model(2).url.ends_with("haarcascade_frontalface_default.xml"));
    assert_eq!(plan_model(true, Some(1025)), ModelPlan::Keep);
    assert_eq!(plan_model(true, Some(1024)), ModelPlan::Download { discard: true });
    assert_eq!(plan_model(true, None), ModelPlan::Download { discard: false });
    assert_eq!(plan_model(false, Some(0)), ModelPlan::Ask { discard: true });
    assert_eq!(plan_model(false, None), ModelPlan::Ask { discard: false });
}

#[test]
fn download_tools() {
    assert_eq!(find_downloader(true, true), Some("curl"));
    assert_eq!(find_downloader(true, false), Some("curl"));
    assert_eq!(find_downloader(false, true), Some("wget"));
    assert_eq!(find_downloader(false, false), None);
    assert_eq!(
        download_args("curl", "d", "u").unwrap(),
        ["-L", "--progress-bar", "-o", "d", "u"]
    );
    assert_eq!(
        download_args("wget", "d", "u").unwrap(),
        ["-q", "--show-progress", "-O", "d", "u"]
    );
    assert_eq!(download_args("aria2", "d", "u").unwrap_err(), "No supported download tool found");
}

#[test]
fn answers_to_questions() {
    for yes in ["y", "Y\n", " yes ", "YeS\r\n"] {
        assert!(parse_answer(yes, false), "{yes}");
    }
    for no in ["n", "N\n", "no", " NO "] {
        assert!(!parse_answer(no, true), "{no}");
    }
    for other in ["", "\n", "maybe", "yy", "yes please"] {
        assert!(parse_answer(other, true), "{other}");
        assert!(!parse_answer(other, false), "{other}");
    }
    assert_eq!(answer_hint(true), "Y/n");
    assert_eq!(answer_hint(false), "y/N");
}

// --- Command line

fn command(words: &[&str]) -> Command {
    let mut args = vec!["visiomatch".to_string()];
    args.extend(words.iter().map(|w| w.to_string()));
    parse_command(&args)
}

#[test]
fn commands() {
    assert!(matches!(command(&[]), Command::Recognize));
    assert!(matches!(parse_command(&vec![]), Command::Recognize));
    assert!(matches!(command(&["recognize"]), Command::Recognize));
    assert!(matches!(command(&["enroll", "ada", "x"]), Command::Enroll(n) if n == "ada"));
    assert!(matches!(command(&["enroll"]), Command::EnrollWithoutName));
    assert!(matches!(command(&["hand"]), Command::Hands));
    assert!(matches!(command(&["hands"]), Command::Hands));
    assert!(matches!(command(&["setup"]), Command::Setup));
    assert!(matches!(command(&["install"]), Command::Setup));
    assert!(matches!(command(&["Setup"]), Command::Unknown(w) if w == "Setup"));
    assert!(unknown_text("x").starts_with("[-] Unknown command: x\nUsage:\n  cargo run -- setup "));
}

#[test]
fn a_setup_succeeds_exactly_if_all_is_there() {
    for case in 0..1 << 9 {
        let bit = |i: usize| case >> i & 1 == 1;
        let (tool, found, there, loads) = (bit(0), bit(1), bit(2), bit(3));
        let whole = [bit(4), bit(5), bit(4) && bit(6)];
        let fetched = [bit(7), bit(8), bit(8)];
        let mut run = SetupRun::new();
        let mut replies = 0;
        while run.stage() != Stage::End {
            replies += 1;
            match run.stage() {
                Stage::Tools => {
                    run.on_tools(false, tool);
                }
                Stage::Directories => {
                    run.on_directories();
                }
                Stage::Inspect(i) => {
                    run.on_size(if whole[i] { Some(1025) } else { Some(1024) });
                }
                Stage::Ask(_) => {
                    run.on_answer(bit(6));
                }
                Stage::Fetch(i) => {
                    run.on_fetched(if fetched[i] { Ok(1) } else { Err("404".to_string()) });
                }
                Stage::Cascade => {
                    run.on_cascade(if found { Some("cascade.xml") } else { None });
                }
                Stage::ArcFace => {
                    let tried = if loads { Ok(()) } else { Err("no".to_string()) };
                    run.on_arcface(if there { Some(tried) } else { None });
                }
                Stage::End => {}
            }
        }
        assert!(replies <= 4 + 3 * MODEL_COUNT);
        let want = tool
            && (whole[0] || fetched[0])
            && (whole[2] || fetched[2])
            && found
            && (!there || loads);
        assert_eq!(run.outcome().is_ok(), want, "{case}");
    }
}
