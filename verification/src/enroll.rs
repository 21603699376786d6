//! Enrolment: when a sample is captured, when enough are, and what is said.
use vstd::prelude::*;

use crate::arcface::{average_embeddings, mean, normalized, EMBEDDINGS_PATH};
use crate::detect::{clamp_rect, clampable, clamped, law_clamp_is_intersection};
use crate::embeddings::{inserted, EmbeddingDb};
use crate::geometry::Rect;
use crate::ieee::Binary32;
use crate::recognize::is_exit_key;
use crate::text::{decimal, decimal3, push_decimal, push_decimal3};

verus! {

/// Number of samples that make an enrolment.
pub const ENROLL_TARGET: usize = 5;

/// Directory under which the face crops of each identity are kept.
pub const DATA_DIR: &'static str = "data/faces";

/// Time between two captures: 500 milliseconds, in nanoseconds.
pub const CAPTURE_INTERVAL: u64 = 500_000_000;

/// How far an enrolment has come: the embeddings of its samples, when the last
/// one was captured, and whether the user stopped it.  Times are nanoseconds of
/// a clock that never goes back.
pub struct EnrollSession {
    samples: Vec<Vec<Binary32>>,
    last_capture: Option<u64>,
    stopped: bool,
}

/// What is to be done with one camera frame.
#[derive(Clone, Copy, Debug, PartialEq, Eq, Structural)]
pub struct FrameAction {
    /// The face to be marked in the display.
    pub highlight: Option<Rect>,
    /// Whether a sample is to be captured from that face.
    pub capture: bool,
}

/// Whether the time for a capture has come: none was made yet, or the last one
/// is long enough ago.
pub open spec fn due(last_capture: Option<u64>, now: u64) -> bool {
    match last_capture {
        None => true,
        Some(last) => now - last >= CAPTURE_INTERVAL,
    }
}

/// A frame is used only if exactly one face is visible, within the frame; a
/// sample is captured from it if the time has come.
pub open spec fn action(
    last_capture: Option<u64>,
    faces: Seq<Rect>,
    cols: i32,
    rows: i32,
    now: u64,
) -> FrameAction {
    if faces.len() == 1 && clamped(faces[0], cols, rows) is Some {
        FrameAction {
            highlight: clamped(faces[0], cols, rows),
            capture: due(last_capture, now),
        }
    } else {
        FrameAction { highlight: None, capture: false }
    }
}

impl EnrollSession {
    /// The embeddings of the samples captured so far.
    pub closed spec fn sample_seq(&self) -> Seq<Vec<Binary32>> {
        self.samples@
    }

    /// The number of samples captured so far.
    pub open spec fn count(&self) -> nat {
        self.sample_seq().len()
    }

    /// The time of the last capture.
    pub closed spec fn last(&self) -> Option<u64> {
        self.last_capture
    }

    /// Whether the user stopped the enrolment.
    pub closed spec fn ended(&self) -> bool {
        self.stopped
    }

    /// No more samples than needed.
    pub open spec fn well_formed(&self) -> bool {
        self.count() <= ENROLL_TARGET
    }

    /// The enrolment goes on: samples are missing and it was not stopped.
    pub open spec fn running(&self) -> bool {
        self.count() < ENROLL_TARGET && !self.ended()
    }

    /// An enrolment without samples; the first capture is due at once.
    pub fn new() -> (session: Self)
        ensures
            session.well_formed(),
            session.count() == 0,
            session.last() is None,
            !session.ended(),
    {
        EnrollSession { samples: Vec::new(), last_capture: None, stopped: false }
    }

    /// Whether the enrolment goes on.
    pub fn is_running(&self) -> (yes: bool)
        ensures
            yes == self.running(),
            yes == (self.count() < 5 && !self.ended()),
    {
        self.samples.len() < ENROLL_TARGET && !self.stopped
    }

    /// The number of samples captured so far.
    pub fn captured(&self) -> (n: usize)
        ensures
            n == self.count(),
    {
        self.samples.len()
    }

    /// What is to be done with a frame of `cols` by `rows` pixels in which
    /// `faces` were detected.
    pub fn on_frame(&self, faces: &Vec<Rect>, cols: i32, rows: i32, now: u64) -> (out: FrameAction)
        requires
            faces@.len() == 1 ==> clampable(faces@[0], cols, rows),
        ensures
            out == action(self.last(), faces@, cols, rows, now),
    {
        if faces.len() != 1 {
            return FrameAction { highlight: None, capture: false };
        }
        match clamp_rect(faces[0], cols, rows) {
            None => FrameAction { highlight: None, capture: false },
            Some(face) => {
                let capture: bool = match self.last_capture {
                    None => true,
                    Some(last) => now >= last && now - last >= CAPTURE_INTERVAL,
                };
                FrameAction { highlight: Some(face), capture }
            },
        }
    }

    /// Takes the embedding of a sample that was captured at the time `now`.
    pub fn on_capture(&mut self, embedding: Vec<Binary32>, now: u64)
        requires
            old(self).running(),
        ensures
            final(self).well_formed(),
            final(self).sample_seq() == old(self).sample_seq().push(embedding),
            final(self).last() == Some(now),
            final(self).ended() == old(self).ended(),
    {
        self.samples.push(embedding);
        self.last_capture = Some(now);
    }

    /// Notes a key: `q` and Esc stop the enrolment.  Returns whether this one
    /// did.
    pub fn on_key(&mut self, key: i32) -> (stops: bool)
        ensures
            stops == (key == 'q' as int || key == 27),
            final(self).ended() == (old(self).ended() || stops),
            final(self).sample_seq() == old(self).sample_seq(),
            final(self).last() == old(self).last(),
    {
        let stops: bool = is_exit_key(key);
        if stops {
            self.stopped = true;
        }
        stops
    }

    /// Stores the averaged embedding under the name, if there is any sample.
    /// Returns whether it did.
    pub fn store(&self, name: &str, db: &mut EmbeddingDb<Binary32>) -> (stored: bool)
        requires
            old(db).well_formed(),
        ensures
            final(db).well_formed(),
            stored == (self.count() > 0),
            final(db)@ == if stored {
                inserted(old(db)@, name@, normalized(mean(self.sample_seq())))
            } else {
                old(db)@
            },
    {
        if self.samples.len() == 0 {
            false
        } else {
            db.insert(name.to_owned(), average_embeddings(&self.samples));
            true
        }
    }

    /// The file name of the next face crop.
    pub fn crop_file(&self) -> (name: String)
        ensures
            name@ == decimal3(self.count()) + ".png"@,
    {
        let mut name: String = String::new();
        push_decimal3(&mut name, self.samples.len() as u64);
        assert(name@ =~= decimal3(self.count()));
        name.append(".png");
        name
    }

    /// The caption of the display.
    pub fn caption(&self, name: &str) -> (text: String)
        ensures
            text@ == "Enrolling '"@ + name@ + "': "@ + progress(self.count()),
    {
        let mut text: String = "Enrolling '".to_owned();
        text.append(name);
        text.append("': ");
        self.push_progress(&mut text);
        text
    }

    /// What is said of a capture.
    pub fn capture_message(&self) -> (text: String)
        ensures
            text@ == "[+] Captured "@ + progress(self.count()),
    {
        let mut text: String = "[+] Captured ".to_owned();
        self.push_progress(&mut text);
        text
    }

    /// What is said when the user stops the enrolment.
    pub fn stop_message(&self) -> (text: String)
        ensures
            text@ == "[-] Enrollment stopped at "@ + progress(self.count()) + " samples."@,
    {
        let mut text: String = "[-] Enrollment stopped at ".to_owned();
        self.push_progress(&mut text);
        text.append(" samples.");
        text
    }

    /// What is said when the identity is stored, as one of `total`.
    pub fn stored_message(&self, name: &str, total: usize) -> (text: String)
        ensures
            text@ == "[+] Enrolled '"@ + name@ + "' ("@ + decimal(self.count())
                + " samples, "@ + decimal(total as nat) + " total identities) -> "@
                + EMBEDDINGS_PATH@,
    {
        let mut text: String = "[+] Enrolled '".to_owned();
        text.append(name);
        text.append("' (");
        push_decimal(&mut text, self.samples.len() as u64);
        text.append(" samples, ");
        push_decimal(&mut text, total as u64);
        text.append(" total identities) -> ");
        text.append(EMBEDDINGS_PATH);
        text
    }

    fn push_progress(&self, text: &mut String)
        ensures
            final(text)@ == old(text)@ + progress(self.count()),
    {
        let ghost start = text@;
        push_decimal(text, self.samples.len() as u64);
        text.append("/");
        push_decimal(text, ENROLL_TARGET as u64);
        assert(text@ =~= start + progress(self.count()));
    }
}

/// What is said when an enrolment begins.
pub fn welcome(name: &str) -> (text: String)
    ensures
        text@ == "[*] Enrolling '"@ + name@
            + "'. Move your head slightly between captures.\n[*] Need 5 samples. Press 'q' to cancel."@,
{
    let mut text: String = "[*] Enrolling '".to_owned();
    text.append(name);
    text.append(
        "'. Move your head slightly between captures.\n[*] Need 5 samples. Press 'q' to cancel.",
    );
    text
}

/// Samples captured, of samples needed.
pub open spec fn progress(captured: nat) -> Seq<char> {
    decimal(captured) + "/"@ + decimal(ENROLL_TARGET as nat)
}

/// Behind a capture, none is made before [`CAPTURE_INTERVAL`] has passed; from
/// then on, the next frame with exactly one face in it gives one.
pub proof fn law_captures_keep_their_interval(
    last: u64,
    faces: Seq<Rect>,
    cols: i32,
    rows: i32,
    now: u64,
)
    ensures
        action(Some(last), faces, cols, rows, now).capture ==> now >= last + CAPTURE_INTERVAL,
        now >= last + CAPTURE_INTERVAL && faces.len() == 1 && clamped(faces[0], cols, rows) is Some
            ==> action(Some(last), faces, cols, rows, now).capture,
{
}

/// A frame is used exactly if one face is visible and lies in it, at least in
/// part: that part is marked, and it is captured exactly if no sample was yet, or
/// the last one half a second ago or more.
pub proof fn law_a_single_face_is_captured(
    last: Option<u64>,
    faces: Seq<Rect>,
    cols: i32,
    rows: i32,
    now: u64,
)
    requires
        faces.len() == 1 ==> clampable(faces[0], cols, rows),
    ensures
        ({
            let out = action(last, faces, cols, rows, now);
            &&& faces.len() != 1 ==> out.highlight is None && !out.capture
            &&& faces.len() == 1 ==> forall|px: int, py: int| #[trigger]
                faces[0].covers(px, py) && 0 <= px < cols && 0 <= py < rows
                    <==> (out.highlight matches Some(r) && r.covers(px, py))
            &&& out.capture <==> out.highlight is Some && (last is None || now >= last->0
                + 500_000_000)
        }),
{
    if faces.len() == 1 {
        law_clamp_is_intersection(faces[0], cols, rows);
    }
}

} // verus!
