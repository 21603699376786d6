//! Live recognition: who a face is, where it is, and what is shown beside it.
use vstd::arithmetic::power2::{lemma_pow2_adds, lemma_pow2_pos, pow2};
use vstd::prelude::*;

use crate::arcface::{best_match, cosine, find_best_match, similarities};
use crate::camera::{next_fps, smoothed_fps};
use crate::embeddings::EmbeddingDb;
use crate::float::{lemma_parts, magnitude};
use crate::geometry::{bracket_at, fits, label_is, segment, Hud, Label, Rect, Segment};
use crate::ieee::{law_of_int_is_near, Binary32, Binary64};
use crate::length::{law_best_match_is_the_closest, law_root_is_near};
use crate::numerals::{digits_value, double_text, law_decimal3_is_the_number, push_double};
use crate::rounding::{
    double, law_nearest_exists, law_rounding_keeps_order, lemma_even_unit, lemma_multiple_order,
    lemma_multiple_zero, single,
};
use crate::text::{decimal, decimal3, push_decimal, push_decimal3};
use crate::tracker::{
    frame_after, kept, law_results_follow_detections, CentroidTracker, Detection, Track,
};

verus! {

/// Corner bracket half-length, in pixels, drawn at bounding-box corners.
pub const BRACKET_LEN: i32 = 30;

/// Similarity threshold for declaring a match: 0.4, as the nearest binary64
/// number.
///
/// Same-person pairs typically land in 0.4 to 0.8; cross-person pairs are
/// usually below 0.3.
pub open spec fn cosine_threshold() -> Binary64 {
    Binary64 { bits: 0x3fd9_9999_9999_999a }
}

/// Whether a similarity is a match: it is not below the threshold.
pub open spec fn matches_threshold(similarity: Binary64) -> bool {
    cosine_threshold().at_most(similarity)
}

/// A similarity is a match exactly if it is a number of at least two fifths.
pub proof fn law_match_is_two_fifths(similarity: Binary64)
    ensures
        matches_threshold(similarity) <==> !similarity.is_nan() && 5 * similarity.value() >= 2
            * pow2(1074),
{
    let format = double();
    let u = format.unit();
    let threshold = cosine_threshold();
    let (f, before) = (0x3fd9_9999_9999_999anat, 0x3fd9_9999_9999_9999nat);
    lemma_even_unit(format);
    lemma_parts(format, similarity.bits as nat);
    assert(threshold.fields() == f);
    assert(f % 0x10_0000_0000_0000 == 0x9_9999_9999_999a && f / 0x10_0000_0000_0000 == 1021);
    assert(before % 0x10_0000_0000_0000 == 0x9_9999_9999_9999 && before / 0x10_0000_0000_0000
        == 1021);
    let p = pow2(1020);
    lemma_pow2_pos(1020);
    lemma_pow2_adds(1020, 54);
    vstd::arithmetic::power2::lemma2_to64();
    vstd::arithmetic::power2::lemma2_to64_rest();
    assert(format.number(f) == 0x19_9999_9999_999a * p);
    assert(format.number(before) == 0x19_9999_9999_9999 * p);
    assert(pow2(1074) == 0x40_0000_0000_0000 * p);
    lemma_multiple_order(similarity.fields(), f, u);
    lemma_multiple_order(before, similarity.fields(), u);
    let (n, over, under, one) = (
        format.number(similarity.fields()),
        format.number(f),
        format.number(before),
        pow2(1074),
    );
    assert(n >= over ==> 5 * n >= 2 * one) by (nonlinear_arith)
        requires
            over == 0x19_9999_9999_999a * p,
            one == 0x40_0000_0000_0000 * p,
            p > 0,
    ;
    assert(n <= under ==> 5 * n < 2 * one) by (nonlinear_arith)
        requires
            under == 0x19_9999_9999_9999 * p,
            one == 0x40_0000_0000_0000 * p,
            p > 0,
    ;
}

/// Whether a similarity is a match.
pub fn is_match(similarity: Binary64) -> (yes: bool)
    ensures
        yes == matches_threshold(similarity),
{
    let threshold: Binary64 = Binary64 { bits: 0x3fd9_9999_9999_999a };
    threshold.is_at_most(similarity)
}

/// The name to show for the closest identity: `UNKNOWN` unless it is a match.
pub fn display_name(best_name: String, similarity: Binary64) -> (name: String)
    ensures
        name@ == if matches_threshold(similarity) {
            best_name@
        } else {
            "UNKNOWN"@
        },
{
    if is_match(similarity) {
        best_name
    } else {
        "UNKNOWN".to_owned()
    }
}

/// Half of a length, rounded toward zero.
pub open spec fn halved(v: int) -> int {
    if v >= 0 {
        v / 2
    } else {
        -((-v) / 2)
    }
}

fn halve(v: i32) -> (out: i32)
    ensures
        out == halved(v as int),
{
    if v >= 0 {
        v / 2
    } else {
        (0 - (0 - v as i64) / 2) as i32
    }
}

/// Centre and squared diagonal fit the coordinates.
pub open spec fn placeable(rect: Rect) -> bool {
    &&& fits(rect.x + halved(rect.width as int))
    &&& fits(rect.y + halved(rect.height as int))
    &&& fits(rect.width * rect.width + rect.height * rect.height)
}

/// Whether [`identify`] can be asked of the rectangle.
pub fn can_place(rect: Rect) -> (yes: bool)
    ensures
        yes == placeable(rect),
{
    let cx: i64 = rect.x as i64 + halve(rect.width) as i64;
    let cy: i64 = rect.y as i64 + halve(rect.height) as i64;
    let w: i128 = rect.width as i128;
    let h: i128 = rect.height as i128;
    assert(0 <= w * w <= 0x4000_0000_0000_0000) by (nonlinear_arith)
        requires
            -0x8000_0000 <= w < 0x8000_0000,
    ;
    assert(0 <= h * h <= 0x4000_0000_0000_0000) by (nonlinear_arith)
        requires
            -0x8000_0000 <= h < 0x8000_0000,
    ;
    let low: i64 = i32::MIN as i64;
    let high: i64 = i32::MAX as i64;
    low <= cx && cx <= high && low <= cy && cy <= high && w * w + h * h <= i32::MAX as i128
}

/// `d` is the detection of a face at `rect` whose closest identity has that name
/// and similarity: it has the rectangle's centre and diagonal, and the name to
/// show.
pub open spec fn detection_of(d: Detection, rect: Rect, name: Seq<char>, similarity: Binary64) -> bool {
    &&& d.cx == Binary32::of_int(rect.x + halved(rect.width as int))
    &&& d.cy == Binary32::of_int(rect.y + halved(rect.height as int))
    &&& d.face_diag == Binary32::of_int(
        rect.width * rect.width + rect.height * rect.height,
    ).root()
    &&& d.confidence == similarity
    &&& d.name@ == if matches_threshold(similarity) {
        name
    } else {
        "UNKNOWN"@
    }
}

/// `d` is the detection of a face at `rect` with that embedding: its name and
/// similarity are those of the closest identity.
pub open spec fn identified_as(
    db: Seq<(Seq<char>, Seq<Binary32>)>,
    embedding: Seq<Binary32>,
    rect: Rect,
    d: Detection,
) -> bool {
    exists|name: Seq<char>|
        #[trigger] best_match(db, similarities(db, embedding), name, d.confidence) && detection_of(
            d,
            rect,
            name,
            d.confidence,
        )
}

/// The detection of a face at `rect` with that embedding, and whether it is one
/// of the enrolled identities.
pub fn identify(
    db: &EmbeddingDb<Binary32>,
    embedding: &[Binary32],
    rect: Rect,
) -> (identified: (Detection, bool))
    requires
        placeable(rect),
    ensures
        identified_as(db@, embedding@, rect, identified.0),
        identified.1 == matches_threshold(identified.0.confidence),
{
    let (best_name, similarity) = find_best_match(db, embedding);
    let ghost name = best_name@;
    let found: bool = is_match(similarity);
    let w: i32 = rect.width;
    let h: i32 = rect.height;
    assert(0 <= w * w && 0 <= h * h) by (nonlinear_arith);
    let detection: Detection = Detection {
        cx: Binary32::from_i32(rect.x + halve(w)),
        cy: Binary32::from_i32(rect.y + halve(h)),
        name: display_name(best_name, similarity),
        confidence: similarity,
        face_diag: Binary32::from_i32(w * w + h * h).sqrt(),
    };
    assert(best_match(db@, similarities(db@, embedding@), name, detection.confidence)
        && detection_of(detection, rect, name, detection.confidence));
    (detection, found)
}

// ---------------------------------------------------------------------------
// Display
// ---------------------------------------------------------------------------

/// The brackets and the text beside the box fit the coordinates.
pub open spec fn hud_fits(rect: Rect) -> bool {
    &&& fits(rect.x + BRACKET_LEN)
    &&& fits(rect.y + BRACKET_LEN)
    &&& fits(rect.y + rect.height)
    &&& fits(rect.y + rect.height - BRACKET_LEN)
    &&& fits(rect.x + rect.width)
    &&& fits(rect.x + rect.width + 15)
    &&& fits(rect.y + 72)
}

/// Whether [`face_hud`] can be asked of the box.
pub fn can_draw_face_hud(rect: Rect) -> (yes: bool)
    ensures
        yes == hud_fits(rect),
{
    let low: i64 = i32::MIN as i64;
    let high: i64 = i32::MAX as i64;
    let len: i64 = BRACKET_LEN as i64;
    let x: i64 = rect.x as i64;
    let y: i64 = rect.y as i64;
    let right: i64 = x + rect.width as i64;
    let bottom: i64 = y + rect.height as i64;
    x + len <= high && bottom <= high && low <= bottom - len && low <= right && right + 15 <= high
        && y + 72 <= high
}

/// The brackets at the upper left and the lower left corner of a box.
pub open spec fn left_brackets(rect: Rect) -> Seq<Segment> {
    let (l, t) = (rect.x as int, rect.y as int);
    let b = rect.y + rect.height;
    let len = BRACKET_LEN as int;
    seq![
        segment(l, t, l + len, t),
        segment(l, t, l, t + len),
        segment(l, b, l + len, b),
        segment(l, b, l, b - len),
    ]
}

/// The word for whether a face was matched.
pub open spec fn status_word(is_match: bool) -> Seq<char> {
    if is_match {
        "MATCH"@
    } else {
        "UNKNOWN"@
    }
}

/// What is drawn for a face: brackets beside it, and to its right the track ID,
/// the name, the smoothed similarity and the status.
pub open spec fn shows_face(
    hud: Hud,
    rect: Rect,
    is_match: bool,
    track_id: u32,
    confidence: Binary64,
    display_name: Seq<char>,
) -> bool {
    let x = rect.x + rect.width + 15;
    let y = rect.y + 18;
    &&& hud.segments@ == left_brackets(rect)
    &&& hud.labels@.len() == 4
    &&& label_is(hud.labels@[0], "TRACK  : #"@ + decimal3(track_id as nat), x, y)
    &&& label_is(hud.labels@[1], "NAME   : "@ + display_name, x, y + 18)
    &&& label_is(hud.labels@[2], "SIM    : "@ + double_text(confidence, 2), x, y + 36)
    &&& label_is(hud.labels@[3], "STATUS : "@ + status_word(is_match), x, y + 54)
}

/// Corner brackets beside a face, and the identity information to its right:
/// track ID, name, smoothed similarity and status.
pub fn face_hud(
    rect: Rect,
    is_match: bool,
    track_id: u32,
    confidence: Binary64,
    display_name: &str,
) -> (hud: Hud)
    requires
        hud_fits(rect),
    ensures
        shows_face(hud, rect, is_match, track_id, confidence, display_name@),
{
    let (l, t) = (rect.x, rect.y);
    let b: i32 = rect.y + rect.height;
    let l_in: i32 = l + BRACKET_LEN;
    let t_in: i32 = t + BRACKET_LEN;
    let b_in: i32 = b - BRACKET_LEN;
    let segments: Vec<Segment> = vec![
        Segment { x1: l, y1: t, x2: l_in, y2: t },
        Segment { x1: l, y1: t, x2: l, y2: t_in },
        Segment { x1: l, y1: b, x2: l_in, y2: b },
        Segment { x1: l, y1: b, x2: l, y2: b_in },
    ];
    assert(segments@ =~= left_brackets(rect));
    let mut track: String = "TRACK  : #".to_owned();
    push_decimal3(&mut track, track_id as u64);
    let mut name: String = "NAME   : ".to_owned();
    name.append(display_name);
    let mut sim: String = "SIM    : ".to_owned();
    push_double(&mut sim, confidence, 2);
    let mut status: String = "STATUS : ".to_owned();
    status.append(
        if is_match {
            "MATCH"
        } else {
            "UNKNOWN"
        },
    );
    let x: i32 = rect.x + rect.width + 15;
    let (y0, y1, y2, y3): (i32, i32, i32, i32) = (t + 18, t + 36, t + 54, t + 72);
    let labels: Vec<Label> = vec![
        Label { text: track, x, y: y0 },
        Label { text: name, x, y: y1 },
        Label { text: sim, x, y: y2 },
        Label { text: status, x, y: y3 },
    ];
    Hud { segments, labels }
}

/// The line that says how many identities are enrolled, and the threshold.
pub fn identities_line(count: usize) -> (line: String)
    ensures
        line@ == "IDENTITIES: "@ + decimal(count as nat) + "  //  THRESHOLD: 0.40"@,
{
    let mut line: String = "IDENTITIES: ".to_owned();
    push_decimal(&mut line, count as u64);
    line.append("  //  THRESHOLD: 0.40");
    line
}

/// Whether a key ends a live view: `q` or Esc.
pub fn is_exit_key(key: i32) -> (yes: bool)
    ensures
        yes == (key == 'q' as int || key == 27),
{
    key == 113 || key == 27
}

// ---------------------------------------------------------------------------
// The live view
// ---------------------------------------------------------------------------

/// What is drawn for one face, and whether it is one of the enrolled
/// identities.
#[derive(Debug)]
pub struct FaceView {
    pub hud: Hud,
    pub is_match: bool,
}

/// A running recognition: the enrolled identities, the tracks of the faces in
/// view, and the smoothed frame rate.
pub struct RecognizeSession {
    db: EmbeddingDb<Binary32>,
    tracker: CentroidTracker,
    fps: Binary64,
}

/// `ds` are the detections of the faces at these rectangles, of which each has
/// its embedding.
pub open spec fn detections_of(
    db: Seq<(Seq<char>, Seq<Binary32>)>,
    faces: Seq<Rect>,
    embeddings: Seq<Vec<Binary32>>,
    ds: Seq<Detection>,
) -> bool {
    &&& ds.len() == faces.len()
    &&& forall|i: int|
        0 <= i < ds.len() ==> identified_as(db, embeddings[i]@, faces[i], #[trigger] ds[i])
}

/// The rectangles fit the coordinates, with their brackets and texts.
pub open spec fn showable(faces: Seq<Rect>) -> bool {
    forall|i: int| 0 <= i < faces.len() ==> placeable(#[trigger] faces[i]) && hud_fits(faces[i])
}

/// Whether [`RecognizeSession::on_faces`] can be asked of the rectangles.
pub fn can_show(faces: &Vec<Rect>) -> (yes: bool)
    ensures
        yes == showable(faces@),
{
    for i in 0..faces.len()
        invariant
            forall|j: int|
                0 <= j < i ==> placeable(#[trigger] faces@[j]) && hud_fits(faces@[j]),
    {
        if !can_place(faces[i]) || !can_draw_face_hud(faces[i]) {
            return false;
        }
    }
    true
}

impl RecognizeSession {
    /// The enrolled identities.
    pub closed spec fn known(&self) -> Seq<(Seq<char>, Seq<Binary32>)> {
        self.db@
    }

    /// The tracks of the faces in view, oldest first.
    pub closed spec fn track_seq(&self) -> Seq<Track> {
        self.tracker.track_seq()
    }

    /// The ID of the next track.
    pub closed spec fn next_id(&self) -> u32 {
        self.tracker.next_id()
    }

    /// The smoothed frame rate.
    pub closed spec fn rate(&self) -> Binary64 {
        self.fps
    }

    /// The tracker is in order.
    pub closed spec fn well_formed(&self) -> bool {
        self.tracker.well_formed()
    }

    /// A recognition without tracks; `None` if nobody is enrolled.
    pub fn start(db: EmbeddingDb<Binary32>) -> (session: Option<RecognizeSession>)
        ensures
            session is Some <==> db@.len() > 0,
            session matches Some(s) ==> {
                &&& s.well_formed()
                &&& s.known() == db@
                &&& s.track_seq() == Seq::<Track>::empty()
                &&& s.next_id() == 1
                &&& s.rate() == (Binary64 { bits: 0 })
            },
    {
        if db.is_empty() {
            None
        } else {
            Some(RecognizeSession { db, tracker: CentroidTracker::new(), fps: Binary64 { bits: 0 } })
        }
    }

    /// The smoothed frame rate.
    pub fn fps(&self) -> (fps: Binary64)
        ensures
            fps == self.rate(),
    {
        self.fps
    }

    /// The number of enrolled identities.
    pub fn identity_count(&self) -> (n: usize)
        ensures
            n == self.known().len(),
    {
        self.db.len()
    }

    /// Takes note of a frame that came `dt` seconds after the one before.
    pub fn on_frame(&mut self, dt: Binary64)
        ensures
            final(self).rate() == smoothed_fps(old(self).rate(), dt),
            final(self).known() == old(self).known(),
            final(self).track_seq() == old(self).track_seq(),
            final(self).next_id() == old(self).next_id(),
            final(self).well_formed() == old(self).well_formed(),
    {
        self.fps = next_fps(self.fps, dt);
    }

    /// Identifies the faces of a frame by their embeddings, brings the tracks up
    /// to date, and returns what is drawn for each face.
    pub fn on_faces(
        &mut self,
        faces: &Vec<Rect>,
        embeddings: &Vec<Vec<Binary32>>,
    ) -> (views: Vec<FaceView>)
        requires
            old(self).well_formed(),
            embeddings@.len() == faces@.len(),
            showable(faces@),
        ensures
            final(self).well_formed(),
            final(self).known() == old(self).known(),
            final(self).rate() == old(self).rate(),
            exists|ds: Seq<Detection>|
                #[trigger] detections_of(old(self).known(), faces@, embeddings@, ds)
                    && frame_shown(
                    old(self).track_seq(),
                    old(self).next_id(),
                    faces@,
                    ds,
                    final(self).track_seq(),
                    final(self).next_id(),
                    views@,
                ),
    {
        let mut detections: Vec<Detection> = Vec::new();
        let mut matches: Vec<bool> = Vec::new();
        for i in 0..faces.len()
            invariant
                embeddings@.len() == faces@.len(),
                showable(faces@),
                self.db == old(self).db,
                self.tracker == old(self).tracker,
                self.fps == old(self).fps,
                detections@.len() == i,
                matches@.len() == i,
                forall|j: int|
                    0 <= j < i ==> identified_as(
                        self.db@,
                        embeddings@[j]@,
                        faces@[j],
                        #[trigger] detections@[j],
                    ) && matches@[j] == matches_threshold(detections@[j].confidence),
        {
            let (detection, is_match) = identify(&self.db, &embeddings[i], faces[i]);
            detections.push(detection);
            matches.push(is_match);
        }
        let ghost ds = detections@;
        assert(detections_of(old(self).known(), faces@, embeddings@, ds));
        let results: Vec<(u32, String, Binary64)> = self.tracker.update(&detections);
        let ghost f = frame_after(
            old(self).track_seq(),
            old(self).next_id(),
            ds,
            ds.len() as int,
        );
        proof {
            law_results_follow_detections(
                old(self).track_seq(),
                old(self).next_id(),
                ds,
                ds.len() as int,
            );
        }
        let mut views: Vec<FaceView> = Vec::new();
        for i in 0..faces.len()
            invariant
                showable(faces@),
                results@ == f.results,
                results@.len() == faces@.len(),
                matches@.len() == faces@.len(),
                ds.len() == faces@.len(),
                forall|j: int|
                    0 <= j < faces@.len() ==> matches@[j] == matches_threshold(
                        (#[trigger] ds[j]).confidence,
                    ),
                views@.len() == i,
                forall|j: int|
                    0 <= j < i ==> shows_result(
                        #[trigger] views@[j],
                        faces@[j],
                        ds[j],
                        f.results[j],
                    ),
        {
            assert(placeable(faces@[i as int]) && hud_fits(faces@[i as int]));
            assert(matches@[i as int] == matches_threshold(ds[i as int].confidence));
            let result: &(u32, String, Binary64) = &results[i];
            let hud: Hud = face_hud(
                faces[i],
                matches[i],
                result.0,
                result.2,
                result.1.as_str(),
            );
            views.push(FaceView { hud, is_match: matches[i] });
        }
        assert(frame_shown(
            old(self).track_seq(),
            old(self).next_id(),
            faces@,
            ds,
            self.track_seq(),
            self.next_id(),
            views@,
        ));
        views
    }
}

/// A face is shown with the result of its track, and with the status that its
/// own similarity gives it.
pub open spec fn shows_result(
    view: FaceView,
    rect: Rect,
    d: Detection,
    result: (u32, String, Binary64),
) -> bool {
    &&& view.is_match == matches_threshold(d.confidence)
    &&& shows_face(view.hud, rect, view.is_match, result.0, result.2, result.1@)
}

/// A frame with these detections turned the tracks and the next ID into those
/// after it, and every face is shown with its result.
pub open spec fn frame_shown(
    tracks: Seq<Track>,
    next: u32,
    faces: Seq<Rect>,
    ds: Seq<Detection>,
    tracks_after: Seq<Track>,
    next_after: u32,
    views: Seq<FaceView>,
) -> bool {
    let f = frame_after(tracks, next, ds, ds.len() as int);
    &&& tracks_after == kept(f.tracks, f.results)
    &&& next_after == f.next_track_id
    &&& views.len() == faces.len()
    &&& forall|i: int|
        0 <= i < faces.len() ==> shows_result(#[trigger] views[i], faces[i], ds[i], f.results[i])
}

/// What is said if nobody is enrolled.
pub fn no_identities_text() -> (text: &'static str)
    ensures
        text@
            == "[-] No enrolled identities found. Enroll someone first:\n    cargo run -- enroll <name>"@,
{
    "[-] No enrolled identities found. Enroll someone first:\n    cargo run -- enroll <name>"
}

/// What is said when recognition begins.
pub fn online_text(count: usize) -> (text: String)
    ensures
        text@ == "[*] ARCFACE RECOGNITION ENGINE ONLINE // "@ + decimal(count as nat)
            + " known identities loaded"@,
{
    let mut text: String = "[*] ARCFACE RECOGNITION ENGINE ONLINE // ".to_owned();
    push_decimal(&mut text, count as u64);
    text.append(" known identities loaded");
    text
}

/// The brackets of a face hold the two corners at its left, inwards by 30 pixels,
/// and there is nothing else.
pub proof fn law_face_brackets_hold_the_left_corners(rect: Rect)
    requires
        hud_fits(rect),
    ensures
        ({
            let (l, t, b) = (rect.x as int, rect.y as int, rect.y + rect.height);
            &&& left_brackets(rect).len() == 4
            &&& bracket_at(left_brackets(rect), l, t, true, true, 30)
            &&& bracket_at(left_brackets(rect), l, b, true, false, 30)
        }),
{
    let all = left_brackets(rect);
    let (l, t, b) = (rect.x as int, rect.y as int, rect.y + rect.height);
    assert(all[0].x2 == l + 30 && all[0].y2 == t);
    assert(all[1].x2 == l && all[1].y2 == t + 30);
    assert(all[2].x1 == l && all[2].y1 == b && all[2].x2 == l + 30 && all[2].y2 == b);
    assert(all[3].x1 == l && all[3].y1 == b && all[3].x2 == l && all[3].y2 == b - 30);
}

/// The texts of a face stand in a column, 15 pixels to the right of it and 18
/// pixels from line to line, and a face elsewhere has them elsewhere by as much.
pub proof fn law_face_texts_stand_in_a_column(
    hud: Hud,
    rect: Rect,
    is_match: bool,
    track_id: u32,
    confidence: Binary64,
    name: Seq<char>,
    k: int,
)
    requires
        shows_face(hud, rect, is_match, track_id, confidence, name),
        0 <= k < hud.labels@.len(),
    ensures
        hud.labels@.len() == 4,
        hud.labels@[k].x - (rect.x + rect.width) == 15,
        hud.labels@[k].y - rect.y == 18 * (k + 1),
{
}

/// The texts of a face tell its track, its name, its similarity and whether it is
/// a match, one each.
pub proof fn law_face_texts_tell_who_it_is(
    hud: Hud,
    rect: Rect,
    is_match: bool,
    track_id: u32,
    confidence: Binary64,
    name: Seq<char>,
) -> (digits: Seq<char>)
    requires
        shows_face(hud, rect, is_match, track_id, confidence, name),
    ensures
        digits_value(digits) == track_id,
        digits.len() >= 3,
        hud.labels@[0].text@ == "TRACK  : #"@ + digits,
        hud.labels@[1].text@ == "NAME   : "@ + name,
        hud.labels@[2].text@ == "SIM    : "@ + double_text(confidence, 2),
        hud.labels@[3].text@ == if is_match {
            "STATUS : "@ + "MATCH"@
        } else {
            "STATUS : "@ + "UNKNOWN"@
        },
{
    law_decimal3_is_the_number(track_id as nat);
    decimal3(track_id as nat)
}

/// Every face of a frame is shown, and shown as what its own embedding makes it:
/// with the status of its similarity, under the ID and the name of its result,
/// with the smoothed similarity, and beside its own rectangle.
pub proof fn law_every_face_is_shown(
    tracks: Seq<Track>,
    next: u32,
    faces: Seq<Rect>,
    ds: Seq<Detection>,
    tracks_after: Seq<Track>,
    next_after: u32,
    views: Seq<FaceView>,
    i: int,
)
    requires
        frame_shown(tracks, next, faces, ds, tracks_after, next_after, views),
        ds.len() == faces.len(),
        0 <= i < faces.len(),
    ensures
        views.len() == faces.len(),
        views[i].is_match <==> !ds[i].confidence.is_nan() && 5 * ds[i].confidence.value() >= 2
            * pow2(1074),
        views[i].hud.labels@[1].text@ == "NAME   : "@ + ds[i].name@,
        views[i].hud.labels@[0].text@ == "TRACK  : #"@ + decimal3(
            frame_after(tracks, next, ds, ds.len() as int).results[i].0 as nat,
        ),
        views[i].hud.labels@[2].text@ == "SIM    : "@ + double_text(
            frame_after(tracks, next, ds, ds.len() as int).results[i].2,
            2,
        ),
        views[i].hud.labels@[0].x - (faces[i].x + faces[i].width) == 15,
        views[i].hud.labels@[0].y - faces[i].y == 18,
        hud_fits(faces[i]) ==> bracket_at(
            views[i].hud.segments@,
            faces[i].x as int,
            faces[i].y as int,
            true,
            true,
            30,
        ),
{
    if hud_fits(faces[i]) {
        law_face_brackets_hold_the_left_corners(faces[i]);
    }
    law_match_is_two_fifths(ds[i].confidence);
    law_results_follow_detections(tracks, next, ds, ds.len() as int);
    assert(shows_result(
        views[i],
        faces[i],
        ds[i],
        frame_after(tracks, next, ds, ds.len() as int).results[i],
    ));
}

/// A detection has the centre of its rectangle, to the half pixel, and its
/// diagonal, each up to rounding; it has the name of the closest identity exactly
/// if that one is similar by two fifths or more.
pub proof fn law_detection_is_where_the_face_is(
    d: Detection,
    rect: Rect,
    name: Seq<char>,
    similarity: Binary64,
)
    requires
        detection_of(d, rect, name, similarity),
        placeable(rect),
    ensures
        ({
            let t = pow2(149) as int;
            let square = (rect.width * rect.width + rect.height * rect.height) * (t * t);
            let diag = d.face_diag.value() * d.face_diag.value();
            &&& d.cx.finite() && d.cy.finite() && d.face_diag.finite()
            &&& is_centre(d.cx, rect.x as int, rect.width as int)
            &&& is_centre(d.cy, rect.y as int, rect.height as int)
            &&& d.face_diag.value() >= 0
            &&& -square <= 0x4_0000 * (diag - square) <= square
            &&& d.confidence == similarity
            &&& d.name@ == if !similarity.is_nan() && 5 * similarity.value() >= 2 * pow2(1074) {
                name
            } else {
                "UNKNOWN"@
            }
        }),
{
    let (w, h) = (rect.width as int, rect.height as int);
    law_match_is_two_fifths(similarity);
    lemma_centre(rect.x as int, w);
    lemma_centre(rect.y as int, h);
    lemma_diagonal(w, h);
}

/// The number is half way between two ends, to half a pixel and a share of 1/2^24
/// of the ends.
pub open spec fn is_centre(c: Binary32, x: int, width: int) -> bool {
    let t = pow2(149) as int;
    let off = 2 * c.value() - (2 * x + width) * t;
    let most = (0x100_0000 + 2 * magnitude(x) + magnitude(width)) * t + 0x100_0000;
    -most <= 0x100_0000 * off <= most
}

proof fn lemma_centre(x: int, w: int)
    requires
        fits(x + halved(w)),
    ensures
        Binary32::of_int(x + halved(w)).finite(),
        is_centre(Binary32::of_int(x + halved(w)), x, w),
{
    let t = pow2(149) as int;
    let c = x + halved(w);
    let v = Binary32::of_int(c).value();
    lemma_pow2_pos(149);
    law_of_int_is_near(c);
    lemma_of_int_reaches(c);
    let k = 2 * c - (2 * x + w);
    assert(-1 <= k <= 1);
    assert(2 * (c * t) - (2 * x + w) * t == k * t) by (nonlinear_arith)
        requires
            k == 2 * c - (2 * x + w),
    ;
    let m = 2 * magnitude(x) + magnitude(w);
    assert(-t <= k * t <= t && 2 * magnitude(c * t) <= m * t && (0x100_0000 + m) * t
        == 0x100_0000 * t + m * t) by (nonlinear_arith)
        requires
            -1 <= k <= 1,
            t > 0,
            2 * magnitude(c) <= m,
    {
        assert(magnitude(c * t) == magnitude(c) * t);
        assert((2 * magnitude(c)) * t <= m * t);
    }
}

proof fn lemma_diagonal(w: int, h: int)
    requires
        fits(w * w + h * h),
    ensures
        ({
            let d = Binary32::of_int(w * w + h * h).root();
            let t = pow2(149) as int;
            let square = (w * w + h * h) * (t * t);
            &&& d.finite()
            &&& d.value() >= 0
            &&& -square <= 0x4_0000 * (d.value() * d.value() - square) <= square
        }),
{
    let s = w * w + h * h;
    let t = pow2(149) as int;
    let v = Binary32::of_int(s);
    let d = v.root();
    assert(s >= 0) by (nonlinear_arith)
        requires
            s == w * w + h * h,
    ;
    lemma_even_unit(single());
    lemma_pow2_pos(149);
    law_of_int_is_near(s);
    lemma_of_int_reaches(s);
    lemma_parts(single(), v.bits as nat);
    lemma_multiple_zero(v.fields(), single().unit());
    lemma_multiple_zero(0, single().unit());
    let square = s * (t * t);
    if s == 0 {
        assert(0 * t == 0 && 0 * (t * t) == 0) by (nonlinear_arith);
        assert(v.value() == 0);
        assert(v.fields() == 0);
        assert(d == v);
        let r = d.value();
        assert(r * r == 0) by (nonlinear_arith)
            requires
                r == 0,
        ;
    } else {
        assert(s * t >= t) by (nonlinear_arith)
            requires
                s >= 1,
                t > 0,
        ;
        lemma_pow2_adds(64, 85);
        lemma_pow2_pos(85);
        vstd::arithmetic::power2::lemma2_to64();
        assert(t >= 0x1_0000_0000_0000_0000) by {
            let (a, b) = (pow2(64) as int, pow2(85) as int);
            assert(a * b >= a) by (nonlinear_arith)
                requires
                    b >= 1,
                    a >= 0,
            ;
        }
        assert(v.value() > 0);
        law_root_is_near(v);
        let x = v.value() * t;
        let off = v.value() - s * t;
        assert(x - square == off * t) by (nonlinear_arith)
            requires
                x == v.value() * t,
                square == s * (t * t),
                off == v.value() - s * t,
        ;
        let st = s * t;
        assert(-(2 * square) <= 0x100_0000 * (off * t) <= 2 * square) by (nonlinear_arith)
            requires
                -(2 * st) <= 0x100_0000 * off <= 2 * st,
                st == s * t,
                square == s * (t * t),
                t > 0,
        {
            assert((2 * st) * t == 2 * square);
            assert((0x100_0000 * off) * t == 0x100_0000 * (off * t));
            assert((0x100_0000 * off) * t <= (2 * st) * t);
            assert((0x100_0000 * off) * t >= (-(2 * st)) * t);
        }
        assert(square >= 0) by (nonlinear_arith)
            requires
                square == s * (t * t),
                s >= 0,
        ;
        let root = d.value() * d.value();
        assert(root >= 0) by (nonlinear_arith)
            requires
                root == d.value() * d.value(),
        ;
        assert(d.fields() == d.bits as nat % 0x8000_0000);
        assert(d.finite() && d.value() >= 0);
        assert(-root <= 0x10_0000 * (x - root) <= root);
        assert(-square <= 0x4_0000 * (root - square) <= square);
    }
}

/// An integer within the range of `i32` is finite in the format.
proof fn lemma_of_int_reaches(s: int)
    requires
        fits(s),
    ensures
        Binary32::of_int(s).finite(),
        s >= 0 ==> Binary32::of_int(s).bits < 0x7f80_0000,
{
    let format = single();
    let t = pow2(149);
    let n = magnitude(s) as nat;
    lemma_even_unit(format);
    lemma_pow2_pos(149);
    law_nearest_exists(format, n * t, 1);
    assert(0x4f00_0000nat % 0x80_0000 == 0 && 0x4f00_0000nat / 0x80_0000 == 158);
    lemma_pow2_adds(23, 157);
    lemma_pow2_adds(31, 149);
    vstd::arithmetic::power2::lemma2_to64();
    let (u, p) = (0x80_0000nat, pow2(157));
    assert((u + 0) * p == u * p);
    assert(n * t <= 0x8000_0000 * t) by (nonlinear_arith)
        requires
            n <= 0x8000_0000,
    ;
    law_rounding_keeps_order(format, n * t, 1, 0x4f00_0000);
    let bits = format.of_int(s);
    assert(bits % 0x8000_0000 == format.rounded(n * t, 1));
}

/// Faces of up to thirty thousand pixels to a side, as far away, can be shown.
pub proof fn law_faces_of_a_frame_are_handled(faces: Seq<Rect>)
    requires
        forall|i: int| #![trigger faces[i]]
            0 <= i < faces.len() ==> {
                &&& -30_000 <= faces[i].x <= 30_000 && -30_000 <= faces[i].y <= 30_000
                &&& 0 <= faces[i].width <= 30_000 && 0 <= faces[i].height <= 30_000
            },
    ensures
        showable(faces),
{
    assert forall|i: int| 0 <= i < faces.len() implies placeable(#[trigger] faces[i]) && hud_fits(
        faces[i],
    ) by {
        let (w, h) = (faces[i].width as int, faces[i].height as int);
        assert(0 <= w * w <= 900_000_000 && 0 <= h * h <= 900_000_000) by (nonlinear_arith)
            requires
                0 <= w <= 30_000,
                0 <= h <= 30_000,
        ;
    }
}

/// Every face of a frame gets a detection of its own, with the similarity of the
/// identity that is closest to its own embedding: no enrolled one is closer.
pub proof fn law_every_face_is_identified(
    db: Seq<(Seq<char>, Seq<Binary32>)>,
    faces: Seq<Rect>,
    embeddings: Seq<Vec<Binary32>>,
    ds: Seq<Detection>,
    i: int,
    j: int,
)
    requires
        detections_of(db, faces, embeddings, ds),
        0 <= i < faces.len(),
        0 <= j < db.len(),
    ensures
        ds.len() == faces.len(),
        ({
            let sim = cosine(embeddings[i]@, db[j].1);
            !sim.is_nan() && sim.value() > -pow2(1074) ==> sim.value() <= ds[i].confidence.value()
        }),
        exists|name: Seq<char>| #[trigger]
            detection_of(ds[i], faces[i], name, ds[i].confidence) && (name == "UNKNOWN"@ || exists|
                k: int,
            |
                0 <= k < db.len() && (#[trigger] db[k]).0 == name && cosine(embeddings[i]@, db[k].1)
                    == ds[i].confidence),
{
    let query = embeddings[i]@;
    let d = ds[i];
    assert(identified_as(db, query, faces[i], d));
    let name = choose|name: Seq<char>|
        #[trigger] best_match(db, similarities(db, query), name, d.confidence) && detection_of(
            d,
            faces[i],
            name,
            d.confidence,
        );
    law_best_match_is_the_closest(db, query, name, d.confidence);
    assert(db[j].0 == db[j].0);
    assert(detection_of(d, faces[i], name, d.confidence));
}

} // verus!
