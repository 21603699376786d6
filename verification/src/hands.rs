//! Hand tracking: choosing hand candidates, reading the landmark model's
//! outputs, and laying out the skeleton and its captions.
use vstd::arithmetic::power2::{lemma_pow2_adds, lemma_pow2_pos, pow2};
use vstd::prelude::*;

use crate::detect::{can_clamp, clamp_rect, clampable, clamped, law_clamp_is_intersection};
use crate::float::{lemma_parts, magnitude};
use crate::geometry::{bracket_at, fits, label_is, segment, Hud, Label, Rect, Segment};
use crate::ieee::{
    law_of_int_is_near, law_product_is_near, law_quotient_is_near, law_sum_is_near,
    law_whole_is_within_one, Binary32, Binary64,
};
use crate::big::ten_to;
use crate::numerals::{
    digits_value, law_text_is_the_nearest_numeral, numeral, push_single, single_text,
};
use crate::rounding::{
    double, law_nearest_exists, law_rounding_is_monotone, law_rounding_keeps_order,
    lemma_below_middle, lemma_even_unit, lemma_multiple_order, lemma_multiple_zero, single,
};

verus! {

/// Path to the MediaPipe hand landmark ONNX model, relative to the project root.
pub const HAND_MODEL: &'static str = "data/models/handpose_estimation_mediapipe_2023feb.onnx";

/// The model expects a square input of this side.
pub const MODEL_INPUT_SIZE: i32 = 224;

/// Number of keypoints in the MediaPipe hand skeleton.
pub const NUM_LANDMARKS: usize = 21;

/// At most this many hands are tracked.
pub const MAX_HANDS: usize = 2;

/// A crop with a shorter side is no hand.
pub const MIN_CROP_SIDE: i32 = 50;

/// Corner bracket half-length, in pixels.
pub const BRACKET_TICK: i32 = 18;

// ---------------------------------------------------------------------------
// Candidates
// ---------------------------------------------------------------------------

/// Minimum contour area of a hand candidate at the resolution at which skin is
/// detected: 1500 square pixels, which is 6000 at the original resolution.
pub open spec fn min_area() -> Binary64 {
    Binary64 { bits: 0x4097_7000_0000_0000 }
}

/// Whether a contour of that area is large enough for a hand.
pub open spec fn hand_sized(area: Binary64) -> bool {
    min_area().at_most(area)
}

/// Whether contour `i` comes before contour `j`: it is larger, or as large and
/// found earlier.
pub open spec fn ahead(areas: Seq<Binary64>, i: int, j: int) -> bool {
    areas[i].value() > areas[j].value() || (areas[i].value() == areas[j].value() && i < j)
}

/// `picked` holds the foremost hand-sized contours, at most [`MAX_HANDS`], from
/// the largest down.
pub open spec fn foremost(areas: Seq<Binary64>, picked: Seq<usize>) -> bool {
    &&& picked.len() <= MAX_HANDS
    &&& forall|a: int|
        0 <= a < picked.len() ==> #[trigger] picked[a] < areas.len() && hand_sized(
            areas[picked[a] as int],
        )
    &&& forall|a: int, b: int|
        0 <= a < b < picked.len() ==> ahead(
            areas,
            #[trigger] picked[a] as int,
            #[trigger] picked[b] as int,
        )
    &&& forall|j: int|
        0 <= j < areas.len() && hand_sized(#[trigger] areas[j]) && !picked.contains(j as usize)
            ==> picked.len() == MAX_HANDS && ahead(areas, picked[MAX_HANDS - 1] as int, j)
}

/// The contours of the two largest hand-sized areas, from the largest down; of
/// two as large, the one found earlier comes first.
pub fn find_hand_candidates(areas: &Vec<Binary64>) -> (picked: Vec<usize>)
    ensures
        foremost(areas@, picked@),
{
    let least: Binary64 = Binary64 { bits: 0x4097_7000_0000_0000 };
    let mut first: Option<usize> = None;
    let mut second: Option<usize> = None;
    for i in 0..areas.len()
        invariant
            least == min_area(),
            best_two(areas@, i as int, first, second),
    {
        let area: Binary64 = areas[i];
        if least.is_at_most(area) {
            match first {
                None => {
                    first = Some(i);
                },
                Some(f) => {
                    if areas[f].is_less(area) {
                        second = Some(f);
                        first = Some(i);
                    } else {
                        match second {
                            None => {
                                second = Some(i);
                            },
                            Some(s) => {
                                if areas[s].is_less(area) {
                                    second = Some(i);
                                }
                            },
                        }
                    }
                },
            }
        }
    }
    let mut picked: Vec<usize> = Vec::new();
    if let Some(f) = first {
        picked.push(f);
        if let Some(s) = second {
            picked.push(s);
        }
    }
    proof {
        assert forall|j: int|
            0 <= j < areas@.len() && hand_sized(#[trigger] areas@[j]) && !picked@.contains(
                j as usize,
            ) implies picked@.len() == MAX_HANDS && ahead(
            areas@,
            picked@[MAX_HANDS - 1] as int,
            j,
        ) by {
            if picked@.len() > 0 {
                assert(picked@[0] == first->0);
            }
            if picked@.len() > 1 {
                assert(picked@[1] == second->0);
            }
            assert(first is Some && j != first->0);
            assert(second is Some && j != second->0);
        }
    }
    picked
}

/// The candidates are the two largest contours of at least 1500 square pixels:
/// all picked are that large and different from one another, the larger first,
/// and a contour as large that is not picked comes behind two that are no
/// smaller.
pub proof fn law_candidates_are_the_largest(areas: Seq<Binary64>, picked: Seq<usize>, j: int)
    requires
        areas.len() <= usize::MAX,
        foremost(areas, picked),
        0 <= j < areas.len(),
    ensures
        picked.len() <= 2,
        forall|a: int|
            0 <= a < picked.len() ==> #[trigger] picked[a] < areas.len()
                && !areas[picked[a] as int].is_nan() && areas[picked[a] as int].value() >= 1500
                * pow2(1074),
        picked.len() == 2 ==> picked[0] != picked[1] && areas[picked[0] as int].value()
            >= areas[picked[1] as int].value(),
        !areas[j].is_nan() && areas[j].value() >= 1500 * pow2(1074) && !picked.contains(j as usize)
            ==> picked.len() == 2 && areas[picked[1] as int].value() >= areas[j].value(),
{
    lemma_min_area();
    assert forall|a: int| 0 <= a < picked.len() implies #[trigger] picked[a] < areas.len()
        && !areas[picked[a] as int].is_nan() && areas[picked[a] as int].value() >= 1500
        * pow2(1074) by {
        assert(hand_sized(areas[picked[a] as int]));
    }
    if picked.len() == 2 {
        assert(ahead(areas, picked[0] as int, picked[1] as int));
    }
    if !areas[j].is_nan() && areas[j].value() >= 1500 * pow2(1074) && !picked.contains(
        j as usize,
    ) {
        assert(hand_sized(areas[j]));
    }
}

/// 1500, as an area.
proof fn lemma_min_area()
    ensures
        min_area().value() == 1500 * pow2(1074),
        !min_area().is_nan(),
{
    let f = 0x4097_7000_0000_0000nat;
    lemma_even_unit(double());
    assert(f % 0x8000_0000_0000_0000 == f);
    assert(f % 0x10_0000_0000_0000 == 0x7_7000_0000_0000 && f / 0x10_0000_0000_0000 == 1033);
    lemma_pow2_adds(42, 1032);
    vstd::arithmetic::power2::lemma2_to64_rest();
    let (u, p) = (0x10_0000_0000_0000nat, pow2(1032));
    assert((u + 0x7_7000_0000_0000) * p == 1500 * (0x400_0000_0000 * p)) by (nonlinear_arith)
        requires
            u == 0x10_0000_0000_0000,
    ;
}

/// The areas alone decide which contours are picked, and in which order.
pub proof fn law_candidates_are_determined(areas: Seq<Binary64>, p: Seq<usize>, q: Seq<usize>)
    requires
        areas.len() <= usize::MAX,
        foremost(areas, p),
        foremost(areas, q),
    ensures
        p == q,
{
    if p.len() > 0 || q.len() > 0 {
        if p.len() > 0 {
            lemma_picked_or_behind(areas, q, p[0]);
        }
        if q.len() > 0 {
            lemma_picked_or_behind(areas, p, q[0]);
        }
        assert(p[0] == q[0]);
    }
    if p.len() > 1 {
        assert(ahead(areas, p[0] as int, p[1] as int));
        lemma_picked_or_behind(areas, q, p[1]);
    }
    if q.len() > 1 {
        assert(ahead(areas, q[0] as int, q[1] as int));
        lemma_picked_or_behind(areas, p, q[1]);
    }
    assert(p =~= q);
}

/// A hand-sized contour is one of those picked, or comes behind two of them.
proof fn lemma_picked_or_behind(areas: Seq<Binary64>, picked: Seq<usize>, c: usize)
    requires
        foremost(areas, picked),
        c < areas.len(),
        hand_sized(areas[c as int]),
    ensures
        ({
            ||| picked.len() > 0 && c == picked[0]
            ||| picked.len() > 1 && c == picked[1] && ahead(areas, picked[0] as int, c as int)
            ||| picked.len() > 1 && ahead(areas, picked[0] as int, c as int) && ahead(
                areas,
                picked[1] as int,
                c as int,
            )
        }),
{
    if picked.contains(c) {
        let a = choose|a: int| 0 <= a < picked.len() && picked[a] == c;
        assert(a == 0 || a == 1);
        if a == 1 {
            assert(ahead(areas, picked[0] as int, picked[1] as int));
        }
    } else {
        assert(areas[c as int] == areas[c as usize as int]);
        assert(ahead(areas, picked[0] as int, picked[1] as int));
    }
}

/// The two foremost among the first `n` contours.
spec fn best_two(
    areas: Seq<Binary64>,
    n: int,
    first: Option<usize>,
    second: Option<usize>,
) -> bool {
    &&& first matches Some(f) ==> f < n && f < areas.len() && hand_sized(areas[f as int])
    &&& second matches Some(s) ==> s < n && s < areas.len() && hand_sized(areas[s as int])
        && first is Some && ahead(areas, first->0 as int, s as int)
    &&& forall|j: int|
        0 <= j < n && j < areas.len() && hand_sized(#[trigger] areas[j]) ==> first is Some && (j
            == first->0 || (second is Some && (j == second->0 || ahead(
            areas,
            second->0 as int,
            j,
        ))))
}

// ---------------------------------------------------------------------------
// The crop
// ---------------------------------------------------------------------------

/// The longer side of a bounding box.
pub open spec fn longer_side(bbox: Rect) -> int {
    if bbox.width > bbox.height {
        bbox.width as int
    } else {
        bbox.height as int
    }
}

/// The corner of the bounding box moved out by a third of its longer side, and
/// the side grown by as much at both ends: a square for a stable crop.
pub open spec fn padded(bbox: Rect) -> Rect {
    let side = longer_side(bbox);
    let pad = side / 3;
    Rect {
        x: (bbox.x - pad) as i32,
        y: (bbox.y - pad) as i32,
        width: (side + 2 * pad) as i32,
        height: (side + 2 * pad) as i32,
    }
}

/// The padded square and what is left of it in the frame fit the coordinates.
pub open spec fn croppable(bbox: Rect, frame_w: i32, frame_h: i32) -> bool {
    let side = longer_side(bbox);
    let pad = side / 3;
    side >= 0 ==> {
        &&& fits(bbox.x - pad)
        &&& fits(bbox.y - pad)
        &&& fits(side + 2 * pad)
        &&& clampable(padded(bbox), frame_w, frame_h)
    }
}

/// The part of the frame that is handed to the landmark model, `None` if it is
/// too small for a hand.  A box of negative sides covers nothing.
pub open spec fn crop(bbox: Rect, frame_w: i32, frame_h: i32) -> Option<Rect> {
    if longer_side(bbox) < 0 {
        None
    } else {
        match clamped(padded(bbox), frame_w, frame_h) {
            Some(r) => if r.width >= MIN_CROP_SIDE && r.height >= MIN_CROP_SIDE {
                Some(r)
            } else {
                None
            },
            None => None,
        }
    }
}

/// Whether [`hand_crop`] can be asked of the bounding box.
pub fn can_crop(bbox: Rect, frame_w: i32, frame_h: i32) -> (yes: bool)
    ensures
        yes == croppable(bbox, frame_w, frame_h),
{
    let side: i32 = if bbox.width > bbox.height {
        bbox.width
    } else {
        bbox.height
    };
    if side < 0 {
        return true;
    }
    let pad: i64 = side as i64 / 3;
    let x: i64 = bbox.x as i64 - pad;
    let y: i64 = bbox.y as i64 - pad;
    let full: i64 = side as i64 + 2 * pad;
    if x < i32::MIN as i64 || y < i32::MIN as i64 || full > i32::MAX as i64 {
        return false;
    }
    can_clamp(Rect::new(x as i32, y as i32, full as i32, full as i32), frame_w, frame_h)
}

/// The square around a bounding box, clamped to the frame, unless it is too
/// small for a hand.
pub fn hand_crop(bbox: Rect, frame_w: i32, frame_h: i32) -> (out: Option<Rect>)
    requires
        croppable(bbox, frame_w, frame_h),
    ensures
        out == crop(bbox, frame_w, frame_h),
{
    let side: i32 = if bbox.width > bbox.height {
        bbox.width
    } else {
        bbox.height
    };
    if side < 0 {
        return None;
    }
    let pad: i32 = side / 3;
    match clamp_rect(
        Rect::new(bbox.x - pad, bbox.y - pad, side + 2 * pad, side + 2 * pad),
        frame_w,
        frame_h,
    ) {
        Some(r) => if r.width >= MIN_CROP_SIDE && r.height >= MIN_CROP_SIDE {
            Some(r)
        } else {
            None
        },
        None => None,
    }
}

/// The crop is what lies in the frame of a square around the box: it reaches
/// beyond the corner of the box, to the left and above, by a third of its longer
/// side, rounded down, and its own side is the longer side and twice that third.
/// It is dropped exactly if fewer than 50 pixels of it are left one way.
pub proof fn law_crop_is_padded_in_proportion(
    bbox: Rect,
    frame_w: i32,
    frame_h: i32,
) -> (pad: int)
    requires
        croppable(bbox, frame_w, frame_h),
        bbox.width >= 0 || bbox.height >= 0,
    ensures
        ({
            let side = if bbox.width >= bbox.height {
                bbox.width as int
            } else {
                bbox.height as int
            };
            let (left, top) = (bbox.x - pad, bbox.y - pad);
            let full = side + 2 * pad;
            &&& 3 * pad <= side < 3 * pad + 3
            // All of it, where the frame has room for it.
            &&& 0 <= left && left + full <= frame_w && 0 <= top && top + full <= frame_h && full
                >= 50 ==> (crop(bbox, frame_w, frame_h) matches Some(r) && r.x == left && r.y == top
                && r.width == full && r.height == full)
            // Else what lies in the frame.
            &&& crop(bbox, frame_w, frame_h) matches Some(r) ==> r.width >= 50 && r.height >= 50
                && forall|px: int, py: int| #[trigger]
                r.covers(px, py) <==> 0 <= px < frame_w && 0 <= py < frame_h && left <= px < left
                    + full && top <= py < top + full
            &&& crop(bbox, frame_w, frame_h) is None ==> {
                ||| left + full < 50 || frame_w - left < 50 || frame_w < 50 || full < 50
                ||| top + full < 50 || frame_h - top < 50 || frame_h < 50
            }
        }),
{
    let side = longer_side(bbox);
    let pad = side / 3;
    law_clamp_is_intersection(padded(bbox), frame_w, frame_h);
    if let Some(r) = crop(bbox, frame_w, frame_h) {
        assert forall|px: int, py: int| #[trigger] r.covers(px, py) <==> 0 <= px < frame_w && 0 <= py
            < frame_h && bbox.x - pad <= px < bbox.x + side + pad && bbox.y - pad <= py < bbox.y
            + side + pad by {
            assert(padded(bbox).covers(px, py) <==> bbox.x - pad <= px < bbox.x + side + pad
                && bbox.y - pad <= py < bbox.y + side + pad);
        }
    }
    pad
}

/// A box of negative sides gives no crop.
pub proof fn law_nothing_is_cropped_of_nothing(bbox: Rect, frame_w: i32, frame_h: i32)
    requires
        bbox.width < 0,
        bbox.height < 0,
    ensures
        crop(bbox, frame_w, frame_h) is None,
{
}

// ---------------------------------------------------------------------------
// Model outputs
// ---------------------------------------------------------------------------

/// The landmarks `(x, y, z)` that an output holds.
pub open spec fn landmarks_of(output: Seq<Binary32>) -> Seq<(Binary32, Binary32, Binary32)> {
    Seq::new(
        NUM_LANDMARKS as nat,
        |j: int| (output[3 * j], output[3 * j + 1], output[3 * j + 2]),
    )
}

/// The landmarks `(x, y, z)` from the model's first output, `None` if it is too
/// small to hold them.
pub fn parse_landmarks(
    output: &Vec<Binary32>,
) -> (landmarks: Option<Vec<(Binary32, Binary32, Binary32)>>)
    ensures
        landmarks is Some <==> output@.len() >= 3 * NUM_LANDMARKS,
        landmarks matches Some(lm) ==> lm@ == landmarks_of(output@),
{
    if output.len() < 3 * NUM_LANDMARKS {
        return None;
    }
    let mut landmarks: Vec<(Binary32, Binary32, Binary32)> = Vec::new();
    for j in 0..NUM_LANDMARKS
        invariant
            output@.len() >= 3 * NUM_LANDMARKS,
            landmarks@.len() == j,
            forall|k: int|
                0 <= k < j ==> #[trigger] landmarks@[k] == (
                    output@[3 * k],
                    output@[3 * k + 1],
                    output@[3 * k + 2],
                ),
    {
        landmarks.push((output[3 * j], output[3 * j + 1], output[3 * j + 2]));
    }
    assert(landmarks@ =~= landmarks_of(output@));
    Some(landmarks)
}

/// A box of up to a million pixels to a side, as far away, can be cropped from a
/// frame of any size and can be marked.
pub proof fn law_boxes_of_a_frame_are_handled(bbox: Rect, frame_w: i32, frame_h: i32)
    requires
        -1_000_000 <= bbox.x <= 1_000_000,
        -1_000_000 <= bbox.y <= 1_000_000,
        0 <= bbox.width <= 1_000_000,
        0 <= bbox.height <= 1_000_000,
        frame_w >= 0,
        frame_h >= 0,
    ensures
        croppable(bbox, frame_w, frame_h),
        hud_fits(bbox),
{
}

/// The output that is asked for its first value has one exactly if it is there
/// and is not empty.
pub proof fn law_first_value_is_there(outputs: Seq<Vec<Binary32>>, i: int)
    requires
        0 <= i,
    ensures
        first_value(outputs, i) is Some <==> i < outputs.len() && outputs[i]@.len() > 0,
        i < outputs.len() && 0 < outputs[i]@.len() ==> first_value(outputs, i) == Some(
            outputs[i]@.first(),
        ),
{
}

/// The values of an output are the coordinates of the landmarks in a row, three
/// for each.
pub proof fn law_landmarks_are_read_in_a_row(output: Seq<Binary32>, k: int)
    requires
        output.len() >= 63,
        0 <= k < 63,
    ensures
        landmarks_of(output).len() == 21,
        output[k] == if k % 3 == 0 {
            landmarks_of(output)[k / 3].0
        } else if k % 3 == 1 {
            landmarks_of(output)[k / 3].1
        } else {
            landmarks_of(output)[k / 3].2
        },
{
    assert(k == 3 * (k / 3) + k % 3);
}

/// A score of the model: a confidence as it stands, or a logit, of which the
/// sigmoid is the confidence.
#[derive(Clone, Copy, Debug, PartialEq, Eq, Structural)]
pub enum Score {
    Plain(Binary32),
    Logit(Binary32),
}

/// Zero.
pub open spec fn zero() -> Binary32 {
    Binary32 { bits: 0 }
}

/// One half.
pub open spec fn half() -> Binary32 {
    Binary32 { bits: 0x3f00_0000 }
}

/// One.
pub open spec fn one() -> Binary32 {
    Binary32 { bits: 0x3f80_0000 }
}

/// What the handedness output, or its lack, stands for.
pub open spec fn handedness(output: Option<Binary32>) -> Score {
    let raw = match output {
        Some(v) => v,
        None => half(),
    };
    if zero().at_most(raw) && raw.at_most(one()) {
        Score::Plain(raw)
    } else {
        Score::Logit(raw)
    }
}

/// The handedness score from the first value of the model's second output: one
/// half if there is none, and a logit if it lies outside of zero to one.
pub fn parse_handedness(output: Option<Binary32>) -> (score: Score)
    ensures
        score == handedness(output),
{
    let raw: Binary32 = match output {
        Some(v) => v,
        None => Binary32 { bits: 0x3f00_0000 },
    };
    let lowest: Binary32 = Binary32 { bits: 0 };
    let highest: Binary32 = Binary32 { bits: 0x3f80_0000 };
    if lowest.is_at_most(raw) && raw.is_at_most(highest) {
        Score::Plain(raw)
    } else {
        Score::Logit(raw)
    }
}

impl Score {
    /// The number whose exponential the confidence depends on: of a logit, its
    /// opposite.
    pub fn exponent(self) -> (exponent: Option<Binary32>)
        ensures
            exponent == match self {
                Score::Plain(_) => None::<Binary32>,
                Score::Logit(raw) => Some(raw.opposite()),
            },
    {
        match self {
            Score::Plain(_) => None,
            Score::Logit(raw) => Some(raw.negate()),
        }
    }

    /// The confidence, given the exponential of [`Score::exponent`]: a plain
    /// score as it stands, of a logit the sigmoid.
    pub open spec fn settled(self, exponential: Binary32) -> Binary32 {
        match self {
            Score::Plain(v) => v,
            Score::Logit(_) => one().quotient(one().sum(exponential)),
        }
    }

    /// The confidence, given the exponential of [`Score::exponent`]: a plain
    /// score as it stands, of a logit the sigmoid.
    pub fn confidence(self, exponential: Binary32) -> (confidence: Binary32)
        ensures
            confidence == self.settled(exponential),
    {
        match self {
            Score::Plain(v) => v,
            Score::Logit(_) => {
                let unit: Binary32 = Binary32 { bits: 0x3f80_0000 };
                unit.over(unit.plus(exponential))
            },
        }
    }
}

proof fn lemma_one()
    ensures
        single().number(one().fields()) == pow2(149),
        one().fields() == 0x3f80_0000,
        !one().is_nan(),
        one().value() == pow2(149),
{
    lemma_even_unit(single());
    assert(0x3f80_0000nat % 0x80_0000 == 0 && 0x3f80_0000nat / 0x80_0000 == 127);
    lemma_pow2_adds(23, 126);
    let (u, p) = (0x80_0000nat, pow2(126));
    assert((u + 0) * p == u * p);
    assert(0x3f80_0000nat % 0x8000_0000 == 0x3f80_0000);
}

/// One more than a number that is not negative is not below one.
proof fn lemma_one_more(e: Binary32)
    requires
        zero().at_most(e),
    ensures
        ({
            let s = one().sum(e);
            &&& s.bits < 0x8000_0000
            &&& 0x3f80_0000 <= s.fields() <= 0x7f80_0000
        }),
{
    let format = single();
    lemma_one();
    lemma_even_unit(format);
    lemma_parts(format, e.bits as nat);
    lemma_multiple_zero(e.fields(), format.unit());
    lemma_multiple_zero(0, format.unit());
    let v = one().value() + e.value();
    law_nearest_exists(format, v as nat, 1);
    assert(format.number(0x3f80_0000) * 1 == pow2(149));
    law_rounding_keeps_order(format, v as nat, 1, 0x3f80_0000);
    assert(0nat % 0x8000_0000 == 0);
    lemma_pow2_pos(149);
    let bits = format.sum(one().bits as nat, e.bits as nat);
    if e.fields() == 0x7f80_0000 {
        assert(bits == e.bits);
    } else {
        assert(bits == format.rounded(v as nat, 1));
    }
    assert(bits % 0x8000_0000 == bits);
}

/// A confidence lies between zero and one: a plain score because a number that
/// does not is taken for a logit, and a sigmoid because an exponential is not
/// negative.
pub proof fn law_confidence_lies_between_zero_and_one(
    output: Option<Binary32>,
    exponential: Binary32,
)
    requires
        zero().at_most(exponential),
    ensures
        zero().at_most(handedness(output).settled(exponential)),
        handedness(output).settled(exponential).at_most(one()),
        zero().at_most(presence(output).settled(exponential)),
        presence(output).settled(exponential).at_most(one()),
{
    let format = single();
    lemma_one();
    lemma_even_unit(format);
    lemma_multiple_zero(0, format.unit());
    assert(0nat % 0x8000_0000 == 0);
    assert(0x3f00_0000nat % 0x8000_0000 == 0x3f00_0000);
    lemma_multiple_order(0x3f00_0000, 0x3f80_0000, format.unit());
    lemma_pow2_pos(149);
    lemma_one_more(exponential);
    let q = one().quotient(one().sum(exponential));
    lemma_reciprocal(one().sum(exponential));
    lemma_multiple_order(0x3f80_0000, q.fields(), format.unit());
    lemma_multiple_zero(q.fields(), format.unit());
}

/// One more than a greater number is no less.
proof fn lemma_one_more_order(lesser: Binary32, greater: Binary32)
    requires
        zero().at_most(lesser),
        lesser.at_most(greater),
    ensures
        one().sum(lesser).fields() <= one().sum(greater).fields(),
{
    let format = single();
    lemma_one();
    lemma_one_more(lesser);
    lemma_one_more(greater);
    lemma_even_unit(format);
    lemma_pow2_pos(149);
    lemma_parts(format, lesser.bits as nat);
    lemma_parts(format, greater.bits as nat);
    lemma_multiple_zero(lesser.fields(), format.unit());
    lemma_multiple_zero(greater.fields(), format.unit());
    lemma_multiple_zero(0, format.unit());
    assert(0nat % 0x8000_0000 == 0);
    lemma_multiple_order(greater.fields(), 0x7f80_0000, format.unit());
    lemma_multiple_order(lesser.fields(), 0x7f80_0000, format.unit());
    let v = (one().value() + lesser.value()) as nat;
    let w = (one().value() + greater.value()) as nat;
    if greater.fields() < 0x7f80_0000 {
        law_rounding_is_monotone(format, v, 1, w, 1);
        assert(format.sum(one().bits as nat, lesser.bits as nat) == format.rounded(v, 1));
        assert(format.sum(one().bits as nat, greater.bits as nat) == format.rounded(w, 1));
        law_nearest_exists(format, v, 1);
        law_nearest_exists(format, w, 1);
        assert(format.rounded(v, 1) % 0x8000_0000 == format.rounded(v, 1));
        assert(format.rounded(w, 1) % 0x8000_0000 == format.rounded(w, 1));
    } else {
        assert(one().sum(greater) == greater);
    }
}

/// One divided by a number from one on: the fields, of a positive number.
proof fn lemma_reciprocal(s: Binary32)
    requires
        s.bits < 0x8000_0000,
        0x3f80_0000 <= s.fields() <= 0x7f80_0000,
    ensures
        ({
            let q = one().quotient(s);
            &&& q.bits <= 0x3f80_0000
            &&& q.fields() == q.bits
            &&& q.bits == if s.fields() == 0x7f80_0000 {
                0
            } else {
                single().rounded(pow2(149) * pow2(149), single().number(s.fields()))
            }
        }),
{
    let format = single();
    lemma_one();
    lemma_even_unit(format);
    lemma_pow2_pos(149);
    let f = s.fields();
    let (p, d) = (pow2(149), format.number(f));
    lemma_multiple_order(f, 0x3f80_0000, format.unit());
    lemma_parts(format, s.bits as nat);
    law_rounding_keeps_order(format, p * p, d, 0x3f80_0000);
    assert(p * p <= p * d) by (nonlinear_arith)
        requires
            p <= d,
            p > 0,
    ;
    let bits = format.quotient(one().bits as nat, s.bits as nat);
    assert(bits <= 0x3f80_0000);
    assert(bits % 0x8000_0000 == bits);
}

/// A score between zero and one stands for itself, and any other number is a
/// logit; without an output the side is open at one half.
pub proof fn law_sides_between_zero_and_one_stand(raw: Binary32, exponential: Binary32)
    ensures
        !raw.is_nan() && 0 <= raw.value() <= pow2(149) ==> handedness(Some(raw)).settled(
            exponential,
        ) == raw,
        raw.is_nan() || raw.value() < 0 || raw.value() > pow2(149) ==> handedness(Some(raw))
            == Score::Logit(raw),
        2 * handedness(None).settled(exponential).value() == pow2(149),
        presence(None).settled(exponential).value() == pow2(149),
        presence(Some(raw)) == Score::Logit(raw),
{
    lemma_one();
    lemma_half();
    lemma_even_unit(single());
    lemma_multiple_zero(0, single().unit());
    assert(0nat % 0x8000_0000 == 0);
    lemma_pow2_pos(149);
}

proof fn lemma_half()
    ensures
        2 * half().value() == pow2(149),
        !half().is_nan(),
{
    lemma_even_unit(single());
    assert(0x3f00_0000nat % 0x8000_0000 == 0x3f00_0000);
    assert(0x3f00_0000nat % 0x80_0000 == 0 && 0x3f00_0000nat / 0x80_0000 == 126);
    lemma_pow2_adds(23, 125);
    lemma_pow2_adds(148, 1);
    vstd::arithmetic::power2::lemma2_to64();
    let (u, p) = (0x80_0000nat, pow2(125));
    assert((u + 0) * p == u * p);
}

/// Half way is the limit: a hand is shown from one half on, and it is a right one
/// above one half.
pub proof fn law_one_half_is_the_limit(confidence: Binary32)
    requires
        !confidence.is_nan(),
    ensures
        confidence.less(half()) <==> 2 * confidence.value() < pow2(149),
        half().less(confidence) <==> 2 * confidence.value() > pow2(149),
{
    lemma_half();
}

/// The confidence of a logit is the sigmoid: times one more than the exponential
/// it gives one, but for a share of 1/2^22 and two smallest numbers.
pub proof fn law_confidence_is_the_sigmoid(raw: Binary32, exponential: Binary32)
    requires
        exponential.finite(),
        exponential.value() >= 0,
    ensures
        ({
            let c = Score::Logit(raw).settled(exponential);
            let t = pow2(149) as int;
            let more = t + exponential.value();
            let most = t * t + 0x80_0000 * more;
            &&& c.finite()
            &&& c.value() >= 0
            &&& -most <= 0x40_0000 * (c.value() * more - t * t) <= most
        }),
{
    let format = single();
    let t = pow2(149) as int;
    let e = exponential.value();
    let s = one().sum(exponential);
    let c = one().quotient(s);
    lemma_one();
    lemma_even_unit(format);
    lemma_pow2_pos(149);
    lemma_top();
    lemma_multiple_order(exponential.fields(), 0x7f7f_ffff, format.unit());
    law_sum_is_near(one(), exponential, 0x7f80_0000);
    law_sum_is_near(one(), exponential, 0x3f80_0000);
    assert(0x3f80_0000nat % 0x8000_0000 == 0x3f80_0000);
    lemma_sum_with_one_is_finite(exponential);
    lemma_multiple_order(s.fields(), 0x3f80_0000, format.unit());
    lemma_multiple_zero(s.fields(), format.unit());
    let more = t + e;
    let d = s.value();
    assert(d >= t);
    law_quotient_is_near(one(), s, 0x3f80_0000);
    assert(t * t <= t * d) by (nonlinear_arith)
        requires
            t <= d,
            t >= 0,
    ;
    let q = c.value();
    let (tt, qd, qm) = (t * t, q * d, q * more);
    let off = d - more;
    assert(qd - qm == q * off) by (nonlinear_arith)
        requires
            qd == q * d,
            qm == q * more,
            off == d - more,
    ;
    assert(-(qm + 0x80_0000 * q) <= 0x100_0000 * (q * off) <= qm + 0x80_0000 * q)
        by (nonlinear_arith)
        requires
            -(more + 0x80_0000) <= 0x100_0000 * off <= more + 0x80_0000,
            q >= 0,
            qm == q * more,
    ;
    lemma_multiple_order(0x3f80_0000, c.fields(), format.unit());
    assert(q <= t);
    assert(tt >= 0 && qm >= 0 && more >= t) by (nonlinear_arith)
        requires
            tt == t * t,
            qm == q * more,
            q >= 0,
            more == t + e,
            e >= 0,
            t >= 0,
    ;
}

/// The greatest number is 2^128 less its last place.
proof fn lemma_top()
    ensures
        single().number(0x7f7f_ffff) == 0xff_ffff * pow2(253),
        single().number(0x7f80_0000) == 0x100_0000 * pow2(253),
{
    lemma_even_unit(single());
    assert(0x7f7f_ffffnat % 0x80_0000 == 0x7f_ffff && 0x7f7f_ffffnat / 0x80_0000 == 254);
    assert(0x7f80_0000nat % 0x80_0000 == 0 && 0x7f80_0000nat / 0x80_0000 == 255);
    assert(single().unit() + 0x7f7f_ffffnat % single().unit() == 0xff_ffff);
    lemma_pow2_adds(253, 1);
    vstd::arithmetic::power2::lemma2_to64();
    let p = pow2(253);
    assert((0x80_0000 + 0) * (p * 2) == 0x100_0000 * p) by (nonlinear_arith);
}

/// One more than a finite number is finite: at the top, one is lost.
proof fn lemma_sum_with_one_is_finite(e: Binary32)
    requires
        e.finite(),
        e.value() >= 0,
    ensures
        one().sum(e).finite(),
{
    let format = single();
    lemma_one();
    lemma_top();
    lemma_even_unit(format);
    lemma_parts(format, e.bits as nat);
    lemma_multiple_zero(e.fields(), format.unit());
    lemma_multiple_order(e.fields(), 0x7f7f_ffff, format.unit());
    lemma_pow2_adds(149, 104);
    lemma_pow2_adds(64, 40);
    lemma_pow2_pos(149);
    lemma_pow2_pos(40);
    vstd::arithmetic::power2::lemma2_to64();
    let v = (one().value() + e.value()) as nat;
    let (t, p, k) = (pow2(149), pow2(253), pow2(104));
    assert(k >= 4) by {
        let (a, b) = (pow2(64), pow2(40));
        assert(a * b >= a) by (nonlinear_arith)
            requires
                b >= 1,
        ;
    }
    assert(4 * t <= p) by (nonlinear_arith)
        requires
            p == t * k,
            k >= 4,
    ;
    assert(0x7f7f_ffff + 1 == 0x7f80_0000);
    law_nearest_exists(format, v, 1);
    lemma_below_middle(format, v, 1, 0x7f7f_ffff);
    let bits = format.sum(one().bits as nat, e.bits as nat);
    assert(bits == format.rounded(v, 1));
    assert(bits % 0x8000_0000 == bits);
}

/// The confidence of a logit does not rise as the exponential rises.
pub proof fn law_greater_exponential_gives_no_greater_confidence(
    raw: Binary32,
    exponential: Binary32,
    greater: Binary32,
)
    requires
        zero().at_most(exponential),
        exponential.at_most(greater),
    ensures
        Score::Logit(raw).settled(greater).at_most(Score::Logit(raw).settled(exponential)),
{
    let format = single();
    let s = one().sum(exponential);
    let t = one().sum(greater);
    lemma_one_more(exponential);
    lemma_one_more(greater);
    lemma_one_more_order(exponential, greater);
    lemma_reciprocal(s);
    lemma_reciprocal(t);
    lemma_one();
    lemma_even_unit(format);
    lemma_pow2_pos(149);
    let (a, b) = (one().quotient(s), one().quotient(t));
    let (c, d) = (format.number(s.fields()), format.number(t.fields()));
    lemma_multiple_order(s.fields(), 0x3f80_0000, format.unit());
    lemma_multiple_order(t.fields(), s.fields(), format.unit());
    if t.fields() < 0x7f80_0000 {
        let n = pow2(149) * pow2(149);
        assert(n * c <= n * d) by (nonlinear_arith)
            requires
                c <= d,
        ;
        law_rounding_is_monotone(format, n, d, n, c);
    }
    assert(b.bits <= a.bits);
    lemma_multiple_order(a.fields(), b.fields(), format.unit());
}

/// A greater logit never gives a smaller confidence.  Its opposite is no
/// greater; and where the exponential of the opposite is no greater either, the
/// confidence is no smaller.
pub proof fn law_greater_logit_gives_no_smaller_confidence(
    raw: Binary32,
    more: Binary32,
    exponential: Binary32,
    exponential_of_more: Binary32,
)
    requires
        raw.at_most(more),
        zero().at_most(exponential_of_more),
        exponential_of_more.at_most(exponential),
    ensures
        more.opposite().at_most(raw.opposite()),
        presence(Some(raw)).settled(exponential).at_most(
            presence(Some(more)).settled(exponential_of_more),
        ),
{
    lemma_opposite(raw);
    lemma_opposite(more);
    law_greater_exponential_gives_no_greater_confidence(raw, exponential_of_more, exponential);
}

/// The opposite encodes the opposite number.
proof fn lemma_opposite(v: Binary32)
    ensures
        v.opposite().is_nan() == v.is_nan(),
        v.opposite().value() == -v.value(),
{
    let format = single();
    let bits = v.bits as nat;
    lemma_parts(format, bits);
    let o = format.opposite(bits);
    assert(o == if bits >= 0x8000_0000 {
        bits - 0x8000_0000
    } else {
        (bits + 0x8000_0000) as int
    });
    assert(o % 0x8000_0000 == bits % 0x8000_0000);
}

/// Whether a handedness confidence is that of a right hand: it is above one
/// half.
pub fn is_right_hand(confidence: Binary32) -> (right: bool)
    ensures
        right == half().less(confidence),
{
    let middle: Binary32 = Binary32 { bits: 0x3f00_0000 };
    middle.is_less(confidence)
}

/// What the presence output, or its lack, stands for.
pub open spec fn presence(output: Option<Binary32>) -> Score {
    match output {
        Some(v) => Score::Logit(v),
        None => Score::Plain(one()),
    }
}

/// The presence score from the first value of the model's third output: a
/// logit, or certainty if there is none.
pub fn parse_presence(output: Option<Binary32>) -> (score: Score)
    ensures
        score == presence(output),
{
    match output {
        Some(v) => Score::Logit(v),
        None => Score::Plain(Binary32 { bits: 0x3f80_0000 }),
    }
}

/// Whether a presence confidence is enough to show the hand: it is not below
/// one half.
pub fn is_present(confidence: Binary32) -> (present: bool)
    ensures
        present == !confidence.less(half()),
{
    let least: Binary32 = Binary32 { bits: 0x3f00_0000 };
    !confidence.is_less(least)
}

/// What the model says of one crop.
pub struct HandReading {
    /// The landmarks, relative to the crop.
    pub landmarks: Vec<(Binary32, Binary32, Binary32)>,
    /// Which hand it is.
    pub side: Score,
    /// Whether it is a hand.
    pub presence: Score,
}

/// The first value of output `i`, if there is one.
pub open spec fn first_value(outputs: Seq<Vec<Binary32>>, i: int) -> Option<Binary32> {
    if i < outputs.len() && outputs[i]@.len() > 0 {
        Some(outputs[i]@[0])
    } else {
        None
    }
}

fn first_of(outputs: &Vec<Vec<Binary32>>, i: usize) -> (value: Option<Binary32>)
    ensures
        value == first_value(outputs@, i as int),
{
    if i < outputs.len() && outputs[i].len() > 0 {
        Some(outputs[i][0])
    } else {
        None
    }
}

/// What the outputs of the model say of a crop; `None` if they hold no
/// landmarks.
pub fn read_hand(outputs: &Vec<Vec<Binary32>>) -> (reading: Option<HandReading>)
    ensures
        reading is Some <==> outputs@.len() > 0 && outputs@[0]@.len() >= 3 * NUM_LANDMARKS,
        reading matches Some(r) ==> {
            &&& r.landmarks@ == landmarks_of(outputs@[0]@)
            &&& r.side == handedness(first_value(outputs@, 1))
            &&& r.presence == presence(first_value(outputs@, 2))
        },
{
    if outputs.len() == 0 {
        return None;
    }
    match parse_landmarks(&outputs[0]) {
        None => None,
        Some(landmarks) => Some(
            HandReading {
                landmarks,
                side: parse_handedness(first_of(outputs, 1)),
                presence: parse_presence(first_of(outputs, 2)),
            },
        ),
    }
}

/// The word for a hand's side.
pub open spec fn side_label(is_right: bool) -> Seq<char> {
    if is_right {
        "RIGHT"@
    } else {
        "LEFT"@
    }
}

/// The word for a hand's side.
pub fn hand_label(is_right: bool) -> (label: &'static str)
    ensures
        label@ == side_label(is_right),
{
    if is_right {
        "RIGHT"
    } else {
        "LEFT"
    }
}

// ---------------------------------------------------------------------------
// Skeleton
// ---------------------------------------------------------------------------

/// Where a coordinate relative to a crop lies in the frame.
pub open spec fn projected(relative: Binary32, side: i32, corner: i32) -> int {
    relative.product(Binary32::of_int(side as int)).sum(Binary32::of_int(corner as int)).whole()
}

/// The pixel of a landmark; that of a missing one is the origin.
pub open spec fn landmark_pixel(
    landmarks: Seq<(Binary32, Binary32, Binary32)>,
    rect: Rect,
    j: int,
) -> (i32, i32) {
    if j < landmarks.len() {
        (
            projected(landmarks[j].0, rect.width, rect.x) as i32,
            projected(landmarks[j].1, rect.height, rect.y) as i32,
        )
    } else {
        (0, 0)
    }
}

/// The pixels of all landmarks.
pub open spec fn landmark_pixels(
    landmarks: Seq<(Binary32, Binary32, Binary32)>,
    rect: Rect,
) -> Seq<(i32, i32)> {
    Seq::new(NUM_LANDMARKS as nat, |j: int| landmark_pixel(landmarks, rect, j))
}

/// Project landmarks relative to a crop onto pixels of the frame.
pub fn project_landmarks(
    landmarks: &[(Binary32, Binary32, Binary32)],
    hand_rect: Rect,
) -> (pts: [(i32, i32); 21])
    requires
        landmarks@.len() <= NUM_LANDMARKS,
    ensures
        pts@ == landmark_pixels(landmarks@, hand_rect),
{
    let cx: Binary32 = Binary32::from_i32(hand_rect.x);
    let cy: Binary32 = Binary32::from_i32(hand_rect.y);
    let cw: Binary32 = Binary32::from_i32(hand_rect.width);
    let ch: Binary32 = Binary32::from_i32(hand_rect.height);
    let mut pts: [(i32, i32); 21] = [(0, 0); 21];
    for j in 0..landmarks.len()
        invariant
            landmarks@.len() <= NUM_LANDMARKS,
            cx == Binary32::of_int(hand_rect.x as int),
            cy == Binary32::of_int(hand_rect.y as int),
            cw == Binary32::of_int(hand_rect.width as int),
            ch == Binary32::of_int(hand_rect.height as int),
            forall|k: int|
                0 <= k < j ==> #[trigger] pts@[k] == landmark_pixel(landmarks@, hand_rect, k),
            forall|k: int| j <= k < NUM_LANDMARKS ==> #[trigger] pts@[k] == (0i32, 0i32),
    {
        let (lx, ly, _) = landmarks[j];
        let x: i32 = lx.times(cw).plus(cx).to_i32();
        let y: i32 = ly.times(ch).plus(cy).to_i32();
        pts[j] = (x, y);
    }
    assert(pts@ =~= landmark_pixels(landmarks@, hand_rect));
    pts
}

/// There is a pixel for each of the 21 landmarks; one that is missing lies at the
/// origin.
pub proof fn law_missing_landmarks_lie_at_the_origin(
    landmarks: Seq<(Binary32, Binary32, Binary32)>,
    rect: Rect,
    j: int,
)
    requires
        landmarks.len() <= j < 21,
    ensures
        landmark_pixels(landmarks, rect).len() == 21,
        landmark_pixels(landmarks, rect)[j] == (0i32, 0i32),
{
}

/// A landmark is shown where it lies in the crop, or up to 256 crops beside it:
/// its pixel differs from the corner and the share of the side, taken exactly, by
/// no more than one, and a share of 1/2^20.
pub proof fn law_landmarks_lie_in_proportion(relative: Binary32, side: i32, corner: i32)
    requires
        relative.fields() <= 0x4380_0000,
        -0x10_0000 <= side <= 0x10_0000,
        -0x10_0000 <= corner <= 0x10_0000,
    ensures
        ({
            let t = pow2(149) as int;
            let share = relative.value() * side;
            let exact = share + corner * t;
            let most = 0x10_0000 * t + magnitude(share) + magnitude(corner as int) * t
                + 0x10_0000;
            -most <= 0x10_0000 * (projected(relative, side, corner) * t - exact) <= most
        }),
{
    let format = single();
    let t = pow2(149) as int;
    let (w, c) = (Binary32::of_int(side as int), Binary32::of_int(corner as int));
    let p = relative.product(w);
    let q = p.sum(c);
    let share = relative.value() * side;
    lemma_even_unit(format);
    lemma_pow2_pos(149);
    lemma_pow2_adds(64, 85);
    lemma_pow2_pos(85);
    vstd::arithmetic::power2::lemma2_to64();
    assert(t >= 0x1_0000_0000_0000_0000) by {
        let (a, b) = (pow2(64) as int, pow2(85) as int);
        assert(a * b >= a) by (nonlinear_arith)
            requires
                b >= 1,
                a >= 0,
        ;
    }
    law_of_int_is_near(side as int);
    law_of_int_is_near(corner as int);
    lemma_two_hundred_fifty_six();
    lemma_multiple_order(0x4380_0000, relative.fields(), format.unit());
    let r = relative.value();
    assert(r * (side * t) == share * t) by (nonlinear_arith)
        requires
            share == r * side,
    ;
    assert(-(0x1000_0000 * t) <= share <= 0x1000_0000 * t) by (nonlinear_arith)
        requires
            share == r * side,
            -(256 * t) <= r <= 256 * t,
            -0x10_0000 <= side <= 0x10_0000,
            t > 0,
    ;
    assert(-(0x10_0000 * t) <= corner * t <= 0x10_0000 * t) by (nonlinear_arith)
        requires
            -0x10_0000 <= corner <= 0x10_0000,
            t > 0,
    ;
    // 2^30 is a number of the format.
    let top = format.number(0x4e80_0000) as int;
    assert(top == 0x4000_0000 * t) by {
        assert(0x4e80_0000nat % 0x80_0000 == 0 && 0x4e80_0000nat / 0x80_0000 == 157);
        lemma_pow2_adds(23, 156);
        lemma_pow2_adds(30, 149);
        let (u, x) = (0x80_0000nat, pow2(156));
        assert((u + 0) * x == u * x);
    }
    assert(magnitude(share * t) == magnitude(share) * t && magnitude(share) * t <= top * t)
        by (nonlinear_arith)
        requires
            magnitude(share) <= top,
            t > 0,
    ;
    law_product_is_near(relative, w, 0x4e80_0000);
    let x = p.value();
    let off = x - share;
    assert(x * t - share * t == off * t) by (nonlinear_arith)
        requires
            off == x - share,
    ;
    let most = magnitude(share) + 0x80_0000;
    assert(-most <= 0x100_0000 * off <= most) by (nonlinear_arith)
        requires
            -(magnitude(share) * t + 0x80_0000 * t) <= 0x100_0000 * (off * t) <= magnitude(share)
                * t + 0x80_0000 * t,
            most == magnitude(share) + 0x80_0000,
            t > 0,
    {
        assert(magnitude(share) * t + 0x80_0000 * t == most * t);
        assert((0x100_0000 * off) * t == 0x100_0000 * (off * t));
        assert((0x100_0000 * off) * t <= most * t);
        assert((0x100_0000 * off) * t >= (-most) * t);
    }
    law_sum_is_near(p, c, 0x4e80_0000);
    lemma_multiple_order(0x4e80_0000, q.fields(), format.unit());
    let ct = corner * t;
    assert(magnitude(ct) == magnitude(corner as int) * t) by (nonlinear_arith)
        requires
            ct == corner * t,
            t > 0,
    ;
    law_whole_is_within_one(q);
    let n = q.whole();
    assert((n + 1) * t == n * t + t && (n - 1) * t == n * t - t) by (nonlinear_arith);
}

proof fn lemma_two_hundred_fifty_six()
    ensures
        single().number(0x4380_0000) == 256 * pow2(149),
{
    lemma_even_unit(single());
    assert(0x4380_0000nat % 0x80_0000 == 0 && 0x4380_0000nat / 0x80_0000 == 135);
    lemma_pow2_adds(23, 134);
    lemma_pow2_adds(149, 8);
    vstd::arithmetic::power2::lemma2_to64();
    let (u, p) = (0x80_0000nat, pow2(134));
    assert((u + 0) * p == u * p);
}

/// Bone connections of the 21-keypoint MediaPipe hand skeleton.
///
/// 0 = wrist, 1 to 4 = thumb, 5 to 8 = index, 9 to 12 = middle, 13 to 16 =
/// ring, 17 to 20 = pinky.
pub open spec fn bones() -> Seq<(usize, usize)> {
    seq![
        // wrist to finger bases
        (0usize, 1usize),
        (0usize, 5usize),
        (0usize, 9usize),
        (0usize, 13usize),
        (0usize, 17usize),
        // thumb
        (1usize, 2usize),
        (2usize, 3usize),
        (3usize, 4usize),
        // index
        (5usize, 6usize),
        (6usize, 7usize),
        (7usize, 8usize),
        // middle
        (9usize, 10usize),
        (10usize, 11usize),
        (11usize, 12usize),
        // ring
        (13usize, 14usize),
        (14usize, 15usize),
        (15usize, 16usize),
        // pinky
        (17usize, 18usize),
        (18usize, 19usize),
        (19usize, 20usize),
        // palm arch
        (5usize, 9usize),
        (9usize, 13usize),
        (13usize, 17usize),
    ]
}

fn connections() -> (out: Vec<(usize, usize)>)
    ensures
        out@ == bones(),
{
    let out: Vec<(usize, usize)> = vec![
        (0, 1),
        (0, 5),
        (0, 9),
        (0, 13),
        (0, 17),
        (1, 2),
        (2, 3),
        (3, 4),
        (5, 6),
        (6, 7),
        (7, 8),
        (9, 10),
        (10, 11),
        (11, 12),
        (13, 14),
        (14, 15),
        (15, 16),
        (17, 18),
        (18, 19),
        (19, 20),
        (5, 9),
        (9, 13),
        (13, 17),
    ];
    assert(out@ =~= bones());
    out
}

/// The line from one point to another.
pub open spec fn line(a: (i32, i32), b: (i32, i32)) -> Segment {
    Segment { x1: a.0, y1: a.1, x2: b.0, y2: b.1 }
}

/// The bones of the hand skeleton as lines between the landmarks' points.
pub open spec fn bone_lines(pts: Seq<(i32, i32)>) -> Seq<Segment> {
    bones().map_values(|bone: (usize, usize)| line(pts[bone.0 as int], pts[bone.1 as int]))
}

/// The bones of the hand skeleton as lines between the landmarks' points.
pub fn skeleton(pts: &[(i32, i32); 21]) -> (lines: Vec<Segment>)
    ensures
        lines@ == bone_lines(pts@),
{
    let all: Vec<(usize, usize)> = connections();
    let mut lines: Vec<Segment> = Vec::new();
    proof {
        lemma_bones_join_landmarks();
    }
    for i in 0..all.len()
        invariant
            all@ == bones(),
            forall|k: int|
                0 <= k < bones().len() ==> (#[trigger] bones()[k]).0 < 21 && bones()[k].1 < 21,
            lines@.len() == i,
            forall|k: int|
                0 <= k < i ==> #[trigger] lines@[k] == line(
                    pts@[bones()[k].0 as int],
                    pts@[bones()[k].1 as int],
                ),
    {
        let (a, b) = all[i];
        assert(bones()[i as int] == (a, b));
        let (p, q) = (pts[a], pts[b]);
        lines.push(Segment { x1: p.0, y1: p.1, x2: q.0, y2: q.1 });
    }
    assert(lines@ =~= bone_lines(pts@));
    lines
}

proof fn lemma_bones_join_landmarks()
    ensures
        forall|k: int|
            0 <= k < bones().len() ==> (#[trigger] bones()[k]).0 < 21 && bones()[k].1 < 21,
{
}

/// Every bone leads from a landmark to a later one, and every landmark but the
/// wrist is the far end of a bone: the skeleton holds all landmarks together.
pub proof fn law_skeleton_joins_all_landmarks(landmark: int)
    requires
        0 < landmark < NUM_LANDMARKS,
    ensures
        forall|k: int|
            0 <= k < bones().len() ==> (#[trigger] bones()[k]).0 < bones()[k].1 < NUM_LANDMARKS,
        exists|k: int| 0 <= k < bones().len() && (#[trigger] bones()[k]).1 == landmark,
{
    assert(bones()[0].1 == 1 && bones()[1].1 == 5 && bones()[2].1 == 9 && bones()[3].1 == 13);
    assert(bones()[4].1 == 17 && bones()[5].1 == 2 && bones()[6].1 == 3 && bones()[7].1 == 4);
    assert(bones()[8].1 == 6 && bones()[9].1 == 7 && bones()[10].1 == 8);
    assert(bones()[11].1 == 10 && bones()[12].1 == 11 && bones()[13].1 == 12);
    assert(bones()[14].1 == 14 && bones()[15].1 == 15 && bones()[16].1 == 16);
    assert(bones()[17].1 == 18 && bones()[18].1 == 19 && bones()[19].1 == 20);
}

/// A bone leads from the one landmark to the other.
pub open spec fn has_bone(a: usize, b: usize) -> bool {
    exists|k: int| 0 <= k < bones().len() && #[trigger] bones()[k] == (a, b)
}

/// How a hand is built: from the wrist to the five finger bases, along every
/// finger from one landmark to the next, and across the palm from the base of
/// the index finger to that of the pinky.
pub open spec fn in_a_hand(a: usize, b: usize) -> bool {
    ||| a == 0 && (b == 1 || b == 5 || b == 9 || b == 13 || b == 17)
    ||| 1 <= a < 4 && b == a + 1
    ||| 5 <= a < 8 && b == a + 1
    ||| 9 <= a < 12 && b == a + 1
    ||| 13 <= a < 16 && b == a + 1
    ||| 17 <= a < 20 && b == a + 1
    ||| (a == 5 || a == 9 || a == 13) && b == a + 4
}

proof fn lemma_bones()
    ensures
        bones().len() == 23,
        bones()[0] == (0usize, 1usize),
        bones()[1] == (0usize, 5usize),
        bones()[2] == (0usize, 9usize),
        bones()[3] == (0usize, 13usize),
        bones()[4] == (0usize, 17usize),
        bones()[5] == (1usize, 2usize),
        bones()[6] == (2usize, 3usize),
        bones()[7] == (3usize, 4usize),
        bones()[8] == (5usize, 6usize),
        bones()[9] == (6usize, 7usize),
        bones()[10] == (7usize, 8usize),
        bones()[11] == (9usize, 10usize),
        bones()[12] == (10usize, 11usize),
        bones()[13] == (11usize, 12usize),
        bones()[14] == (13usize, 14usize),
        bones()[15] == (14usize, 15usize),
        bones()[16] == (15usize, 16usize),
        bones()[17] == (17usize, 18usize),
        bones()[18] == (18usize, 19usize),
        bones()[19] == (19usize, 20usize),
        bones()[20] == (5usize, 9usize),
        bones()[21] == (9usize, 13usize),
        bones()[22] == (13usize, 17usize),
{
}

/// The skeleton is that of a hand: there is a bone between two landmarks exactly
/// where the hand is built so, and none is there twice.
pub proof fn law_skeleton_is_built_like_a_hand(a: usize, b: usize)
    ensures
        has_bone(a, b) <==> in_a_hand(a, b),
        forall|j: int, k: int|
            0 <= j < k < bones().len() ==> #[trigger] bones()[j] != #[trigger] bones()[k],
{
    lemma_bones();
    if has_bone(a, b) {
        let k = choose|k: int| 0 <= k < bones().len() && #[trigger] bones()[k] == (a, b);
        assert(0 <= k < 23);
    }
    if in_a_hand(a, b) {
        assert(exists|k: int| 0 <= k < bones().len() && #[trigger] bones()[k] == (a, b));
    }
}

/// Between the points of two landmarks of a hand that a bone joins, a line is
/// drawn.
pub proof fn law_every_bone_is_drawn(pts: Seq<(i32, i32)>, a: usize, b: usize)
    requires
        pts.len() == NUM_LANDMARKS,
        in_a_hand(a, b),
    ensures
        bone_lines(pts).contains(
            (Segment {
                x1: pts[a as int].0,
                y1: pts[a as int].1,
                x2: pts[b as int].0,
                y2: pts[b as int].1,
            }),
        ),
{
    lemma_bones();
    law_skeleton_is_built_like_a_hand(a, b);
    let k = choose|k: int| 0 <= k < bones().len() && #[trigger] bones()[k] == (a, b);
    assert(bone_lines(pts)[k] == line(pts[a as int], pts[b as int]));
}

/// Every line that is drawn is that of a bone of a hand, and there are as many as
/// a hand has bones.
pub proof fn law_every_line_is_a_bone(pts: Seq<(i32, i32)>, k: int) -> (bone: (usize, usize))
    requires
        pts.len() == NUM_LANDMARKS,
        0 <= k < bone_lines(pts).len(),
    ensures
        bone_lines(pts).len() == 23,
        in_a_hand(bone.0, bone.1),
        bone_lines(pts)[k] == (Segment {
            x1: pts[bone.0 as int].0,
            y1: pts[bone.0 as int].1,
            x2: pts[bone.1 as int].0,
            y2: pts[bone.1 as int].1,
        }),
{
    lemma_bones();
    let (a, b) = bones()[k];
    assert(has_bone(a, b));
    law_skeleton_is_built_like_a_hand(a, b);
    (a, b)
}

// ---------------------------------------------------------------------------
// Captions
// ---------------------------------------------------------------------------

/// The corners of the box, their brackets and the captions above it fit the
/// coordinates.
pub open spec fn hud_fits(rect: Rect) -> bool {
    &&& fits(rect.x + BRACKET_TICK)
    &&& fits(rect.y + BRACKET_TICK)
    &&& fits(rect.x + rect.width)
    &&& fits(rect.y + rect.height)
    &&& fits(rect.x + rect.width - BRACKET_TICK)
    &&& fits(rect.y + rect.height - BRACKET_TICK)
    &&& fits(rect.y - 40)
}

/// Whether [`hand_hud`] can be asked of the box.
pub fn can_draw_hand_hud(rect: Rect) -> (yes: bool)
    ensures
        yes == hud_fits(rect),
{
    let low: i64 = i32::MIN as i64;
    let high: i64 = i32::MAX as i64;
    let tick: i64 = BRACKET_TICK as i64;
    let x: i64 = rect.x as i64;
    let y: i64 = rect.y as i64;
    let right: i64 = x + rect.width as i64;
    let bottom: i64 = y + rect.height as i64;
    x + tick <= high && y + tick <= high && right <= high && bottom <= high && low <= right - tick
        && low <= bottom - tick && low <= y - 40
}

/// The brackets at the four corners of a box: from each corner one line along
/// the box and one down or up its side.
pub open spec fn corner_brackets(rect: Rect) -> Seq<Segment> {
    let (l, t) = (rect.x as int, rect.y as int);
    let (r, b) = (rect.x + rect.width, rect.y + rect.height);
    let tick = BRACKET_TICK as int;
    seq![
        segment(l, t, l + tick, t),
        segment(l, t, l, t + tick),
        segment(r, t, r - tick, t),
        segment(r, t, r, t + tick),
        segment(l, b, l + tick, b),
        segment(l, b, l, b - tick),
        segment(r, b, r - tick, b),
        segment(r, b, r, b - tick),
    ]
}

/// The brackets of a hand hold its four corners, inwards by 18 pixels, and there
/// is nothing else.
pub proof fn law_hand_brackets_hold_all_corners(rect: Rect)
    requires
        hud_fits(rect),
    ensures
        ({
            let all = corner_brackets(rect);
            let (l, t) = (rect.x as int, rect.y as int);
            let (r, b) = (rect.x + rect.width, rect.y + rect.height);
            &&& all.len() == 8
            &&& bracket_at(all, l, t, true, true, 18)
            &&& bracket_at(all, r, t, false, true, 18)
            &&& bracket_at(all, l, b, true, false, 18)
            &&& bracket_at(all, r, b, false, false, 18)
        }),
{
    let all = corner_brackets(rect);
    let (l, t) = (rect.x as int, rect.y as int);
    let (r, b) = (rect.x + rect.width, rect.y + rect.height);
    assert(all[0].x2 == l + 18 && all[0].y2 == t);
    assert(all[1].x2 == l && all[1].y2 == t + 18);
    assert(all[2].x1 == r && all[2].y1 == t && all[2].x2 == r - 18 && all[2].y2 == t);
    assert(all[3].x1 == r && all[3].y1 == t && all[3].x2 == r && all[3].y2 == t + 18);
    assert(all[4].x1 == l && all[4].y1 == b && all[4].x2 == l + 18 && all[4].y2 == b);
    assert(all[5].x1 == l && all[5].y1 == b && all[5].x2 == l && all[5].y2 == b - 18);
    assert(all[6].x1 == r && all[6].y1 == b && all[6].x2 == r - 18 && all[6].y2 == b);
    assert(all[7].x1 == r && all[7].y1 == b && all[7].x2 == r && all[7].y2 == b - 18);
}

/// The captions of a hand stand above its left edge, 16 pixels from line to line,
/// the last one 8 pixels above the box.
pub proof fn law_hand_captions_stand_above(
    hud: Hud,
    rect: Rect,
    label: Seq<char>,
    hand_score: Binary32,
    presence: Binary32,
    k: int,
)
    requires
        captions_hand(hud, rect, label, hand_score, presence),
        0 <= k < hud.labels@.len(),
    ensures
        hud.labels@.len() == 3,
        hud.labels@[k].x == rect.x,
        rect.y - hud.labels@[k].y == 8 + 16 * (2 - k),
{
}

/// A hand is shown as what the model says of it: a right hand exactly if its side
/// is above one half, with both scores, a joint at every landmark's pixel and the
/// bones between these joints.
pub proof fn law_hand_is_shown_as_read(
    view: HandView,
    reading: HandReading,
    rect: Rect,
    hand_score: Binary32,
    confidence: Binary32,
    j: int,
)
    requires
        shows_hand(view, reading, rect, hand_score, confidence),
        !hand_score.is_nan(),
        0 <= j < reading.landmarks@.len() <= NUM_LANDMARKS,
    ensures
        view.is_right <==> 2 * hand_score.value() > pow2(149),
        view.hud.labels@[0].text@ == if view.is_right {
            "RIGHT"@ + " HAND"@
        } else {
            "LEFT"@ + " HAND"@
        },
        view.hud.labels@[1].text@ == "SIDE : "@ + percent(hand_score),
        view.hud.labels@[2].text@ == "CONF : "@ + percent(confidence),
        view.hud.segments@ == corner_brackets(rect),
        view.bones@ == bone_lines(view.joints@),
        view.joints@.len() == 21,
        view.joints@[j].0 == projected(reading.landmarks@[j].0, rect.width, rect.x),
        view.joints@[j].1 == projected(reading.landmarks@[j].1, rect.height, rect.y),
{
    law_one_half_is_the_limit(hand_score);
    let lm = reading.landmarks@;
    let pts = landmark_pixels(lm, rect);
    assert(view.joints@[j] == pts[j]);
    assert(pts[j] == landmark_pixel(lm, rect, j));
    lemma_whole_fits(
        lm[j].0.product(Binary32::of_int(rect.width as int)).sum(Binary32::of_int(rect.x as int)),
    );
    lemma_whole_fits(
        lm[j].1.product(Binary32::of_int(rect.height as int)).sum(Binary32::of_int(rect.y as int)),
    );
}

/// A whole part is kept within the range of `i32`.
proof fn lemma_whole_fits(v: Binary32)
    ensures
        fits(v.whole()),
{
    let n = single().number(v.fields());
    let t = pow2(149);
    lemma_pow2_pos(149);
    assert(n / t >= 0) by (nonlinear_arith)
        requires
            t > 0,
    ;
}

/// A confidence as a percentage without digits behind the point.
pub open spec fn percent(confidence: Binary32) -> Seq<char> {
    single_text(confidence.product(Binary32 { bits: 0x42c8_0000 }), 0) + "%"@
}

/// A confidence is shown as the whole number of hundredths that is nearest to
/// it, up to rounding.
pub proof fn law_percent_is_in_hundredths(confidence: Binary32) -> (digits: Seq<char>)
    requires
        confidence.finite(),
        confidence.bits < 0x8000_0000,
        confidence.value() <= pow2(149),
    ensures
        percent(confidence) == digits + "%"@,
        numeral(digits),
        ({
            let t = pow2(149) as int;
            let off = digits_value(digits) * t - 100 * confidence.value();
            let most = 0x1_0001 * t + 0x1_0000;
            -most <= 0x2_0000 * off <= most
        }),
{
    let format = single();
    let t = pow2(149) as int;
    let hundred = Binary32 { bits: 0x42c8_0000 };
    let p = confidence.product(hundred);
    lemma_even_unit(format);
    lemma_pow2_pos(149);
    assert(0x42c8_0000nat % 0x8000_0000 == 0x42c8_0000);
    assert(0x42c8_0000nat % 0x80_0000 == 0x48_0000 && 0x42c8_0000nat / 0x80_0000 == 133);
    lemma_pow2_adds(132, 17);
    vstd::arithmetic::power2::lemma2_to64();
    let e = pow2(132);
    assert(hundred.value() == 100 * t) by {
        assert((0x80_0000 + 0x48_0000) * e == 100 * (e * 0x2_0000)) by (nonlinear_arith);
        assert(format.unit() + 0x42c8_0000nat % format.unit() == 0x80_0000 + 0x48_0000);
    }
    let c = confidence.value();
    assert(0 <= c * (100 * t) && c * (100 * t) <= (100 * t) * t) by (nonlinear_arith)
        requires
            0 <= c <= t,
            t > 0,
    ;
    law_product_is_near(confidence, hundred, 0x42c8_0000);
    assert(c * (100 * t) == (100 * c) * t) by (nonlinear_arith);
    let (x, y) = (p.value(), 100 * c);
    let off = x - y;
    assert(-(y + 0x80_0000) <= 0x100_0000 * off <= y + 0x80_0000) by (nonlinear_arith)
        requires
            -(y * t + 0x80_0000 * t) <= 0x100_0000 * (x * t - y * t) <= y * t + 0x80_0000 * t,
            off == x - y,
            t > 0,
    {
        let most = y + 0x80_0000;
        assert(most * t == y * t + 0x80_0000 * t);
        assert((0x100_0000 * off) * t == 0x100_0000 * (x * t - y * t));
        assert((0x100_0000 * off) * t <= most * t);
        assert((0x100_0000 * off) * t >= (-most) * t);
    }
    law_nearest_exists(format, format.number(confidence.fields()) * format.number(0x42c8_0000), pow2(149));
    let bits = format.product(confidence.bits as nat, 0x42c8_0000);
    assert(!format.negative(bits));
    let (whole, behind) = law_text_is_the_nearest_numeral(format, p.bits as nat, 0);
    assert(ten_to(0) == 1);
    let none = Seq::<char>::empty();
    assert(behind =~= none);
    assert(none + whole + none + behind =~= whole);
    assert(whole + behind =~= whole);
    assert(format.number(p.fields()) * 1 == x);
    whole
}

/// Appends a confidence as a percentage without digits behind the point.
fn push_percent(out: &mut String, confidence: Binary32)
    ensures
        final(out)@ == old(out)@ + percent(confidence),
{
    let ghost start = out@;
    push_single(out, confidence.times(Binary32 { bits: 0x42c8_0000 }), 0);
    out.append("%");
    assert(out@ =~= start + percent(confidence));
}

/// What is drawn around a hand: brackets at its corners, and above it its side
/// and how sure the model is of the side and of the hand.
pub open spec fn captions_hand(
    hud: Hud,
    rect: Rect,
    label: Seq<char>,
    hand_score: Binary32,
    presence: Binary32,
) -> bool {
    &&& hud.segments@ == corner_brackets(rect)
    &&& hud.labels@.len() == 3
    &&& label_is(hud.labels@[0], label + " HAND"@, rect.x as int, rect.y - 40)
    &&& label_is(hud.labels@[1], "SIDE : "@ + percent(hand_score), rect.x as int, rect.y - 24)
    &&& label_is(hud.labels@[2], "CONF : "@ + percent(presence), rect.x as int, rect.y - 8)
}

/// Corner brackets around a hand and the captions above it: its side, and how
/// sure the model is of the side and of the hand.
pub fn hand_hud(
    rect: Rect,
    label: &str,
    hand_score: Binary32,
    presence: Binary32,
) -> (hud: Hud)
    requires
        hud_fits(rect),
    ensures
        captions_hand(hud, rect, label@, hand_score, presence),
{
    let (l, t) = (rect.x, rect.y);
    let r: i32 = rect.x + rect.width;
    let b: i32 = rect.y + rect.height;
    let (l_in, r_in): (i32, i32) = (l + BRACKET_TICK, r - BRACKET_TICK);
    let (t_in, b_in): (i32, i32) = (t + BRACKET_TICK, b - BRACKET_TICK);
    let segments: Vec<Segment> = vec![
        Segment { x1: l, y1: t, x2: l_in, y2: t },
        Segment { x1: l, y1: t, x2: l, y2: t_in },
        Segment { x1: r, y1: t, x2: r_in, y2: t },
        Segment { x1: r, y1: t, x2: r, y2: t_in },
        Segment { x1: l, y1: b, x2: l_in, y2: b },
        Segment { x1: l, y1: b, x2: l, y2: b_in },
        Segment { x1: r, y1: b, x2: r_in, y2: b },
        Segment { x1: r, y1: b, x2: r, y2: b_in },
    ];
    assert(segments@ =~= corner_brackets(rect));
    let mut head: String = label.to_owned();
    head.append(" HAND");
    let mut middle: String = "SIDE : ".to_owned();
    push_percent(&mut middle, hand_score);
    let mut last: String = "CONF : ".to_owned();
    push_percent(&mut last, presence);
    let (y0, y1, y2): (i32, i32, i32) = (t - 40, t - 24, t - 8);
    let labels: Vec<Label> = vec![
        Label { text: head, x: l, y: y0 },
        Label { text: middle, x: l, y: y1 },
        Label { text: last, x: l, y: y2 },
    ];
    Hud { segments, labels }
}

/// What is drawn for one hand.
#[derive(Debug)]
pub struct HandView {
    pub is_right: bool,
    pub bones: Vec<Segment>,
    pub joints: [(i32, i32); 21],
    pub hud: Hud,
}

/// The hand is shown: its skeleton at the pixels of its landmarks, and the
/// captions of its side and of how sure the model is.
pub open spec fn shows_hand(
    view: HandView,
    reading: HandReading,
    rect: Rect,
    hand_score: Binary32,
    confidence: Binary32,
) -> bool {
    let pts = landmark_pixels(reading.landmarks@, rect);
    &&& view.is_right == half().less(hand_score)
    &&& view.joints@ == pts
    &&& view.bones@ == bone_lines(pts)
    &&& captions_hand(view.hud, rect, side_label(view.is_right), hand_score, confidence)
}

/// What is drawn for the hand in a crop, given the exponentials of the scores'
/// exponents; nothing if it is not sure enough to be a hand.
pub fn view_hand(
    reading: &HandReading,
    rect: Rect,
    side_exponential: Binary32,
    presence_exponential: Binary32,
) -> (view: Option<HandView>)
    requires
        reading.landmarks@.len() <= NUM_LANDMARKS,
        hud_fits(rect),
    ensures
        view is None <==> reading.presence.settled(presence_exponential).less(half()),
        view matches Some(v) ==> shows_hand(
            v,
            *reading,
            rect,
            reading.side.settled(side_exponential),
            reading.presence.settled(presence_exponential),
        ),
{
    let confidence: Binary32 = reading.presence.confidence(presence_exponential);
    if !is_present(confidence) {
        return None;
    }
    let hand_score: Binary32 = reading.side.confidence(side_exponential);
    let is_right: bool = is_right_hand(hand_score);
    let joints: [(i32, i32); 21] = project_landmarks(&reading.landmarks, rect);
    let bones: Vec<Segment> = skeleton(&joints);
    let hud: Hud = hand_hud(rect, hand_label(is_right), hand_score, confidence);
    Some(HandView { is_right, bones, joints, hud })
}

/// What is said if the landmark model is missing.
pub fn model_missing_text() -> (text: String)
    ensures
        text@ == "[!] Hand landmark model not found at: "@ + HAND_MODEL@
            + "\n    Download it:\n      mkdir -p data/models && cd data/models\n      wget https://github.com/opencv/opencv_zoo/raw/main/models/handpose_estimation_mediapipe/handpose_estimation_mediapipe_2023feb.onnx\n    Then: cargo run -- hands"@,
{
    let mut text: String = "[!] Hand landmark model not found at: ".to_owned();
    text.append(HAND_MODEL);
    text.append(
        "\n    Download it:\n      mkdir -p data/models && cd data/models\n      wget https://github.com/opencv/opencv_zoo/raw/main/models/handpose_estimation_mediapipe/handpose_estimation_mediapipe_2023feb.onnx\n    Then: cargo run -- hands",
    );
    text
}

} // verus!
