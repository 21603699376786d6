//! Centroid-based face tracker with smoothed confidence.
//!
//! Associates detected faces across frames by centroid proximity, in proportion
//! to the face's diagonal, and keeps stable track IDs.  Tracks are dropped after
//! [`TRACK_MAX_MISSED`] consecutive frames without an association.
use vstd::arithmetic::power2::{lemma_pow2_adds, lemma_pow2_pos, pow2};
use vstd::prelude::*;

use crate::float::lemma_parts;
pub use crate::float::magnitude;
use crate::ieee::{
    law_difference_is_near, law_finite_results_have_finite_operands, law_product_is_near,
    law_sum_is_near, near, Binary32, Binary64,
};
use crate::rounding::{
    double, law_exact_is_kept, law_nearest_exists, law_rounding_keeps_order, lemma_below_middle,
    lemma_error, lemma_even_unit, lemma_multiple_order, lemma_multiple_zero, single,
};

verus! {

/// Persistent per-face track, by which the display stays stable across frames.
pub struct Track {
    pub id: u32,
    pub centroid: (Binary32, Binary32),
    pub name: String,
    pub confidence: Binary64,
    pub missed: u32,
}

/// A single face detection to be matched against the tracks.
pub struct Detection {
    /// Centroid X coordinate (pixels).
    pub cx: Binary32,
    /// Centroid Y coordinate (pixels).
    pub cy: Binary32,
    /// Display name of the best-matching enrolled identity.
    pub name: String,
    /// Similarity to the best match.
    pub confidence: Binary64,
    /// Diagonal length of the face's bounding box (pixels), by which the
    /// distance of an association is limited.
    pub face_diag: Binary32,
}

/// Number of consecutive missed frames before a track is dropped.
pub const TRACK_MAX_MISSED: u32 = 20;

/// Centroid-based multi-face tracker.
pub struct CentroidTracker {
    tracks: Vec<Track>,
    next_track_id: u32,
}

// ---------------------------------------------------------------------------
// Association
// ---------------------------------------------------------------------------

/// 0.6: the greatest distance of an association, relative to the face's
/// diagonal.
pub open spec fn dist_ratio() -> Binary32 {
    Binary32 { bits: 0x3f19_999a }
}

/// The squared distance below which a centroid is close to the detection.
pub open spec fn reach_sq(d: Detection) -> Binary32 {
    d.face_diag.product(dist_ratio()).product(d.face_diag).product(dist_ratio())
}

/// The squared distance of a centroid from the detection.
pub open spec fn dist_sq(centroid: (Binary32, Binary32), d: Detection) -> Binary32 {
    let dx = centroid.0.difference(d.cx);
    let dy = centroid.1.difference(d.cy);
    dx.product(dx).sum(dy.product(dy))
}

/// Whether the detection is close to the track.
pub open spec fn close(d: Detection, t: Track) -> bool {
    dist_sq(t.centroid, d).less(reach_sq(d))
}

/// The first of the tracks from `from` on that the detection is close to, or
/// their number.
pub open spec fn first_close(d: Detection, tracks: Seq<Track>, from: int) -> int
    decreases tracks.len() - from,
{
    if from >= tracks.len() || close(d, tracks[from]) {
        from
    } else {
        first_close(d, tracks, from + 1)
    }
}

// ---------------------------------------------------------------------------
// One frame
// ---------------------------------------------------------------------------

/// 0.4: the weight of a new observation in the smoothed confidence.
pub open spec fn ema_weight() -> Binary64 {
    Binary64 { bits: 0x3fd9_9999_9999_999a }
}

/// The confidence with a new observation blended in.
pub open spec fn smoothed(confidence: Binary64, observed: Binary64) -> Binary64 {
    let one = Binary64 { bits: 0x3ff0_0000_0000_0000 };
    confidence.product(one.difference(ema_weight())).sum(observed.product(ema_weight()))
}

/// The ID behind `id`: zero is never given out.
pub open spec fn id_after(id: u32) -> u32 {
    if id == u32::MAX {
        1
    } else {
        (id + 1) as u32
    }
}

/// Tracks, next ID and results while the detections of a frame have their turn.
pub struct Frame {
    pub tracks: Seq<Track>,
    pub next_track_id: u32,
    pub results: Seq<(u32, String, Binary64)>,
}

/// What a detection makes of its track: the detection's centroid and name, the
/// smoothed confidence, and no missed frames.
pub open spec fn refreshed(t: Track, d: Detection) -> Track {
    Track {
        id: t.id,
        centroid: (d.cx, d.cy),
        name: d.name,
        confidence: smoothed(t.confidence, d.confidence),
        missed: 0,
    }
}

/// The track that a detection far from all others starts.
pub open spec fn started(id: u32, d: Detection) -> Track {
    Track { id, centroid: (d.cx, d.cy), name: d.name, confidence: d.confidence, missed: 0 }
}

/// The frame after a detection: it goes to the first track that it is close to,
/// or else starts one.
pub open spec fn observed(f: Frame, d: Detection) -> Frame {
    let slot = first_close(d, f.tracks, 0);
    if slot < f.tracks.len() {
        let t = refreshed(f.tracks[slot], d);
        Frame {
            tracks: f.tracks.update(slot, t),
            next_track_id: f.next_track_id,
            results: f.results.push((t.id, d.name, t.confidence)),
        }
    } else {
        Frame {
            tracks: f.tracks.push(started(f.next_track_id, d)),
            next_track_id: id_after(f.next_track_id),
            results: f.results.push((f.next_track_id, d.name, d.confidence)),
        }
    }
}

/// What a detection does depends on the results before it in nothing but where
/// its own stands.
proof fn lemma_observed(
    f: Frame,
    d: Detection,
    tracks: Seq<Track>,
    next_track_id: u32,
    result: (u32, String, Binary64),
)
    requires
        observed((Frame { results: Seq::empty(), ..f }), d) == (Frame {
            tracks,
            next_track_id,
            results: Seq::empty().push(result),
        }),
    ensures
        observed(f, d) == (Frame { tracks, next_track_id, results: f.results.push(result) }),
{
    let alone = observed((Frame { results: Seq::empty(), ..f }), d);
    assert(alone.results[0] == result);
}

/// The frame after the first `k` detections.
pub open spec fn frame_after(
    tracks: Seq<Track>,
    next_track_id: u32,
    ds: Seq<Detection>,
    k: int,
) -> Frame
    decreases k,
{
    if k <= 0 {
        Frame { tracks, next_track_id, results: Seq::empty() }
    } else {
        observed(frame_after(tracks, next_track_id, ds, k - 1), ds[k - 1])
    }
}

/// The place, among the tracks, of the track that detection `k` goes to: the
/// first one that it is close to at its turn, or else a new one at the end.
pub open spec fn slot_of(tracks: Seq<Track>, next: u32, ds: Seq<Detection>, k: int) -> int {
    first_close(ds[k], frame_after(tracks, next, ds, k).tracks, 0)
}

/// Whether one of the results is of that track.
pub open spec fn seen(results: Seq<(u32, String, Binary64)>, id: u32) -> bool {
    exists|i: int| 0 <= i < results.len() && (#[trigger] results[i]).0 == id
}

/// The track at the end of a frame: one more frame missed, unless it was seen.
pub open spec fn aged(t: Track, results: Seq<(u32, String, Binary64)>) -> Track {
    if seen(results, t.id) {
        t
    } else {
        Track { missed: (t.missed + 1) as u32, ..t }
    }
}

/// The tracks at the end of a frame: aged, without those that missed too many.
pub open spec fn kept(
    tracks: Seq<Track>,
    results: Seq<(u32, String, Binary64)>,
) -> Seq<Track> {
    tracks.map_values(|t: Track| aged(t, results)).filter(
        |t: Track| t.missed < TRACK_MAX_MISSED,
    )
}

proof fn lemma_kept_push(tracks: Seq<Track>, results: Seq<(u32, String, Binary64)>, t: Track)
    ensures
        kept(tracks.push(t), results) == if aged(t, results).missed < TRACK_MAX_MISSED {
            kept(tracks, results).push(aged(t, results))
        } else {
            kept(tracks, results)
        },
{
    let age = |u: Track| aged(u, results);
    let all = tracks.push(t).map_values(age);
    assert(all.drop_last() =~= tracks.map_values(age));
    assert(all.last() == aged(t, results));
    reveal(Seq::filter);
}

impl CentroidTracker {
    /// The tracks, oldest first.
    pub closed spec fn track_seq(&self) -> Seq<Track> {
        self.tracks@
    }

    /// The ID of the next track that is started.
    pub closed spec fn next_id(&self) -> u32 {
        self.next_track_id
    }

    /// No track missed too many frames, and zero is no ID.
    pub open spec fn well_formed(&self) -> bool {
        &&& self.next_id() != 0
        &&& forall|i: int|
            0 <= i < self.track_seq().len() ==> (#[trigger] self.track_seq()[i]).missed
                < TRACK_MAX_MISSED && self.track_seq()[i].id != 0
    }

    /// A tracker without tracks, whose first ID is one.
    pub fn new() -> (tracker: Self)
        ensures
            tracker.well_formed(),
            tracker.track_seq() == Seq::<Track>::empty(),
            tracker.next_id() == 1,
    {
        CentroidTracker { tracks: Vec::new(), next_track_id: 1 }
    }

    /// The tracks, oldest first.
    pub fn tracks(&self) -> (tracks: &Vec<Track>)
        ensures
            tracks@ == self.track_seq(),
    {
        &self.tracks
    }

    /// Update the tracks with the detections of a frame.
    ///
    /// Returns `(track_id, display_name, smoothed_confidence)` for each
    /// detection, in the order of the detections.  Tracks to which no detection
    /// goes have missed the frame; tracks that missed [`TRACK_MAX_MISSED`]
    /// frames in a row are dropped.
    pub fn update(&mut self, detections: &[Detection]) -> (results: Vec<(u32, String, Binary64)>)
        requires
            old(self).well_formed(),
        ensures
            final(self).well_formed(),
            ({
                let f = frame_after(
                    old(self).track_seq(),
                    old(self).next_id(),
                    detections@,
                    detections@.len() as int,
                );
                &&& results@ == f.results
                &&& final(self).next_id() == f.next_track_id
                &&& final(self).track_seq() == kept(f.tracks, f.results)
            }),
    {
        let ghost tracks = self.tracks@;
        let ghost next = self.next_track_id;
        let mut results: Vec<(u32, String, Binary64)> = Vec::new();
        for k in 0..detections.len()
            invariant
                self.well_formed(),
                ({
                    let f = frame_after(tracks, next, detections@, k as int);
                    &&& results@ == f.results
                    &&& self.next_track_id == f.next_track_id
                    &&& self.tracks@ == f.tracks
                }),
        {
            let ghost f = frame_after(tracks, next, detections@, k as int);
            let result: (u32, String, Binary64) = self.observe(&detections[k]);
            proof {
                lemma_observed(
                    f,
                    detections@[k as int],
                    self.tracks@,
                    self.next_track_id,
                    result,
                );
            }
            results.push(result);
        }
        self.end_frame(&results);
        results
    }

    /// The place of the first track that the detection is close to, or the
    /// number of tracks.
    fn find_close(&self, d: &Detection) -> (slot: usize)
        ensures
            slot <= self.track_seq().len(),
            slot == first_close(*d, self.track_seq(), 0),
    {
        let ratio: Binary32 = Binary32 { bits: 0x3f19_999a };
        let reach: Binary32 = d.face_diag.times(ratio).times(d.face_diag).times(ratio);
        let mut slot: usize = 0;
        while slot < self.tracks.len()
            invariant
                slot <= self.tracks@.len(),
                reach == reach_sq(*d),
                first_close(*d, self.tracks@, slot as int) == first_close(*d, self.tracks@, 0),
            decreases self.tracks@.len() - slot,
        {
            let dx: Binary32 = self.tracks[slot].centroid.0.minus(d.cx);
            let dy: Binary32 = self.tracks[slot].centroid.1.minus(d.cy);
            if dx.times(dx).plus(dy.times(dy)).is_less(reach) {
                return slot;
            }
            slot = slot + 1;
        }
        slot
    }

    /// Lets a detection have its turn, and returns its result.
    fn observe(&mut self, d: &Detection) -> (result: (u32, String, Binary64))
        requires
            old(self).well_formed(),
        ensures
            final(self).well_formed(),
            observed(
                (Frame {
                    tracks: old(self).track_seq(),
                    next_track_id: old(self).next_id(),
                    results: Seq::empty(),
                }),
                *d,
            ) == (Frame {
                tracks: final(self).track_seq(),
                next_track_id: final(self).next_id(),
                results: Seq::empty().push(result),
            }),
    {
        let slot: usize = self.find_close(d);
        let ghost before = self.track_seq();
        let result: (u32, String, Binary64) = if slot < self.tracks.len() {
            let id: u32 = self.tracks[slot].id;
            let weight: Binary64 = Binary64 { bits: 0x3fd9_9999_9999_999a };
            let one: Binary64 = Binary64 { bits: 0x3ff0_0000_0000_0000 };
            let confidence: Binary64 = self.tracks[slot].confidence.times(one.minus(weight)).plus(
                d.confidence.times(weight),
            );
            self.tracks.set(
                slot,
                Track {
                    id,
                    centroid: (d.cx, d.cy),
                    name: d.name.clone(),
                    confidence,
                    missed: 0,
                },
            );
            (id, d.name.clone(), confidence)
        } else {
            let id: u32 = self.next_track_id;
            self.next_track_id = if id == u32::MAX {
                1
            } else {
                id + 1
            };
            self.tracks.push(
                Track {
                    id,
                    centroid: (d.cx, d.cy),
                    name: d.name.clone(),
                    confidence: d.confidence,
                    missed: 0,
                },
            );
            (id, d.name.clone(), d.confidence)
        };
        assert forall|i: int| 0 <= i < self.track_seq().len() implies (
        #[trigger] self.track_seq()[i]).missed < TRACK_MAX_MISSED && self.track_seq()[i].id
            != 0 by {
            if i != slot && i < before.len() {
                assert(self.track_seq()[i] == before[i]);
            } else if i < before.len() {
                assert(self.track_seq()[i].id == before[i].id);
            }
        }
        result
    }

    /// Ages the tracks that are not among the results, and drops those that
    /// missed too many frames.
    fn end_frame(&mut self, results: &Vec<(u32, String, Binary64)>)
        requires
            old(self).well_formed(),
        ensures
            final(self).well_formed(),
            final(self).next_id() == old(self).next_id(),
            final(self).track_seq() == kept(old(self).track_seq(), results@),
    {
        let ghost all = self.tracks@;
        let mut left: Vec<Track> = Vec::new();
        proof {
            reveal(Seq::filter);
        }
        assert(left@ =~= kept(all.subrange(0, 0), results@));
        for i in 0..self.tracks.len()
            invariant
                self.tracks@ == all,
                self.well_formed(),
                left@ == kept(all.subrange(0, i as int), results@),
                forall|j: int|
                    0 <= j < left@.len() ==> (#[trigger] left@[j]).missed < TRACK_MAX_MISSED
                        && left@[j].id != 0,
        {
            let t: &Track = &self.tracks[i];
            assert(t == self.track_seq()[i as int]);
            let missed: u32 = if is_seen(results, t.id) {
                t.missed
            } else {
                t.missed + 1
            };
            proof {
                lemma_kept_push(all.subrange(0, i as int), results@, *t);
                assert(all.subrange(0, i + 1) =~= all.subrange(0, i as int).push(*t));
            }
            if missed < TRACK_MAX_MISSED {
                left.push(
                    Track {
                        id: t.id,
                        centroid: t.centroid,
                        name: t.name.clone(),
                        confidence: t.confidence,
                        missed,
                    },
                );
            }
        }
        assert(all.subrange(0, all.len() as int) =~= all);
        self.tracks = left;
    }
}

/// Whether one of the results is of that track.
fn is_seen(results: &Vec<(u32, String, Binary64)>, id: u32) -> (yes: bool)
    ensures
        yes == seen(results@, id),
{
    for i in 0..results.len()
        invariant
            forall|j: int| 0 <= j < i ==> (#[trigger] results@[j]).0 != id,
    {
        if results[i].0 == id {
            return true;
        }
    }
    false
}

// ---------------------------------------------------------------------------
// What the tracker promises
// ---------------------------------------------------------------------------

proof fn lemma_first_close(d: Detection, tracks: Seq<Track>, from: int)
    requires
        0 <= from <= tracks.len(),
    ensures
        from <= first_close(d, tracks, from) <= tracks.len(),
        first_close(d, tracks, from) < tracks.len() ==> close(
            d,
            tracks[first_close(d, tracks, from)],
        ),
        forall|i: int| from <= i < first_close(d, tracks, from) ==> !close(d, #[trigger] tracks[i]),
    decreases tracks.len() - from,
{
    if from < tracks.len() && !close(d, tracks[from]) {
        lemma_first_close(d, tracks, from + 1);
    }
}

/// A detection goes to one of the tracks or to the next new one.
proof fn lemma_slots(tracks: Seq<Track>, next: u32, ds: Seq<Detection>, k: int)
    requires
        0 <= k <= ds.len(),
    ensures
        tracks.len() <= frame_after(tracks, next, ds, k).tracks.len(),
        k < ds.len() ==> 0 <= slot_of(tracks, next, ds, k) <= frame_after(
            tracks,
            next,
            ds,
            k,
        ).tracks.len(),
        frame_after(tracks, next, ds, k).results.len() == k,
    decreases k,
{
    if k > 0 {
        lemma_slots(tracks, next, ds, k - 1);
    }
    if k < ds.len() {
        lemma_first_close(ds[k], frame_after(tracks, next, ds, k).tracks, 0);
    }
}

/// Each detection goes to the first track that it is close to at its turn; it
/// starts a track only if it is close to none.
pub proof fn law_first_close_track_wins(
    tracks: Seq<Track>,
    next: u32,
    ds: Seq<Detection>,
    k: int,
)
    requires
        0 <= k < ds.len(),
    ensures
        ({
            let there = frame_after(tracks, next, ds, k).tracks;
            let slot = slot_of(tracks, next, ds, k);
            &&& 0 <= slot <= there.len()
            &&& slot < there.len() ==> close(ds[k], there[slot])
            &&& forall|i: int| 0 <= i < slot ==> !close(ds[k], #[trigger] there[i])
        }),
{
    lemma_first_close(ds[k], frame_after(tracks, next, ds, k).tracks, 0);
}

/// There is one result for each detection, in the order of the detections, and
/// it bears the detection's name.
pub proof fn law_results_follow_detections(
    tracks: Seq<Track>,
    next: u32,
    ds: Seq<Detection>,
    k: int,
)
    requires
        0 <= k <= ds.len(),
    ensures
        frame_after(tracks, next, ds, k).results.len() == k,
        forall|j: int|
            0 <= j < k ==> (#[trigger] frame_after(tracks, next, ds, k).results[j]).1
                == ds[j].name,
    decreases k,
{
    if k > 0 {
        law_results_follow_detections(tracks, next, ds, k - 1);
    }
}

/// Once a detection had its turn, its track stands in its place with the ID of
/// the result and no missed frames.
proof fn lemma_result_tracks(
    tracks: Seq<Track>,
    next: u32,
    ds: Seq<Detection>,
    k: int,
    j: int,
)
    requires
        0 <= j < k <= ds.len(),
    ensures
        ({
            let f = frame_after(tracks, next, ds, k);
            let slot = slot_of(tracks, next, ds, j);
            &&& 0 <= slot < f.tracks.len()
            &&& f.tracks[slot].id == f.results[j].0
            &&& f.tracks[slot].missed == 0
        }),
    decreases k,
{
    lemma_slots(tracks, next, ds, k - 1);
    if j < k - 1 {
        lemma_result_tracks(tracks, next, ds, k - 1, j);
    }
}

proof fn lemma_kept_contains(
    tracks: Seq<Track>,
    results: Seq<(u32, String, Binary64)>,
    i: int,
)
    requires
        0 <= i < tracks.len(),
        aged(tracks[i], results).missed < TRACK_MAX_MISSED,
    ensures
        kept(tracks, results).contains(aged(tracks[i], results)),
    decreases tracks.len(),
{
    let t = tracks.last();
    let init = tracks.drop_last();
    assert(tracks =~= init.push(t));
    lemma_kept_push(init, results, t);
    let before = kept(init, results);
    if i < init.len() {
        lemma_kept_contains(init, results, i);
        let a = aged(tracks[i], results);
        let j = choose|j: int| 0 <= j < before.len() && before[j] == a;
        assert(kept(tracks, results)[j] == a);
    } else {
        assert(kept(tracks, results)[before.len() as int] == aged(t, results));
    }
}

proof fn lemma_kept_origin(
    tracks: Seq<Track>,
    results: Seq<(u32, String, Binary64)>,
    j: int,
) -> (i: int)
    requires
        0 <= j < kept(tracks, results).len(),
    ensures
        j <= i < tracks.len(),
        kept(tracks, results)[j] == aged(tracks[i], results),
        aged(tracks[i], results).missed < TRACK_MAX_MISSED,
    decreases tracks.len(),
{
    if tracks.len() == 0 {
        reveal(Seq::filter);
        assert(false);
        0
    } else {
        let t = tracks.last();
        let init = tracks.drop_last();
        assert(tracks =~= init.push(t));
        lemma_kept_push(init, results, t);
        if j < kept(init, results).len() {
            lemma_kept_origin(init, results, j)
        } else {
            lemma_kept_len(init, results);
            init.len() as int
        }
    }
}

proof fn lemma_kept_len(tracks: Seq<Track>, results: Seq<(u32, String, Binary64)>)
    ensures
        kept(tracks, results).len() <= tracks.len(),
    decreases tracks.len(),
{
    if tracks.len() == 0 {
        reveal(Seq::filter);
    } else {
        let t = tracks.last();
        let init = tracks.drop_last();
        assert(tracks =~= init.push(t));
        lemma_kept_push(init, results, t);
        lemma_kept_len(init, results);
    }
}

/// The track of every result is there at the end of the frame, with no missed
/// frames.
pub proof fn law_seen_track_is_kept(
    tracks: Seq<Track>,
    next: u32,
    ds: Seq<Detection>,
    j: int,
)
    requires
        0 <= j < ds.len(),
    ensures
        ({
            let f = frame_after(tracks, next, ds, ds.len() as int);
            exists|i: int|
                0 <= i < kept(f.tracks, f.results).len() && (#[trigger] kept(
                    f.tracks,
                    f.results,
                )[i]).id == f.results[j].0 && kept(f.tracks, f.results)[i].missed == 0
        }),
{
    let n = ds.len() as int;
    let f = frame_after(tracks, next, ds, n);
    lemma_result_tracks(tracks, next, ds, n, j);
    lemma_slots(tracks, next, ds, n);
    let slot = slot_of(tracks, next, ds, j);
    assert(seen(f.results, f.tracks[slot].id));
    lemma_kept_contains(f.tracks, f.results, slot);
    let left = kept(f.tracks, f.results);
    let i = choose|i: int| 0 <= i < left.len() && left[i] == aged(f.tracks[slot], f.results);
    assert(left[i].id == f.results[j].0 && left[i].missed == 0);
}

/// A detection that goes to a track that was there at the start of the frame is
/// reported under that track's ID: IDs are stable.
pub proof fn law_ids_are_stable(
    tracks: Seq<Track>,
    next: u32,
    ds: Seq<Detection>,
    j: int,
)
    requires
        0 <= j < ds.len(),
        slot_of(tracks, next, ds, j) < tracks.len(),
    ensures
        frame_after(tracks, next, ds, ds.len() as int).results[j].0 == tracks[slot_of(tracks, next, ds, j,
        )].id,
{
    let n = ds.len() as int;
    lemma_result_tracks(tracks, next, ds, n, j);
    lemma_places_keep_ids(tracks, next, ds, n);
}

proof fn lemma_places_keep_ids(
    tracks: Seq<Track>,
    next: u32,
    ds: Seq<Detection>,
    k: int,
)
    requires
        0 <= k <= ds.len(),
    ensures
        frame_after(tracks, next, ds, k).tracks.len() >= tracks.len(),
        forall|i: int|
            0 <= i < tracks.len() ==> (#[trigger] frame_after(
                tracks,
                next,
                ds,
                k,
            ).tracks[i]).id == tracks[i].id,
    decreases k,
{
    if k > 0 {
        lemma_places_keep_ids(tracks, next, ds, k - 1);
        lemma_slots(tracks, next, ds, k - 1);
        let f = frame_after(tracks, next, ds, k - 1);
        let g = frame_after(tracks, next, ds, k);
        assert forall|i: int| 0 <= i < tracks.len() implies (#[trigger] g.tracks[i]).id
            == tracks[i].id by {
            assert(f.tracks[i].id == tracks[i].id);
        }
    }
}

/// IDs rise from the oldest track to the youngest, and all are below the next.
pub open spec fn ids_rise(tracks: Seq<Track>, next: u32) -> bool {
    &&& forall|i: int, j: int|
        0 <= i < j < tracks.len() ==> (#[trigger] tracks[i]).id < (#[trigger] tracks[j]).id
    &&& forall|i: int| 0 <= i < tracks.len() ==> (#[trigger] tracks[i]).id < next
}

/// As long as the IDs last, no two tracks share one: IDs rise from the oldest
/// track to the youngest, and a frame keeps it so.
pub proof fn law_ids_stay_distinct(
    tracks: Seq<Track>,
    next: u32,
    ds: Seq<Detection>,
)
    requires
        ids_rise(tracks, next),
        next + ds.len() <= u32::MAX,
    ensures
        ({
            let f = frame_after(tracks, next, ds, ds.len() as int);
            ids_rise(kept(f.tracks, f.results), f.next_track_id)
        }),
{
    let n = ds.len() as int;
    let f = frame_after(tracks, next, ds, n);
    lemma_frame_ids_rise(tracks, next, ds, n);
    lemma_kept_ids_rise(f.tracks, f.results, f.next_track_id);
}

proof fn lemma_frame_ids_rise(
    tracks: Seq<Track>,
    next: u32,
    ds: Seq<Detection>,
    k: int,
)
    requires
        0 <= k <= ds.len(),
        ids_rise(tracks, next),
        next + ds.len() <= u32::MAX,
    ensures
        ids_rise(
            frame_after(tracks, next, ds, k).tracks,
            frame_after(tracks, next, ds, k).next_track_id,
        ),
        frame_after(tracks, next, ds, k).next_track_id <= next + k,
    decreases k,
{
    if k > 0 {
        lemma_frame_ids_rise(tracks, next, ds, k - 1);
        lemma_slots(tracks, next, ds, k - 1);
        let f = frame_after(tracks, next, ds, k - 1);
        let g = frame_after(tracks, next, ds, k);
        let slot = slot_of(tracks, next, ds, k - 1);
        assert forall|i: int| 0 <= i < g.tracks.len() implies (#[trigger] g.tracks[i]).id
            < g.next_track_id && (i < f.tracks.len() ==> g.tracks[i].id == f.tracks[i].id) by {
            if i < f.tracks.len() {
                assert(f.tracks[i].id < f.next_track_id);
            }
        }
        assert forall|i: int, j: int| 0 <= i < j < g.tracks.len() implies (
        #[trigger] g.tracks[i]).id < (#[trigger] g.tracks[j]).id by {
            assert(g.tracks[i].id == f.tracks[i].id);
            if j < f.tracks.len() {
                assert(g.tracks[j].id == f.tracks[j].id);
                assert(f.tracks[i].id < f.tracks[j].id);
            } else {
                assert(f.tracks[i].id < f.next_track_id);
            }
        }
    }
}

proof fn lemma_kept_ids_rise(
    tracks: Seq<Track>,
    results: Seq<(u32, String, Binary64)>,
    next: u32,
)
    requires
        ids_rise(tracks, next),
    ensures
        ids_rise(kept(tracks, results), next),
    decreases tracks.len(),
{
    if tracks.len() == 0 {
        reveal(Seq::filter);
    } else {
        let t = tracks.last();
        let init = tracks.drop_last();
        assert(tracks =~= init.push(t));
        assert forall|i: int| 0 <= i < init.len() implies (#[trigger] init[i]).id < t.id by {
            assert(tracks[i].id < tracks[tracks.len() - 1].id);
        }
        assert forall|i: int, j: int| 0 <= i < j < init.len() implies (#[trigger] init[i]).id < (
        #[trigger] init[j]).id by {
            assert(tracks[i].id < tracks[j].id);
        }
        lemma_kept_ids_rise(init, results, t.id);
        lemma_kept_push(init, results, t);
        assert(tracks[tracks.len() - 1].id < next);
        let left = kept(init, results);
        assert forall|i: int| 0 <= i < left.len() implies (#[trigger] left[i]).id < next by {
            assert(left[i].id < t.id);
        }
    }
}

// --- The same detection again

proof fn lemma_kept_prefix(tracks: Seq<Track>, results: Seq<(u32, String, Binary64)>, k: int)
    requires
        0 <= k <= tracks.len(),
    ensures
        kept(tracks.subrange(0, k), results).len() <= kept(tracks, results).len(),
        forall|i: int|
            0 <= i < kept(tracks.subrange(0, k), results).len() ==> #[trigger] kept(
                tracks,
                results,
            )[i] == kept(tracks.subrange(0, k), results)[i],
    decreases tracks.len() - k,
{
    if k == tracks.len() {
        assert(tracks.subrange(0, k) =~= tracks);
    } else {
        let t = tracks.last();
        let init = tracks.drop_last();
        assert(tracks =~= init.push(t));
        assert(init.subrange(0, k) =~= tracks.subrange(0, k));
        lemma_kept_prefix(init, results, k);
        lemma_kept_push(init, results, t);
    }
}

/// A track that is seen, and is the first one that the detection is close to, is
/// so at the end of the frame too.
proof fn lemma_first_close_is_kept(
    d: Detection,
    tracks: Seq<Track>,
    results: Seq<(u32, String, Binary64)>,
    slot: int,
)
    requires
        0 <= slot < tracks.len(),
        close(d, tracks[slot]),
        forall|i: int| 0 <= i < slot ==> !close(d, #[trigger] tracks[i]),
        seen(results, tracks[slot].id),
        tracks[slot].missed == 0,
    ensures
        ({
            let left = kept(tracks, results);
            let place = first_close(d, left, 0);
            &&& 0 <= place < left.len()
            &&& left[place] == tracks[slot]
        }),
{
    let left = kept(tracks, results);
    let head = tracks.subrange(0, slot);
    let place = kept(head, results).len() as int;
    assert(tracks.subrange(0, slot + 1) =~= head.push(tracks[slot]));
    lemma_kept_push(head, results, tracks[slot]);
    lemma_kept_prefix(tracks, results, slot + 1);
    assert(left[place] == tracks[slot]);
    assert forall|j: int| 0 <= j < place implies !close(d, #[trigger] left[j]) by {
        assert(left[j] == kept(head.push(tracks[slot]), results)[j]);
        let i = lemma_kept_origin(head, results, j);
        assert(!close(d, tracks[i]));
    }
    lemma_first_close(d, left, 0);
}

/// One.
pub open spec fn one() -> Binary32 {
    Binary32 { bits: 0x3f80_0000 }
}

/// The product of positive numbers is no less than a number that the exact
/// product is no less than.
proof fn lemma_product_floor(a: Binary32, b: Binary32, low: nat)
    requires
        a.bits < 0x8000_0000,
        b.bits < 0x8000_0000,
        0 < a.fields() <= 0x7f80_0000,
        0 < b.fields() <= 0x7f80_0000,
        low <= 0x7f80_0000,
        single().number(a.fields()) * single().number(b.fields()) >= single().number(low) * pow2(
            149,
        ),
    ensures
        a.product(b).bits < 0x8000_0000,
        low <= a.product(b).fields() <= 0x7f80_0000,
{
    let format = single();
    let num = format.number(a.fields()) * format.number(b.fields());
    lemma_pow2_pos(149);
    law_nearest_exists(format, num, pow2(149));
    law_rounding_keeps_order(format, num, pow2(149), low);
    let bits = format.product(a.bits as nat, b.bits as nat);
    assert(bits <= 0x7f80_0000);
    assert(bits % 0x8000_0000 == bits);
}

/// A face whose diagonal is one pixel or more reaches further than its own
/// centroid.
proof fn lemma_reaches(d: Detection)
    requires
        one().at_most(d.face_diag),
    ensures
        !reach_sq(d).is_nan(),
        reach_sq(d).value() > 0,
{
    let format = single();
    let u = format.unit();
    lemma_even_unit(format);
    lemma_pow2_pos(149);
    lemma_pow2_pos(147);
    lemma_pow2_pos(148);
    let (diag, ratio) = (d.face_diag, dist_ratio());
    lemma_parts(format, diag.bits as nat);
    // One, six tenths, one half and one quarter.
    assert(0x3f80_0000nat % 0x8000_0000 == 0x3f80_0000);
    assert(0x3f19_999anat % 0x8000_0000 == 0x3f19_999a);
    assert(0x3f80_0000nat % 0x80_0000 == 0 && 0x3f80_0000nat / 0x80_0000 == 127);
    assert(0x3f00_0000nat % 0x80_0000 == 0 && 0x3f00_0000nat / 0x80_0000 == 126);
    assert(0x3e80_0000nat % 0x80_0000 == 0 && 0x3e80_0000nat / 0x80_0000 == 125);
    lemma_pow2_adds(23, 126);
    lemma_pow2_adds(23, 125);
    lemma_pow2_adds(23, 124);
    lemma_pow2_adds(147, 1);
    lemma_pow2_adds(148, 1);
    vstd::arithmetic::power2::lemma2_to64();
    let (p, h, q) = (pow2(149), pow2(148), pow2(147));
    assert((u + 0) * pow2(126) == u * pow2(126) && (u + 0) * pow2(125) == u * pow2(125) && (u + 0)
        * pow2(124) == u * pow2(124));
    assert(format.number(0x3f80_0000) == p);
    assert(format.number(0x3f00_0000) == h);
    assert(format.number(0x3e80_0000) == q);
    lemma_multiple_zero(diag.fields(), u);
    lemma_multiple_order(diag.fields(), 0x3f80_0000, u);
    lemma_multiple_order(0x3f00_0000, 0x3f19_999a, u);
    let r = format.number(0x3f19_999a);
    let n = format.number(diag.fields());
    assert(n * r >= r * p) by (nonlinear_arith)
        requires
            n >= p,
    ;
    lemma_product_floor(diag, ratio, 0x3f19_999a);
    let a = diag.product(ratio);
    let m = format.number(a.fields());
    lemma_multiple_order(a.fields(), 0x3f19_999a, u);
    assert(m * n >= r * p) by (nonlinear_arith)
        requires
            m >= r,
            n >= p,
    ;
    lemma_product_floor(a, diag, 0x3f19_999a);
    let b = a.product(diag);
    let k = format.number(b.fields());
    lemma_multiple_order(b.fields(), 0x3f19_999a, u);
    assert(k * r >= q * p) by (nonlinear_arith)
        requires
            k >= r,
            r >= h,
            h == 2 * q,
            p == 2 * h,
    ;
    lemma_product_floor(b, ratio, 0x3e80_0000);
    let c = b.product(ratio);
    assert(c == reach_sq(d));
    lemma_multiple_order(c.fields(), 0x3e80_0000, u);
}

/// A detection is close to a track that stands at its own centroid.
proof fn lemma_close_to_itself(d: Detection, t: Track)
    requires
        d.cx.finite(),
        d.cy.finite(),
        one().at_most(d.face_diag),
        t.centroid == (d.cx, d.cy),
    ensures
        close(d, t),
{
    let zero = Binary32 { bits: 0 };
    lemma_no_difference(d.cx);
    lemma_no_difference(d.cy);
    lemma_reaches(d);
    let format = single();
    let u = format.unit();
    lemma_even_unit(format);
    lemma_multiple_zero(0, u);
    assert(0nat % 0x8000_0000 == 0);
    assert(zero.product(zero) == zero) by {
        let p = pow2(149);
        lemma_pow2_pos(149);
        assert(0 * p == 0) by (nonlinear_arith);
        let n = format.number(0);
        assert(n * n == 0) by (nonlinear_arith)
            requires
                n == 0,
        ;
        law_rounding_keeps_order(format, n * n, p, 0);
    }
    assert(zero.sum(zero) == zero);
}

/// A number less itself is zero.
proof fn lemma_no_difference(v: Binary32)
    requires
        v.finite(),
    ensures
        v.difference(v) == (Binary32 { bits: 0 }),
{
    let format = single();
    let bits = v.bits as nat;
    lemma_parts(format, bits);
    let o = format.opposite(bits);
    assert(o % 0x8000_0000 == bits % 0x8000_0000);
}

/// A detection that is shown again in the next frame keeps its ID: it goes to the
/// track that it went to before, starts none, and its confidence is smoothed
/// with the one reported before, which leaves it between the two.
pub proof fn law_shown_again_keeps_its_track(tracks: Seq<Track>, next: u32, d: Detection)
    requires
        d.cx.finite(),
        d.cy.finite(),
        one().at_most(d.face_diag),
    ensures
        ({
            let first = after_shot((tracks, next), seq![d]);
            let second = after_shot(first, seq![d]);
            let before = shot_frame((tracks, next), seq![d]).results;
            let again = shot_frame(first, seq![d]).results;
            &&& before.len() == 1 && again.len() == 1
            &&& again[0].0 == before[0].0
            &&& again[0].2 == smoothed(before[0].2, d.confidence)
            &&& before[0].2.finite() && d.confidence.finite() ==> lies_between(
                again[0].2,
                before[0].2,
                d.confidence,
            )
            &&& second.1 == first.1
            &&& second.0.len() <= first.0.len()
        }),
{
    let ds = seq![d];
    let start = Frame { tracks, next_track_id: next, results: Seq::empty() };
    let f = frame_after(tracks, next, ds, 1);
    assert(frame_after(tracks, next, ds, 0) == start);
    assert(f == observed(start, d));
    let slot = first_close(d, tracks, 0);
    lemma_first_close(d, tracks, 0);
    assert(f.tracks[slot].centroid == (d.cx, d.cy));
    lemma_close_to_itself(d, f.tracks[slot]);
    assert forall|i: int| 0 <= i < slot implies !close(d, #[trigger] f.tracks[i]) by {
        assert(f.tracks[i] == tracks[i]);
    }
    assert(f.results[0].0 == f.tracks[slot].id);
    assert(f.results[0].2 == f.tracks[slot].confidence);
    assert(seen(f.results, f.tracks[slot].id));
    lemma_first_close_is_kept(d, f.tracks, f.results, slot);
    let left = kept(f.tracks, f.results);
    let place = first_close(d, left, 0);
    let g = frame_after(left, f.next_track_id, ds, 1);
    let restart = Frame { tracks: left, next_track_id: f.next_track_id, results: Seq::empty() };
    assert(frame_after(left, f.next_track_id, ds, 0) == restart);
    assert(g == observed(restart, d));
    assert(g.results[0].0 == left[place].id);
    lemma_kept_len(g.tracks, g.results);
    if f.results[0].2.finite() && d.confidence.finite() {
        law_smoothed_lies_between(f.results[0].2, d.confidence);
    }
}

// --- Smoothing

/// A number lies between two others, but for what rounding loses: the share
/// 1/2^52 of their magnitudes, and two smallest numbers.
pub open spec fn lies_between(v: Binary64, a: Binary64, b: Binary64) -> bool {
    let (x, y) = (a.value(), b.value());
    let (low, high) = if x <= y {
        (x, y)
    } else {
        (y, x)
    };
    let share = 0x10_0000_0000_0000int;
    let lost = magnitude(x) + magnitude(y) + 2 * share;
    &&& v.finite()
    &&& share * (low - v.value()) <= lost
    &&& share * (v.value() - high) <= lost
}

/// The weight of what was there before: one less the weight of the new.
spec fn old_weight() -> Binary64 {
    Binary64 { bits: 0x3fe3_3333_3333_3333 }
}

/// The two weights add up to one, without any rounding.
proof fn lemma_weights()
    ensures
        (Binary64 { bits: 0x3ff0_0000_0000_0000 }).difference(ema_weight()) == old_weight(),
        old_weight().fields() == 0x3fe3_3333_3333_3333,
        ema_weight().fields() == 0x3fd9_9999_9999_999a,
        double().number(old_weight().fields()) == 0x13_3333_3333_3333 * pow2(1021),
        double().number(ema_weight().fields()) == 0x19_9999_9999_999a * pow2(1020),
        double().number(old_weight().fields()) + double().number(ema_weight().fields()) == pow2(
            1074,
        ),
{
    let format = double();
    let u = format.unit();
    lemma_even_unit(format);
    let one = Binary64 { bits: 0x3ff0_0000_0000_0000 };
    let (a, b, c) = (one.bits as nat, ema_weight().bits as nat, old_weight().bits as nat);
    assert(a % 0x8000_0000_0000_0000 == a && b % 0x8000_0000_0000_0000 == b && c
        % 0x8000_0000_0000_0000 == c);
    assert(a % 0x10_0000_0000_0000 == 0 && a / 0x10_0000_0000_0000 == 1023);
    assert(b % 0x10_0000_0000_0000 == 0x9_9999_9999_999a && b / 0x10_0000_0000_0000 == 1021);
    assert(c % 0x10_0000_0000_0000 == 0x3_3333_3333_3333 && c / 0x10_0000_0000_0000 == 1022);
    let p = pow2(1020);
    lemma_pow2_pos(1020);
    lemma_pow2_adds(1020, 1);
    lemma_pow2_adds(1020, 2);
    lemma_pow2_adds(1020, 54);
    vstd::arithmetic::power2::lemma2_to64();
    vstd::arithmetic::power2::lemma2_to64_rest();
    assert(format.number(a) == 0x10_0000_0000_0000 * pow2(1022)) by {
        let q = pow2(1022);
        assert((u + 0) * q == u * q);
    }
    assert(format.number(b) == 0x19_9999_9999_999a * p);
    assert(format.number(c) == 0x13_3333_3333_3333 * pow2(1021));
    assert(0x10_0000_0000_0000 * (p * 4) == 0x40_0000_0000_0000 * p && 0x13_3333_3333_3333 * (p
        * 2) + 0x19_9999_9999_999a * p == 0x40_0000_0000_0000 * p) by (nonlinear_arith);
    // The difference of one and the new weight is a number of the format.
    law_exact_is_kept(format, c);
    let o = format.opposite(b);
    assert(o == b + 0x8000_0000_0000_0000);
    assert(o % 0x8000_0000_0000_0000 == b);
    lemma_multiple_zero(c, u);
}

/// A number times a weight: it keeps its sign and grows in no case, and little
/// is lost.
proof fn lemma_weighted(a: Binary64, w: Binary64, top: nat, cap: nat)
    requires
        a.finite(),
        w.bits < 0x8000_0000_0000_0000,
        0 < w.fields() < 0x7ff0_0000_0000_0000,
        double().number(w.fields()) <= pow2(1074),
        top == double().number(0x7fef_ffff_ffff_ffff),
        2 * (top * double().number(w.fields())) < (double().number(cap) + double().number(cap + 1))
            * pow2(1074),
        cap < 0x7ff0_0000_0000_0000,
    ensures
        ({
            let p = a.product(w);
            let (v, x, n, t) = (
                p.value(),
                a.value(),
                double().number(w.fields()) as int,
                pow2(1074) as int,
            );
            let share = 0x10_0000_0000_0000int;
            &&& p.finite()
            &&& magnitude(v) <= magnitude(x)
            &&& magnitude(v) <= double().number(cap)
            &&& -(magnitude(x) * n + share * t) <= 2 * (share * (v * t - x * n)) <= magnitude(x) * n
                + share * t
        }),
{
    let format = double();
    let u = format.unit();
    lemma_even_unit(format);
    lemma_parts(format, a.bits as nat);
    lemma_pow2_pos(1074);
    let (m, n, t) = (format.number(a.fields()), format.number(w.fields()), pow2(1074));
    let num = m * n;
    assert(num <= m * t) by (nonlinear_arith)
        requires
            num == m * n,
            n <= t,
    ;
    law_nearest_exists(format, num, t);
    law_rounding_keeps_order(format, num, t, a.fields());
    lemma_multiple_order(0x7fef_ffff_ffff_ffff, a.fields(), u);
    assert(num <= top * n) by (nonlinear_arith)
        requires
            num == m * n,
            m <= top,
    ;
    lemma_below_middle(format, num, t, cap);
    lemma_error(format, num, t);
    let f = format.rounded(num, t);
    lemma_multiple_order(a.fields(), f, u);
    lemma_multiple_order(cap, f, u);
    let bits = format.product(a.bits as nat, w.bits as nat);
    assert(bits == format.signed(format.negative(a.bits as nat), f));
    assert(bits % 0x8000_0000_0000_0000 == f);
    let p = a.product(w);
    let k = format.number(f);
    assert(p.fields() == f);
    assert(p.value() == if a.bits >= 0x8000_0000_0000_0000 {
        -(k as int)
    } else {
        k as int
    });
    let off = k * t - num;
    let (v, x) = (p.value(), a.value());
    assert(magnitude(x) * n == num);
    assert(v * t - x * n == if a.bits >= 0x8000_0000_0000_0000 {
        -off
    } else {
        off
    }) by (nonlinear_arith)
        requires
            off == k * t - m * n,
            (a.bits >= 0x8000_0000_0000_0000 && v == -(k as int) && x == -(m as int)) || (a.bits
                < 0x8000_0000_0000_0000 && v == k && x == m),
    ;
}

/// A sum that stays within the format is a number, and near to the exact one.
proof fn lemma_rounded_sum(p: Binary64, q: Binary64)
    requires
        p.finite(),
        q.finite(),
        magnitude(p.value() + q.value()) <= double().number(0x7fef_ffff_ffff_ffff),
    ensures
        ({
            let s = p.sum(q);
            let v = p.value() + q.value();
            let share = 0x10_0000_0000_0000int;
            &&& s.finite()
            &&& -(magnitude(v) + share) <= 2 * (share * (s.value() - v)) <= magnitude(v) + share
        }),
{
    let format = double();
    lemma_even_unit(format);
    lemma_parts(format, p.bits as nat);
    lemma_parts(format, q.bits as nat);
    let v = p.value() + q.value();
    let n = magnitude(v) as nat;
    law_nearest_exists(format, n, 1);
    law_rounding_keeps_order(format, n, 1, 0x7fef_ffff_ffff_ffff);
    lemma_error(format, n, 1);
    lemma_multiple_zero(0, format.unit());
    let f = format.rounded(n, 1);
    let bits = format.sum(p.bits as nat, q.bits as nat);
    if v != 0 {
        assert(bits == format.signed(v < 0, f));
        assert(bits % 0x8000_0000_0000_0000 == f);
    } else {
        assert(bits % 0x8000_0000_0000_0000 == 0);
    }
}

/// The smoothed confidence lies between the one before and the observed one, up
/// to rounding.
#[verifier::spinoff_prover]
pub proof fn law_smoothed_lies_between(confidence: Binary64, observed: Binary64)
    requires
        confidence.finite(),
        observed.finite(),
    ensures
        lies_between(smoothed(confidence, observed), confidence, observed),
{
    let format = double();
    lemma_weights();
    lemma_pow2_pos(1074);
    lemma_pow2_pos(1020);
    lemma_pow2_pos(1021);
    let top = format.number(0x7fef_ffff_ffff_ffff);
    lemma_caps(top);
    lemma_weighted(confidence, old_weight(), top, 0x7fe3_3333_3333_3332);
    lemma_weighted(observed, ema_weight(), top, 0x7fd9_9999_9999_9999);
    let (p, q) = (confidence.product(old_weight()), observed.product(ema_weight()));
    assert(smoothed(confidence, observed) == p.sum(q));
    lemma_rounded_sum(p, q);
    lemma_blend(
        confidence.value(),
        observed.value(),
        p.value(),
        q.value(),
        p.sum(q).value(),
        format.number(old_weight().fields()) as int,
        format.number(ema_weight().fields()) as int,
    );
}

/// The smoothed confidence is three fifths of the one before and two fifths of
/// the observed one, up to rounding.
#[verifier::spinoff_prover]
pub proof fn law_smoothed_is_three_to_two(confidence: Binary64, observed: Binary64)
    requires
        confidence.finite(),
        observed.finite(),
    ensures
        ({
            let (x, y) = (confidence.value(), observed.value());
            let share = 0x10_0000_0000_0000int;
            let off = 5 * smoothed(confidence, observed).value() - (3 * x + 2 * y);
            let lost = 6 * (magnitude(x) + magnitude(y)) + 10 * share;
            -lost <= share * off <= lost
        }),
{
    let format = double();
    lemma_weights();
    lemma_pow2_pos(1074);
    lemma_pow2_pos(1020);
    lemma_pow2_pos(1021);
    let top = format.number(0x7fef_ffff_ffff_ffff);
    lemma_caps(top);
    lemma_weighted(confidence, old_weight(), top, 0x7fe3_3333_3333_3332);
    lemma_weighted(observed, ema_weight(), top, 0x7fd9_9999_9999_9999);
    let (p, q) = (confidence.product(old_weight()), observed.product(ema_weight()));
    lemma_rounded_sum(p, q);
    let (x, y, s) = (confidence.value(), observed.value(), p.sum(q).value());
    let (w, z) = (
        format.number(old_weight().fields()) as int,
        format.number(ema_weight().fields()) as int,
    );
    lemma_blend(x, y, p.value(), q.value(), s, w, z);
    lemma_fifths(x, y, s, w, z);
}

/// The weights are three and two fifths, but for a share of 1/2^53.
proof fn lemma_fifths(x: int, y: int, s: int, w: int, z: int)
    requires
        w == double().number(old_weight().fields()),
        z == double().number(ema_weight().fields()),
        ({
            let share = 0x10_0000_0000_0000int;
            let lost = magnitude(x) + magnitude(y) + 2 * share;
            let off = s * (w + z) - (x * w + y * z);
            -(lost * (w + z)) <= share * off <= lost * (w + z)
        }),
    ensures
        ({
            let share = 0x10_0000_0000_0000int;
            let off = 5 * s - (3 * x + 2 * y);
            let lost = 6 * (magnitude(x) + magnitude(y)) + 10 * share;
            -lost <= share * off <= lost
        }),
{
    let share = 0x10_0000_0000_0000int;
    let p = pow2(1020) as int;
    lemma_weights();
    lemma_pow2_pos(1020);
    lemma_pow2_adds(1020, 1);
    vstd::arithmetic::power2::lemma2_to64();
    let t = w + z;
    assert(5 * w == 3 * t - 2 * p && 5 * z == 2 * t + 2 * p && t == 0x40_0000_0000_0000 * p)
        by (nonlinear_arith)
        requires
            t == w + z,
            w == 0x13_3333_3333_3333 * (2 * p),
            z == 0x19_9999_9999_999a * p,
    ;
    let m = magnitude(x) + magnitude(y);
    let lost = m + 2 * share;
    let off = s * t - (x * w + y * z);
    let d = y - x;
    assert((5 * s - (3 * x + 2 * y)) * t == 5 * off + 2 * (d * p)) by (nonlinear_arith)
        requires
            off == s * t - (x * w + y * z),
            d == y - x,
            5 * w == 3 * t - 2 * p,
            5 * z == 2 * t + 2 * p,
    ;
    assert(-(m * p) <= d * p <= m * p) by (nonlinear_arith)
        requires
            -m <= d <= m,
            p > 0,
    ;
    let e = 5 * s - (3 * x + 2 * y);
    assert(share * (2 * (m * p)) <= m * t) by (nonlinear_arith)
        requires
            t == 0x40_0000_0000_0000 * p,
            share == 0x10_0000_0000_0000,
            m >= 0,
            p > 0,
    ;
    let (dp, mp) = (d * p, m * p);
    assert(-(m * t) <= share * (2 * dp) <= m * t) by (nonlinear_arith)
        requires
            share * (2 * mp) <= m * t,
            -mp <= dp <= mp,
            share == 0x10_0000_0000_0000,
    ;
    let bound = 5 * lost + m;
    assert(-bound <= share * e <= bound) by (nonlinear_arith)
        requires
            e * t == 5 * off + 2 * dp,
            -(lost * t) <= share * off <= lost * t,
            -(m * t) <= share * (2 * dp) <= m * t,
            bound == 5 * lost + m,
            t > 0,
            share == 0x10_0000_0000_0000,
    {
        assert((share * e) * t == 5 * (share * off) + share * (2 * dp));
        assert((share * e) * t <= bound * t);
        assert((share * e) * t >= (-bound) * t);
    }
}

/// What the greatest numbers are weighted to stays within the format.
#[verifier::spinoff_prover]
proof fn lemma_caps(top: nat)
    requires
        top == double().number(0x7fef_ffff_ffff_ffff),
    ensures
        ({
            let format = double();
            let (a, b) = (0x7fe3_3333_3333_3332nat, 0x7fd9_9999_9999_9999nat);
            let (w, x) = (
                format.number(old_weight().fields()),
                format.number(ema_weight().fields()),
            );
            &&& 2 * (top * w) < (format.number(a) + format.number(a + 1)) * pow2(1074)
            &&& 2 * (top * x) < (format.number(b) + format.number(b + 1)) * pow2(1074)
            &&& format.number(a) + format.number(b) <= top
        }),
{
    let format = double();
    lemma_even_unit(format);
    lemma_weights();
    let (a, b) = (0x7fe3_3333_3333_3332nat, 0x7fd9_9999_9999_9999nat);
    assert(0x7fef_ffff_ffff_ffffnat % 0x10_0000_0000_0000 == 0xf_ffff_ffff_ffff
        && 0x7fef_ffff_ffff_ffffnat / 0x10_0000_0000_0000 == 2046);
    assert(a % 0x10_0000_0000_0000 == 0x3_3333_3333_3332 && a / 0x10_0000_0000_0000 == 2046);
    assert((a + 1) % 0x10_0000_0000_0000 == 0x3_3333_3333_3333 && (a + 1) / 0x10_0000_0000_0000
        == 2046);
    assert(b % 0x10_0000_0000_0000 == 0x9_9999_9999_9999 && b / 0x10_0000_0000_0000 == 2045);
    assert((b + 1) % 0x10_0000_0000_0000 == 0x9_9999_9999_999a && (b + 1) / 0x10_0000_0000_0000
        == 2045);
    let (p, g, t) = (pow2(1020), pow2(2044), pow2(1074));
    lemma_pow2_pos(1020);
    lemma_pow2_pos(2044);
    lemma_pow2_adds(1020, 1);
    lemma_pow2_adds(1020, 54);
    lemma_pow2_adds(2044, 1);
    vstd::arithmetic::power2::lemma2_to64();
    vstd::arithmetic::power2::lemma2_to64_rest();
    let k = g * p;
    assert(k > 0) by (nonlinear_arith)
        requires
            k == g * p,
            g > 0,
            p > 0,
    ;
    assert(top == 0x1f_ffff_ffff_ffff * (2 * g));
    assert(format.number(a) == 0x13_3333_3333_3332 * (2 * g));
    assert(format.number(a + 1) == 0x13_3333_3333_3333 * (2 * g));
    assert(format.number(b) == 0x19_9999_9999_9999 * g);
    assert(format.number(b + 1) == 0x19_9999_9999_999a * g);
    let (w, x) = (format.number(old_weight().fields()), format.number(ema_weight().fields()));
    let (c, d) = (
        format.number(a) + format.number(a + 1),
        format.number(b) + format.number(b + 1),
    );
    let (weighted, reach) = (2 * (top * w), c * t);
    assert(weighted == 0x1333_3333_3333_3266_6666_6666_6668 * k && reach
        == 0x1333_3333_3333_3280_0000_0000_0000 * k && weighted < reach) by (nonlinear_arith)
        requires
            weighted == 2 * (top * w),
            reach == c * t,
            top == 0x1f_ffff_ffff_ffff * (2 * g),
            w == 0x13_3333_3333_3333 * (2 * p),
            c == 0x13_3333_3333_3332 * (2 * g) + 0x13_3333_3333_3333 * (2 * g),
            t == p * 0x40_0000_0000_0000,
            k == g * p,
            k > 0,
    ;
    let (lighter, limit) = (2 * (top * x), d * t);
    assert(lighter == 0xccc_cccc_cccc_cc99_9999_9999_9998 * k && limit
        == 0xccc_cccc_cccc_ccc0_0000_0000_0000 * k && lighter < limit) by (nonlinear_arith)
        requires
            lighter == 2 * (top * x),
            limit == d * t,
            top == 0x1f_ffff_ffff_ffff * (2 * g),
            x == 0x19_9999_9999_999a * p,
            d == 0x19_9999_9999_9999 * g + 0x19_9999_9999_999a * g,
            t == p * 0x40_0000_0000_0000,
            k == g * p,
            k > 0,
    ;
    let (m, n) = (format.number(a), format.number(b));
    assert(m + n <= top) by (nonlinear_arith)
        requires
            top == 0x1f_ffff_ffff_ffff * (2 * g),
            m == 0x13_3333_3333_3332 * (2 * g),
            n == 0x19_9999_9999_9999 * g,
    ;
}

/// The errors of the two products and of their sum, put together.
proof fn lemma_blend(x: int, y: int, p: int, q: int, s: int, w: int, z: int)
    requires
        w >= 0,
        z >= 0,
        w + z > 0,
        magnitude(p) <= magnitude(x),
        magnitude(q) <= magnitude(y),
        ({
            let t = w + z;
            let share = 0x10_0000_0000_0000int;
            &&& -(magnitude(x) * w + share * t) <= 2 * (share * (p * t - x * w)) <= magnitude(x) * w
                + share * t
            &&& -(magnitude(y) * z + share * t) <= 2 * (share * (q * t - y * z)) <= magnitude(y) * z
                + share * t
            &&& -(magnitude(p + q) + share) <= 2 * (share * (s - (p + q))) <= magnitude(p + q)
                + share
        }),
    ensures
        ({
            let (low, high) = if x <= y {
                (x, y)
            } else {
                (y, x)
            };
            let share = 0x10_0000_0000_0000int;
            let lost = magnitude(x) + magnitude(y) + 2 * share;
            let off = s * (w + z) - (x * w + y * z);
            &&& share * (low - s) <= lost
            &&& share * (s - high) <= lost
            &&& -(lost * (w + z)) <= share * off <= lost * (w + z)
        }),
{
    let t = w + z;
    let share = 0x10_0000_0000_0000int;
    let (mx, my) = (magnitude(x), magnitude(y));
    let (low, high) = if x <= y {
        (x, y)
    } else {
        (y, x)
    };
    let exact = x * w + y * z;
    let (a, b, c) = (p * t - x * w, q * t - y * z, s - (p + q));
    assert(s * t - exact == c * t + a + b) by (nonlinear_arith)
        requires
            exact == x * w + y * z,
            a == p * t - x * w,
            b == q * t - y * z,
            c == s - (p + q),
    ;
    let m = mx + my;
    assert(magnitude(p + q) <= m);
    assert(-((m + share) * t) <= 2 * (share * (c * t)) <= (m + share) * t) by (nonlinear_arith)
        requires
            -(m + share) <= 2 * (share * c) <= m + share,
            t > 0,
    ;
    assert(mx * w + my * z <= m * t && (m + share) * t == m * t + share * t) by (nonlinear_arith)
        requires
            m == mx + my,
            t == w + z,
            mx >= 0,
            my >= 0,
            w >= 0,
            z >= 0,
    ;
    let off = s * t - exact;
    assert(-(m * t + 2 * (share * t)) <= share * off <= m * t + 2 * (share * t));
    assert(low * t <= exact <= high * t) by (nonlinear_arith)
        requires
            exact == x * w + y * z,
            t == w + z,
            low <= x <= high,
            low <= y <= high,
            w >= 0,
            z >= 0,
    ;
    let lost = m + 2 * share;
    assert((share * (s - high)) * t <= lost * t) by (nonlinear_arith)
        requires
            share * off <= m * t + 2 * (share * t),
            off == s * t - exact,
            exact <= high * t,
            lost == m + 2 * share,
            share == 0x10_0000_0000_0000,
    ;
    assert((share * (low - s)) * t <= lost * t) by (nonlinear_arith)
        requires
            -(m * t + 2 * (share * t)) <= share * off,
            off == s * t - exact,
            low * t <= exact,
            lost == m + 2 * share,
            share == 0x10_0000_0000_0000,
    ;
    assert(lost * t == m * t + 2 * (share * t)) by (nonlinear_arith)
        requires
            lost == m + 2 * share,
    ;
    let (g, h) = (share * (s - high), share * (low - s));
    assert(g <= lost && h <= lost) by (nonlinear_arith)
        requires
            g * t <= lost * t,
            h * t <= lost * t,
            t > 0,
    ;
}

// --- Distances

/// The exact square of the distance of a centroid from the detection, in squares
/// of the smallest number.
pub open spec fn exact_dist_sq(centroid: (Binary32, Binary32), d: Detection) -> int {
    let (x, y) = (centroid.0.value() - d.cx.value(), centroid.1.value() - d.cy.value());
    x * x + y * y
}

/// The centre of the detection and that of the track are numbers, and the
/// diagonal is one of no more than 2^60.
pub open spec fn measurable(d: Detection, t: Track) -> bool {
    &&& d.cx.finite() && d.cy.finite() && t.centroid.0.finite() && t.centroid.1.finite()
    &&& d.face_diag.fields() <= 0x5d80_0000
    &&& d.face_diag.value() >= 0
}

/// From the error of a number to that of its square.
proof fn lemma_squared_error(x: int, d: int)
    requires
        near(d, x, 1),
    ensures
        -(x * x + 0x800_0000_0000) <= 0x20_0000 * (d * d - x * x) <= x * x + 0x800_0000_0000,
{
    let (xx, m) = (x * x, magnitude(x));
    let e = d - x;
    let f = 0x100_0000 * e;
    assert(0x1_0000_0000_0000 * (d * d - xx) == f * (0x200_0000 * x + f)) by (nonlinear_arith)
        requires
            xx == x * x,
            e == d - x,
            f == 0x100_0000 * e,
    ;
    let g = m + 0x80_0000;
    let h = 0x200_0000 * m + g;
    assert(-(g * h) <= f * (0x200_0000 * x + f) <= g * h) by (nonlinear_arith)
        requires
            -g <= f <= g,
            m >= 0,
            -m <= x <= m,
            g == m + 0x80_0000,
            h == 0x200_0000 * m + g,
    {
        let k = 0x200_0000 * x + f;
        assert(-h <= k <= h);
        assert(f * k <= g * h && f * k >= -(g * h));
    }
    assert(xx == m * m) by (nonlinear_arith)
        requires
            xx == x * x,
            m == x || m == -x,
    ;
    assert(g * h == 0x200_0001 * xx + 0x1_0000_0100_0000 * m + 0x4000_0000_0000)
        by (nonlinear_arith)
        requires
            g == m + 0x80_0000,
            h == 0x200_0000 * m + g,
            xx == m * m,
    ;
    assert(0x80_0000 * m <= xx + 0x1000_0000_0000) by (nonlinear_arith)
        requires
            xx == m * m,
    {
        let k = m - 0x40_0000;
        assert(k * k >= 0);
        assert(k * k == m * m - 0x80_0000 * m + 0x1000_0000_0000);
    }
}

/// The square of the difference of two coordinates.
proof fn lemma_coordinate(a: Binary32, b: Binary32)
    requires
        a.finite(),
        b.finite(),
    ensures
        ({
            let x = a.value() - b.value();
            let dx = a.difference(b);
            let p = dx.product(dx);
            let t = pow2(149) as int;
            &&& p.bits <= 0x7f80_0000
            &&& p.finite() ==> {
                &&& p.value() >= 0
                &&& -(x * x + 0x10_0000 * t) <= 0x10_0000 * (p.value() * t - x * x) <= x * x
                    + 0x10_0000 * t
            }
            &&& magnitude(x) <= single().number(0x5d80_0000) ==> p.fields() <= 0x7b80_0000
        }),
{
    let format = single();
    let x = a.value() - b.value();
    let dx = a.difference(b);
    let p = dx.product(dx);
    let t = pow2(149) as int;
    lemma_even_unit(format);
    lemma_pow2_pos(149);
    lemma_parts(format, dx.bits as nat);
    law_difference_is_near(a, b, 0x5d80_0000);
    lemma_not_negative(dx);
    law_finite_results_have_finite_operands(dx, dx);
    if dx.finite() {
        law_product_is_near(dx, dx, 0x7b80_0000);
        lemma_squared_error(x, dx.value());
        lemma_pow2_adds(64, 85);
        lemma_pow2_pos(85);
        vstd::arithmetic::power2::lemma2_to64();
        assert(t >= 0x800_0000_0000) by {
            let (c, d) = (pow2(64) as int, pow2(85) as int);
            assert(c * d >= c) by (nonlinear_arith)
                requires
                    d >= 1,
                    c >= 0,
            ;
        }
        let (xx, dd) = (x * x, dx.value() * dx.value());
        assert(xx >= 0 && dd >= 0) by (nonlinear_arith)
            requires
                xx == x * x,
                dd == dx.value() * dx.value(),
        ;
        if p.finite() {
            assert(p.value() >= 0);
        }
        if magnitude(x) <= format.number(0x5d80_0000) {
            lemma_power(0xbb);
            lemma_power(0xf7);
            lemma_multiple_order(0x5d80_0000, dx.fields(), format.unit());
            lemma_pow2_adds(209, 209);
            lemma_pow2_adds(269, 149);
            let (v, c) = (dx.value(), pow2(209) as int);
            assert(v * v <= c * c) by (nonlinear_arith)
                requires
                    -c <= v <= c,
            ;
        }
    } else {
        lemma_multiple_order(0x5d80_0000, 0x7f80_0000, format.unit());
    }
}

/// The number of a power of two.
proof fn lemma_power(exp: nat)
    requires
        1 <= exp <= 255,
    ensures
        single().number(exp * 0x80_0000) == pow2((exp + 22) as nat),
{
    lemma_even_unit(single());
    let f = exp * 0x80_0000;
    assert(f % 0x80_0000 == 0 && f / 0x80_0000 == exp);
    lemma_pow2_adds(23, (exp - 1) as nat);
    let (u, p) = (0x80_0000nat, pow2((exp - 1) as nat));
    assert((u + 0) * p == u * p);
}

/// A square is not negative.
proof fn lemma_not_negative(x: Binary32)
    requires
        !x.is_nan(),
    ensures
        x.product(x).bits <= 0x7f80_0000,
{
    let format = single();
    lemma_even_unit(format);
    let n = format.number(x.fields());
    law_nearest_exists(format, n * n, pow2(149));
}

/// The squared distance is near to the exact one.
proof fn lemma_distance(centroid: (Binary32, Binary32), d: Detection)
    requires
        centroid.0.finite(),
        centroid.1.finite(),
        d.cx.finite(),
        d.cy.finite(),
    ensures
        ({
            let got = dist_sq(centroid, d);
            let exact = exact_dist_sq(centroid, d);
            let t = pow2(149) as int;
            let top = single().number(0x5d80_0000);
            &&& exact >= 0
            &&& got.bits <= 0x7f80_0000
            &&& got.finite() ==> -(2 * exact + 0x40_0000 * t) <= 0x10_0000 * (got.value() * t
                - exact) <= 2 * exact + 0x40_0000 * t
            &&& exact <= top * top ==> got.finite()
        }),
{
    let format = single();
    let (x, y) = (centroid.0.value() - d.cx.value(), centroid.1.value() - d.cy.value());
    let dx = centroid.0.difference(d.cx);
    let dy = centroid.1.difference(d.cy);
    let (p, q) = (dx.product(dx), dy.product(dy));
    let got = dist_sq(centroid, d);
    let t = pow2(149) as int;
    assert(got == p.sum(q));
    lemma_even_unit(format);
    lemma_pow2_pos(149);
    lemma_coordinate(centroid.0, d.cx);
    lemma_coordinate(centroid.1, d.cy);
    law_finite_results_have_finite_operands(p, q);
    let (xx, yy) = (x * x, y * y);
    assert(xx >= 0 && yy >= 0) by (nonlinear_arith)
        requires
            xx == x * x,
            yy == y * y,
    ;
    assert(p.fields() == p.bits && q.fields() == q.bits);
    if p.finite() && q.finite() {
        law_sum_is_near(p, q, 0x7c00_0000);
        lemma_sum_bits(p, q);
        let (v, w) = (p.value(), q.value());
        assert((v + w) * t == v * t + w * t) by (nonlinear_arith);
        if got.finite() {
            let off = got.value() - (v + w);
            assert(-((v + w) * t + 0x80_0000 * t) <= 0x100_0000 * (off * t) <= (v + w) * t
                + 0x80_0000 * t) by (nonlinear_arith)
                requires
                    -((v + w) + 0x80_0000) <= 0x100_0000 * off <= (v + w) + 0x80_0000,
                    t > 0,
            ;
            assert(off * t == got.value() * t - (v + w) * t) by (nonlinear_arith)
                requires
                    off == got.value() - (v + w),
            ;
        }
    } else {
        lemma_sum_bits(p, q);
    }
    let top = format.number(0x5d80_0000) as int;
    if xx + yy <= top * top {
        assert(magnitude(x) <= top && magnitude(y) <= top) by {
            lemma_root_order(x, top);
            lemma_root_order(y, top);
        }
        lemma_power(0xf7);
        lemma_power(0xf8);
        lemma_pow2_adds(269, 1);
        vstd::arithmetic::power2::lemma2_to64();
        lemma_multiple_order(0x7b80_0000, p.fields(), format.unit());
        lemma_multiple_order(0x7b80_0000, q.fields(), format.unit());
    }
}

proof fn lemma_root_order(x: int, top: int)
    requires
        x * x <= top * top,
        top >= 0,
    ensures
        magnitude(x) <= top,
{
    let m = magnitude(x);
    if m > top {
        assert(m * m > top * top) by (nonlinear_arith)
            requires
                m > top,
                top >= 0,
        ;
        assert(m * m == x * x) by (nonlinear_arith)
            requires
                m == x || m == -x,
        ;
    }
}

/// The sum of two numbers that are not negative is not negative.
proof fn lemma_sum_bits(p: Binary32, q: Binary32)
    requires
        p.bits <= 0x7f80_0000,
        q.bits <= 0x7f80_0000,
    ensures
        p.sum(q).bits <= 0x7f80_0000,
{
    let format = single();
    lemma_even_unit(format);
    assert(p.fields() == p.bits && q.fields() == q.bits);
    let v = (p.value() + q.value()) as nat;
    law_nearest_exists(format, v, 1);
}

/// 0.6 as the number of the format that is nearest.
proof fn lemma_ratio()
    ensures
        dist_ratio().finite(),
        dist_ratio().value() == 10066330 * pow2(125),
        pow2(149) == 0x100_0000 * pow2(125),
{
    let f = 0x3f19_999anat;
    lemma_even_unit(single());
    assert(f % 0x8000_0000 == f);
    assert(f % 0x80_0000 == 0x19_999a && f / 0x80_0000 == 126);
    lemma_pow2_adds(24, 125);
    vstd::arithmetic::power2::lemma2_to64();
    assert(single().unit() + f % single().unit() == 10066330);
}

/// A product with 0.6.
proof fn lemma_times_ratio(v: Binary32)
    requires
        v.finite(),
        v.value() >= 0,
    ensures
        ({
            let p = v.product(dist_ratio());
            let exact = 10066330 * v.value();
            &&& p.finite()
            &&& p.fields() <= v.fields()
            &&& p.value() >= 0
            &&& -(exact + 0x8000_0000_0000) <= 0x100_0000 * (0x100_0000 * p.value() - exact)
                <= exact + 0x8000_0000_0000
        }),
{
    let (r, g, t) = (dist_ratio().value(), pow2(125) as int, pow2(149) as int);
    let x = v.value();
    let p = v.product(dist_ratio());
    lemma_ratio();
    lemma_pow2_pos(125);
    lemma_even_unit(single());
    assert(x == single().number(v.fields())) by {
        lemma_multiple_zero(v.fields(), single().unit());
    }
    assert(x * r <= x * t && x * r >= 0) by (nonlinear_arith)
        requires
            0 <= r <= t,
            x >= 0,
    ;
    law_product_is_near(v, dist_ratio(), v.fields());
    let y = p.value();
    let exact = 10066330 * x;
    assert(y * t == (0x100_0000 * y) * g && x * r == exact * g) by (nonlinear_arith)
        requires
            t == 0x100_0000 * g,
            r == 10066330 * g,
            exact == 10066330 * x,
    ;
    let off = 0x100_0000 * y - exact;
    assert(-(exact + 0x8000_0000_0000) <= 0x100_0000 * off <= exact + 0x8000_0000_0000)
        by (nonlinear_arith)
        requires
            -(exact * g + 0x80_0000 * t) <= 0x100_0000 * ((0x100_0000 * y) * g - exact * g)
                <= exact * g + 0x80_0000 * t,
            t == 0x100_0000 * g,
            off == 0x100_0000 * y - exact,
            g > 0,
    {
        let most = exact + 0x8000_0000_0000;
        assert(exact * g + 0x80_0000 * t == most * g);
        assert((0x100_0000 * off) * g == 0x100_0000 * ((0x100_0000 * y) * g - exact * g));
        assert((0x100_0000 * off) * g <= most * g);
        assert((0x100_0000 * off) * g >= (-most) * g);
    }
}

/// The errors of the three products of the reach, put together.
proof fn lemma_reach_error(v: int, a: int, b: int, c: int, t: int)
    requires
        v >= 0,
        a >= 0,
        b >= 0,
        t >= 0x1_0000_0000_0000_0000,
        -(10066330 * v + 0x8000_0000_0000) <= 0x100_0000 * (0x100_0000 * a - 10066330 * v)
            <= 10066330 * v + 0x8000_0000_0000,
        near(b * t, a * v, t),
        -(10066330 * b + 0x8000_0000_0000) <= 0x100_0000 * (0x100_0000 * c - 10066330 * b)
            <= 10066330 * b + 0x8000_0000_0000,
    ensures
        ({
            let nine = 9 * (v * v);
            let off = 25 * (c * t) - nine;
            -(nine + 0x800_0000 * t) <= 0x10_0000 * off <= nine + 0x800_0000 * t
        }),
{
    let (y, av, bt, ct) = (v * v, a * v, b * t, c * t);
    assert(y >= 0 && av >= 0 && bt >= 0) by (nonlinear_arith)
        requires
            y == v * v,
            av == a * v,
            bt == b * t,
            a >= 0,
            v >= 0,
            b >= 0,
            t >= 0,
    ;
    // a against 0.6 v, times v.
    let av_most = 10066330 * y + 0x8000_0000_0000 * v;
    assert(-av_most <= 0x100_0000 * (0x100_0000 * av - 10066330 * y) <= av_most)
        by (nonlinear_arith)
        requires
            av_most == 10066330 * y + 0x8000_0000_0000 * v,
            y == v * v,
            av == a * v,
            v >= 0,
            -(10066330 * v + 0x8000_0000_0000) <= 0x100_0000 * (0x100_0000 * a - 10066330 * v)
                <= 10066330 * v + 0x8000_0000_0000,
    {
        let e = 0x100_0000 * (0x100_0000 * a - 10066330 * v);
        let most = 10066330 * v + 0x8000_0000_0000;
        assert(e * v == 0x100_0000 * (0x100_0000 * av - 10066330 * y));
        assert(most * v == av_most);
        assert(e * v <= most * v && e * v >= (-most) * v);
    }
    assert(0x100_0000 * v <= y + 0x4000_0000_0000) by (nonlinear_arith)
        requires
            y == v * v,
    {
        let k = v - 0x80_0000;
        assert(k * k >= 0);
        assert(k * k == v * v - 0x100_0000 * v + 0x4000_0000_0000);
    }
    // c against 0.6 b, times t.
    let ct_most = 10066330 * bt + 0x8000_0000_0000 * t;
    assert(-ct_most <= 0x100_0000 * (0x100_0000 * ct - 10066330 * bt) <= ct_most)
        by (nonlinear_arith)
        requires
            ct_most == 10066330 * bt + 0x8000_0000_0000 * t,
            bt == b * t,
            ct == c * t,
            t >= 0,
            -(10066330 * b + 0x8000_0000_0000) <= 0x100_0000 * (0x100_0000 * c - 10066330 * b)
                <= 10066330 * b + 0x8000_0000_0000,
    {
        let e = 0x100_0000 * (0x100_0000 * c - 10066330 * b);
        let most = 10066330 * b + 0x8000_0000_0000;
        assert(e * t == 0x100_0000 * (0x100_0000 * ct - 10066330 * bt));
        assert(most * t == ct_most);
        assert(e * t <= most * t && e * t >= (-most) * t);
    }
    assert(-(av + 0x80_0000 * t) <= 0x100_0000 * (bt - av) <= av + 0x80_0000 * t);
}

/// The reach is near to nine twenty-fifths of the squared diagonal.
proof fn lemma_reach(d: Detection)
    requires
        d.face_diag.fields() <= 0x5d80_0000,
        d.face_diag.value() >= 0,
    ensures
        ({
            let v = d.face_diag.value();
            let t = pow2(149) as int;
            let nine = 9 * (v * v);
            let off = 25 * (reach_sq(d).value() * t) - nine;
            &&& reach_sq(d).finite()
            &&& -(nine + 0x800_0000 * t) <= 0x10_0000 * off <= nine + 0x800_0000 * t
        }),
{
    let format = single();
    let g = d.face_diag;
    let a = g.product(dist_ratio());
    let b = a.product(g);
    let c = b.product(dist_ratio());
    let t = pow2(149) as int;
    lemma_even_unit(format);
    lemma_pow2_pos(149);
    lemma_multiple_zero(g.fields(), format.unit());
    lemma_times_ratio(g);
    lemma_multiple_zero(a.fields(), format.unit());
    lemma_power(0xbb);
    lemma_power(0xf7);
    lemma_multiple_order(0x5d80_0000, g.fields(), format.unit());
    lemma_multiple_order(0x5d80_0000, a.fields(), format.unit());
    lemma_pow2_adds(209, 209);
    lemma_pow2_adds(269, 149);
    let (x, y, k) = (a.value(), g.value(), pow2(209) as int);
    assert(0 <= x * y <= k * k) by (nonlinear_arith)
        requires
            0 <= x <= k,
            0 <= y <= k,
    ;
    law_product_is_near(a, g, 0x7b80_0000);
    lemma_times_ratio(b);
    lemma_pow2_adds(64, 85);
    lemma_pow2_pos(85);
    vstd::arithmetic::power2::lemma2_to64();
    assert(t >= 0x1_0000_0000_0000_0000) by {
        let (e, f) = (pow2(64) as int, pow2(85) as int);
        assert(e * f >= e) by (nonlinear_arith)
            requires
                f >= 1,
                e >= 0,
        ;
    }
    lemma_reach_error(y, x, b.value(), c.value(), t);
}

/// A detection is close to a track exactly if the distance of their centres, in
/// both coordinates, is below 0.6 times the face's diagonal, but for rounding:
/// 25 squared distances are compared with 9 squared diagonals, and each can be
/// off by a share of 1/2^19, and by less than 2^-120 square pixels.
pub proof fn law_close_is_below_three_fifths(d: Detection, t: Track)
    requires
        measurable(d, t),
    ensures
        ({
            let far = 25 * exact_dist_sq(t.centroid, d);
            let reach = 9 * (d.face_diag.value() * d.face_diag.value());
            let slack = 0x1000_0000 * pow2(149);
            &&& close(d, t) ==> 0x10_0000 * (far - reach) <= 2 * far + reach + slack
            &&& !close(d, t) ==> 0x10_0000 * (reach - far) <= 2 * far + reach + slack
        }),
{
    let format = single();
    let (got, r) = (dist_sq(t.centroid, d), reach_sq(d));
    let exact = exact_dist_sq(t.centroid, d);
    let v = d.face_diag.value();
    let k = pow2(149) as int;
    lemma_even_unit(format);
    lemma_pow2_pos(149);
    lemma_distance(t.centroid, d);
    lemma_reach(d);
    assert(got.fields() == got.bits);
    lemma_parts(format, r.bits as nat);
    lemma_multiple_order(got.fields(), r.fields(), format.unit());
    lemma_multiple_order(0x5d80_0000, d.face_diag.fields(), format.unit());
    let (a, b) = (got.value(), r.value());
    let top = format.number(0x5d80_0000) as int;
    if close(d, t) {
        assert(got.finite());
        assert(a * k <= b * k) by (nonlinear_arith)
            requires
                a <= b,
                k > 0,
        ;
    } else if got.finite() {
        assert(a * k >= b * k) by (nonlinear_arith)
            requires
                a >= b,
                k > 0,
        ;
    } else {
        // Out of range is farther than any reach.
        assert(v * v <= top * top) by (nonlinear_arith)
            requires
                0 <= v <= top,
        ;
    }
}

/// A track whose centre differs by the whole diagonal or more, in either
/// coordinate, is not close; one within half the diagonal is.
pub proof fn law_close_within_half_but_not_beyond_whole_diagonal(d: Detection, t: Track)
    requires
        measurable(d, t),
        one().at_most(d.face_diag),
    ensures
        ({
            let (x, y) = (
                magnitude(t.centroid.0.value() - d.cx.value()),
                magnitude(t.centroid.1.value() - d.cy.value()),
            );
            let v = d.face_diag.value();
            &&& x >= v || y >= v ==> !close(d, t)
            &&& 4 * exact_dist_sq(t.centroid, d) <= v * v ==> close(d, t)
        }),
{
    let (p, q) = (t.centroid.0.value() - d.cx.value(), t.centroid.1.value() - d.cy.value());
    let v = d.face_diag.value();
    let (k, one) = (pow2(149) as int, pow2(149) as int);
    let exact = exact_dist_sq(t.centroid, d);
    law_close_is_below_three_fifths(d, t);
    lemma_power(0x7f);
    assert(0x3f80_0000nat % 0x8000_0000 == 0x3f80_0000);
    lemma_pow2_adds(64, 85);
    lemma_pow2_pos(85);
    vstd::arithmetic::power2::lemma2_to64();
    assert(v >= k);
    assert(k >= 0x1_0000_0000_0000_0000) by {
        let (e, f) = (pow2(64) as int, pow2(85) as int);
        assert(e * f >= e) by (nonlinear_arith)
            requires
                f >= 1,
                e >= 0,
        ;
    }
    let vv = v * v;
    assert(vv >= 0x1_0000_0000_0000_0000 * k) by (nonlinear_arith)
        requires
            vv == v * v,
            v >= k,
            k >= 0x1_0000_0000_0000_0000,
    {
        assert(v * v >= k * k);
        assert(k * k >= 0x1_0000_0000_0000_0000 * k);
    }
    let (pp, qq) = (p * p, q * q);
    assert(pp >= 0 && qq >= 0 && (magnitude(p) >= v ==> pp >= vv) && (magnitude(q) >= v ==> qq
        >= vv)) by (nonlinear_arith)
        requires
            pp == p * p,
            qq == q * q,
            vv == v * v,
            v >= 0,
    ;
}

/// In a frame, a detection that differs from every track there is at its turn by
/// the whole diagonal or more in a coordinate is reported under a new ID.
pub proof fn law_far_detection_starts_a_track(
    tracks: Seq<Track>,
    next: u32,
    ds: Seq<Detection>,
    k: int,
)
    requires
        0 <= k < ds.len(),
        one().at_most(ds[k].face_diag),
        forall|i: int|
            0 <= i < frame_after(tracks, next, ds, k).tracks.len() ==> {
                let t = #[trigger] frame_after(tracks, next, ds, k).tracks[i];
                let v = ds[k].face_diag.value();
                &&& measurable(ds[k], t)
                &&& magnitude(t.centroid.0.value() - ds[k].cx.value()) >= v || magnitude(
                    t.centroid.1.value() - ds[k].cy.value(),
                ) >= v
            },
    ensures
        ({
            let f = frame_after(tracks, next, ds, k);
            let g = frame_after(tracks, next, ds, ds.len() as int);
            &&& g.results[k].0 == f.next_track_id
            &&& g.results[k].2 == ds[k].confidence
            &&& f.next_track_id < u32::MAX ==> frame_after(tracks, next, ds, k + 1).next_track_id
                == f.next_track_id + 1
        }),
{
    let f = frame_after(tracks, next, ds, k);
    let slot = slot_of(tracks, next, ds, k);
    lemma_first_close(ds[k], f.tracks, 0);
    lemma_slots(tracks, next, ds, k);
    if slot < f.tracks.len() {
        law_close_within_half_but_not_beyond_whole_diagonal(ds[k], f.tracks[slot]);
    }
    assert(frame_after(tracks, next, ds, k + 1) == observed(f, ds[k]));
    lemma_results_stay(tracks, next, ds, k + 1, ds.len() as int, k);
}

/// In a frame, a detection within half the diagonal of some track there is at its
/// turn is reported under the ID of a track that is closer than the diagonal, with
/// the confidence smoothed, and starts none.
pub proof fn law_near_detection_keeps_an_id(
    tracks: Seq<Track>,
    next: u32,
    ds: Seq<Detection>,
    k: int,
    i: int,
) -> (slot: int)
    requires
        0 <= k < ds.len(),
        one().at_most(ds[k].face_diag),
        forall|j: int|
            0 <= j < frame_after(tracks, next, ds, k).tracks.len() ==> measurable(
                ds[k],
                #[trigger] frame_after(tracks, next, ds, k).tracks[j],
            ),
        0 <= i < frame_after(tracks, next, ds, k).tracks.len(),
        4 * exact_dist_sq(frame_after(tracks, next, ds, k).tracks[i].centroid, ds[k])
            <= ds[k].face_diag.value() * ds[k].face_diag.value(),
    ensures
        ({
            let f = frame_after(tracks, next, ds, k);
            let g = frame_after(tracks, next, ds, ds.len() as int);
            let t = f.tracks[slot];
            let v = ds[k].face_diag.value();
            &&& 0 <= slot <= i
            &&& g.results[k].0 == t.id
            &&& g.results[k].2 == smoothed(t.confidence, ds[k].confidence)
            &&& magnitude(t.centroid.0.value() - ds[k].cx.value()) < v
            &&& magnitude(t.centroid.1.value() - ds[k].cy.value()) < v
            &&& frame_after(tracks, next, ds, k + 1).next_track_id == f.next_track_id
        }),
{
    let f = frame_after(tracks, next, ds, k);
    let slot = slot_of(tracks, next, ds, k);
    lemma_first_close(ds[k], f.tracks, 0);
    lemma_slots(tracks, next, ds, k);
    law_close_within_half_but_not_beyond_whole_diagonal(ds[k], f.tracks[i]);
    law_close_within_half_but_not_beyond_whole_diagonal(ds[k], f.tracks[slot]);
    assert(frame_after(tracks, next, ds, k + 1) == observed(f, ds[k]));
    lemma_results_stay(tracks, next, ds, k + 1, ds.len() as int, k);
    slot
}

// --- Frames in a row

/// Tracks and next ID after one frame.
pub open spec fn after_shot(
    state: (Seq<Track>, u32),
    shot: Seq<Detection>,
) -> (Seq<Track>, u32) {
    let f = shot_frame(state, shot);
    (kept(f.tracks, f.results), f.next_track_id)
}

/// The frame that a shot makes, once all its detections had their turn.
pub open spec fn shot_frame(
    state: (Seq<Track>, u32),
    shot: Seq<Detection>,
) -> Frame {
    frame_after(state.0, state.1, shot, shot.len() as int)
}

/// Tracks and next ID after the first `n` frames.
pub open spec fn after_shots(
    state: (Seq<Track>, u32),
    shots: Seq<Seq<Detection>>,
    n: int,
) -> (Seq<Track>, u32)
    decreases n,
{
    if n <= 0 {
        state
    } else {
        after_shot(after_shots(state, shots, n - 1), shots[n - 1])
    }
}

/// `t` is there, and no other track has its ID.
pub open spec fn only_one(tracks: Seq<Track>, t: Track) -> bool {
    &&& tracks.contains(t)
    &&& forall|i: int| 0 <= i < tracks.len() && (#[trigger] tracks[i]).id == t.id ==> tracks[i] == t
}

/// No track has that ID.
pub open spec fn no_track(tracks: Seq<Track>, id: u32) -> bool {
    forall|i: int| 0 <= i < tracks.len() ==> (#[trigger] tracks[i]).id != id
}

/// The track after `n` further missed frames.
pub open spec fn unseen_for(t: Track, n: int) -> Track {
    Track { missed: (t.missed + n) as u32, ..t }
}

proof fn lemma_unseen_in_frame(
    tracks: Seq<Track>,
    next: u32,
    ds: Seq<Detection>,
    k: int,
    t: Track,
)
    requires
        0 <= k <= ds.len(),
        !seen(frame_after(tracks, next, ds, k).results, t.id),
    ensures
        only_one(tracks, t) ==> only_one(frame_after(tracks, next, ds, k).tracks, t),
        no_track(tracks, t.id) ==> no_track(
            frame_after(tracks, next, ds, k).tracks,
            t.id,
        ),
    decreases k,
{
    if k > 0 {
        let f = frame_after(tracks, next, ds, k - 1);
        let g = frame_after(tracks, next, ds, k);
        assert forall|i: int| 0 <= i < f.results.len() implies (#[trigger] f.results[i]).0
            != t.id by {
            assert(g.results[i] == f.results[i]);
        }
        lemma_unseen_in_frame(tracks, next, ds, k - 1, t);
        lemma_slots(tracks, next, ds, k - 1);
        lemma_result_tracks(tracks, next, ds, k, k - 1);
        lemma_slots(tracks, next, ds, k);
        let slot = slot_of(tracks, next, ds, k - 1);
        assert(g.results[k - 1].0 != t.id);
        assert(g.tracks[slot].id != t.id);
        assert forall|i: int| 0 <= i < g.tracks.len() && i != slot implies #[trigger] g.tracks[i]
            == f.tracks[i] by {}
        if only_one(tracks, t) {
            let i = choose|i: int| 0 <= i < f.tracks.len() && f.tracks[i] == t;
            if slot < f.tracks.len() {
                assert(g.tracks[slot].id == f.tracks[slot].id);
            }
            assert(i != slot);
            assert(g.tracks[i] == t);
        }
    }
}

/// A track that no detection of a frame goes to has missed the frame: it stays,
/// otherwise unchanged, while it missed fewer than [`TRACK_MAX_MISSED`] frames,
/// and goes with the last of them.
pub proof fn law_unseen_track_misses_frame(
    state: (Seq<Track>, u32),
    shot: Seq<Detection>,
    t: Track,
)
    requires
        t.missed < TRACK_MAX_MISSED,
        !seen(shot_frame(state, shot).results, t.id),
    ensures
        only_one(state.0, t) && t.missed + 1 < TRACK_MAX_MISSED ==> only_one(
            after_shot(state, shot).0,
            unseen_for(t, 1),
        ),
        only_one(state.0, t) && t.missed + 1 >= TRACK_MAX_MISSED ==> no_track(
            after_shot(state, shot).0,
            t.id,
        ),
        no_track(state.0, t.id) ==> no_track(after_shot(state, shot).0, t.id),
{
    let f = shot_frame(state, shot);
    lemma_unseen_in_frame(state.0, state.1, shot, shot.len() as int, t);
    let left = kept(f.tracks, f.results);
    assert forall|j: int|
        0 <= j < left.len() && (#[trigger] left[j]).id == t.id && only_one(state.0, t) implies left[j]
        == unseen_for(t, 1) && t.missed + 1 < TRACK_MAX_MISSED by {
        let i = lemma_kept_origin(f.tracks, f.results, j);
        assert(f.tracks[i].id == t.id);
    }
    assert forall|j: int| 0 <= j < left.len() && no_track(state.0, t.id) implies (
    #[trigger] left[j]).id != t.id by {
        let i = lemma_kept_origin(f.tracks, f.results, j);
        assert(f.tracks[i].id != t.id);
    }
    if only_one(state.0, t) && t.missed + 1 < TRACK_MAX_MISSED {
        let i = choose|i: int| 0 <= i < f.tracks.len() && f.tracks[i] == t;
        assert(aged(f.tracks[i], f.results) == unseen_for(t, 1));
        lemma_kept_contains(f.tracks, f.results, i);
    }
}

/// Over any frames in a row in which no detection goes to a track, the track
/// stays until it missed [`TRACK_MAX_MISSED`] frames, and is gone from then on.
pub proof fn law_track_is_dropped_after_max_missed(
    state: (Seq<Track>, u32),
    shots: Seq<Seq<Detection>>,
    n: int,
    t: Track,
)
    requires
        0 <= n <= shots.len(),
        only_one(state.0, t),
        t.missed < TRACK_MAX_MISSED,
        forall|m: int|
            0 <= m < n ==> !seen(
                shot_frame(#[trigger] after_shots(state, shots, m), shots[m]).results,
                t.id,
            ),
    ensures
        t.missed + n < TRACK_MAX_MISSED ==> only_one(
            after_shots(state, shots, n).0,
            unseen_for(t, n),
        ),
        t.missed + n >= TRACK_MAX_MISSED ==> no_track(after_shots(state, shots, n).0, t.id),
    decreases n,
{
    if n > 0 {
        law_track_is_dropped_after_max_missed(state, shots, n - 1, t);
        let before = after_shots(state, shots, n - 1);
        if t.missed + n - 1 < TRACK_MAX_MISSED {
            law_unseen_track_misses_frame(before, shots[n - 1], unseen_for(t, n - 1));
            assert(unseen_for(unseen_for(t, n - 1), 1) == unseen_for(t, n));
        } else {
            law_unseen_track_misses_frame(before, shots[n - 1], t);
        }
    } else {
        assert(unseen_for(t, 0) == t);
    }
}

// --- IDs over many frames

/// How many tracks the first `k` detections of a frame start.
pub open spec fn starts_in(tracks: Seq<Track>, next: u32, ds: Seq<Detection>, k: int) -> nat
    decreases k,
{
    if k <= 0 {
        0
    } else {
        let before = starts_in(tracks, next, ds, k - 1);
        if slot_of(tracks, next, ds, k - 1) < frame_after(tracks, next, ds, k - 1).tracks.len() {
            before
        } else {
            before + 1
        }
    }
}

/// Tracks and next ID of a new tracker after the first `n` frames.
pub open spec fn since_new(shots: Seq<Seq<Detection>>, n: int) -> (Seq<Track>, u32) {
    after_shots((Seq::empty(), 1), shots, n)
}

/// How many tracks a new tracker starts in the first `n` frames.
pub open spec fn starts_over(shots: Seq<Seq<Detection>>, n: int) -> nat
    decreases n,
{
    if n <= 0 {
        0
    } else {
        let (tracks, next) = since_new(shots, n - 1);
        let ds = shots[n - 1];
        starts_over(shots, n - 1) + starts_in(tracks, next, ds, ds.len() as int)
    }
}

/// How many tracks a new tracker starts before the turn of detection `j` of
/// frame `m`.
pub open spec fn starts_before(shots: Seq<Seq<Detection>>, m: int, j: int) -> nat {
    let (tracks, next) = since_new(shots, m);
    starts_over(shots, m) + starts_in(tracks, next, shots[m], j)
}

/// Whether detection `j` of frame `m` starts a track.
pub open spec fn starts_track(shots: Seq<Seq<Detection>>, m: int, j: int) -> bool {
    let (tracks, next) = since_new(shots, m);
    slot_of(tracks, next, shots[m], j) >= frame_after(tracks, next, shots[m], j).tracks.len()
}

/// The ID under which a new tracker reports detection `j` of frame `m`.
pub open spec fn given_id(shots: Seq<Seq<Detection>>, m: int, j: int) -> u32 {
    shot_frame(since_new(shots, m), shots[m]).results[j].0
}

/// All IDs are below the next.
spec fn ids_below(tracks: Seq<Track>, next: u32) -> bool {
    forall|i: int| 0 <= i < tracks.len() ==> (#[trigger] tracks[i]).id < next
}

/// Every track that is started moves the next ID on, which stays above all others.
proof fn lemma_frame_ids(tracks: Seq<Track>, next: u32, ds: Seq<Detection>, k: int)
    requires
        0 <= k <= ds.len(),
        ids_below(tracks, next),
        next + starts_in(tracks, next, ds, k) <= u32::MAX,
    ensures
        ({
            let f = frame_after(tracks, next, ds, k);
            &&& f.next_track_id == next + starts_in(tracks, next, ds, k)
            &&& ids_below(f.tracks, f.next_track_id)
            &&& f.results.len() == k
            &&& forall|q: int| 0 <= q < k ==> (#[trigger] f.results[q]).0 < f.next_track_id
        }),
    decreases k,
{
    if k > 0 {
        lemma_frame_ids(tracks, next, ds, k - 1);
        lemma_slots(tracks, next, ds, k - 1);
        let f = frame_after(tracks, next, ds, k - 1);
        let g = frame_after(tracks, next, ds, k);
        assert forall|i: int| 0 <= i < g.tracks.len() implies (#[trigger] g.tracks[i]).id
            < g.next_track_id by {
            if i < f.tracks.len() {
                assert(f.tracks[i].id < f.next_track_id);
            }
        }
        assert forall|q: int| 0 <= q < k implies (#[trigger] g.results[q]).0
            < g.next_track_id by {
            if q < k - 1 {
                assert(g.results[q] == f.results[q]);
            } else {
                let slot = slot_of(tracks, next, ds, k - 1);
                if slot < f.tracks.len() {
                    assert(f.tracks[slot].id < f.next_track_id);
                }
            }
        }
    }
}

/// A result stays as it is while further detections have their turn.
proof fn lemma_results_stay(
    tracks: Seq<Track>,
    next: u32,
    ds: Seq<Detection>,
    k: int,
    n: int,
    q: int,
)
    requires
        0 <= q < k <= n <= ds.len(),
    ensures
        frame_after(tracks, next, ds, n).results[q] == frame_after(tracks, next, ds, k).results[q],
    decreases n - k,
{
    if k < n {
        lemma_results_stay(tracks, next, ds, k, n - 1, q);
        lemma_slots(tracks, next, ds, n - 1);
    }
}

/// The next ID of a new tracker counts the tracks that were started.
proof fn lemma_ids_since_new(shots: Seq<Seq<Detection>>, n: int)
    requires
        0 <= n <= shots.len(),
        starts_over(shots, n) < u32::MAX,
    ensures
        since_new(shots, n).1 == 1 + starts_over(shots, n),
        ids_below(since_new(shots, n).0, since_new(shots, n).1),
    decreases n,
{
    if n > 0 {
        let (tracks, next) = since_new(shots, n - 1);
        let ds = shots[n - 1];
        let f = frame_after(tracks, next, ds, ds.len() as int);
        lemma_ids_since_new(shots, n - 1);
        lemma_frame_ids(tracks, next, ds, ds.len() as int);
        let left = kept(f.tracks, f.results);
        assert forall|i: int| 0 <= i < left.len() implies (#[trigger] left[i]).id
            < f.next_track_id by {
            let o = lemma_kept_origin(f.tracks, f.results, i);
            assert(f.tracks[o].id < f.next_track_id);
        }
        assert(since_new(shots, n) == (left, f.next_track_id));
    }
}

proof fn lemma_starts_rise(shots: Seq<Seq<Detection>>, p: int, n: int)
    requires
        0 <= p <= n,
    ensures
        starts_over(shots, p) <= starts_over(shots, n),
    decreases n - p,
{
    if p < n {
        lemma_starts_rise(shots, p, n - 1);
    }
}

/// As long as the IDs last, none is given out again: a track that is started
/// gets an ID above all under which detections were reported before, in its own
/// frame and in all frames since the tracker was new.  IDs count the tracks
/// from one on.
pub proof fn law_no_id_is_reused(shots: Seq<Seq<Detection>>, m: int, j: int, p: int, q: int)
    requires
        0 <= m < shots.len(),
        0 <= j < shots[m].len(),
        starts_track(shots, m, j),
        starts_before(shots, m, j) < u32::MAX,
    ensures
        given_id(shots, m, j) == 1 + starts_before(shots, m, j),
        0 <= p < m && 0 <= q < shots[p].len() ==> given_id(shots, p, q) < given_id(shots, m, j),
        p == m && 0 <= q < j ==> given_id(shots, p, q) < given_id(shots, m, j),
{
    let (tracks, next) = since_new(shots, m);
    let ds = shots[m];
    let n = ds.len() as int;
    lemma_ids_since_new(shots, m);
    lemma_frame_ids(tracks, next, ds, j);
    lemma_slots(tracks, next, ds, j);
    lemma_results_stay(tracks, next, ds, j + 1, n, j);
    let f = frame_after(tracks, next, ds, j);
    assert(frame_after(tracks, next, ds, j + 1) == observed(f, ds[j]));
    if p == m && 0 <= q < j {
        lemma_results_stay(tracks, next, ds, j, n, q);
        assert(f.results[q].0 < f.next_track_id);
    }
    if 0 <= p < m && 0 <= q < shots[p].len() {
        let (there, then) = since_new(shots, p);
        lemma_starts_rise(shots, p + 1, m);
        lemma_ids_since_new(shots, p);
        lemma_frame_ids(there, then, shots[p], shots[p].len() as int);
        let g = frame_after(there, then, shots[p], shots[p].len() as int);
        assert(g.results[q].0 < g.next_track_id);
    }
}

// --- What becomes of tracks

/// The track of a detection follows it: unless a later detection of the frame
/// goes there too, it ends the frame with the centre and the name of the
/// detection and the ID and the confidence of its result, and is kept so.
pub proof fn law_track_follows_its_detection(
    tracks: Seq<Track>,
    next: u32,
    ds: Seq<Detection>,
    j: int,
)
    requires
        0 <= j < ds.len(),
        forall|k: int| j < k < ds.len() ==> #[trigger] slot_of(tracks, next, ds, k) != slot_of(
            tracks,
            next,
            ds,
            j,
        ),
    ensures
        ({
            let f = frame_after(tracks, next, ds, ds.len() as int);
            let t = f.tracks[slot_of(tracks, next, ds, j)];
            &&& t.centroid == (ds[j].cx, ds[j].cy)
            &&& t.name == ds[j].name
            &&& t.id == f.results[j].0
            &&& t.confidence == f.results[j].2
            &&& t.missed == 0
            &&& kept(f.tracks, f.results).contains(t)
        }),
{
    let n = ds.len() as int;
    let f = frame_after(tracks, next, ds, n);
    let slot = slot_of(tracks, next, ds, j);
    lemma_follows(tracks, next, ds, j, n);
    lemma_result_tracks(tracks, next, ds, n, j);
    lemma_slots(tracks, next, ds, n);
    assert(seen(f.results, f.tracks[slot].id));
    lemma_kept_contains(f.tracks, f.results, slot);
}

proof fn lemma_follows(tracks: Seq<Track>, next: u32, ds: Seq<Detection>, j: int, n: int)
    requires
        0 <= j < n <= ds.len(),
        forall|k: int| j < k < n ==> #[trigger] slot_of(tracks, next, ds, k) != slot_of(
            tracks,
            next,
            ds,
            j,
        ),
    ensures
        ({
            let f = frame_after(tracks, next, ds, n);
            let slot = slot_of(tracks, next, ds, j);
            &&& 0 <= slot < f.tracks.len()
            &&& f.tracks[slot].centroid == (ds[j].cx, ds[j].cy)
            &&& f.tracks[slot].name == ds[j].name
            &&& f.tracks[slot].confidence == f.results[j].2
        }),
    decreases n,
{
    lemma_slots(tracks, next, ds, j);
    lemma_slots(tracks, next, ds, n - 1);
    if n > j + 1 {
        lemma_follows(tracks, next, ds, j, n - 1);
        assert(slot_of(tracks, next, ds, n - 1) != slot_of(tracks, next, ds, j));
    }
}

/// A track that no detection of a frame goes to is what it was once all had their
/// turn.
pub proof fn law_other_tracks_stay(
    tracks: Seq<Track>,
    next: u32,
    ds: Seq<Detection>,
    n: int,
    i: int,
)
    requires
        0 <= n <= ds.len(),
        0 <= i < tracks.len(),
        forall|k: int| 0 <= k < n ==> #[trigger] slot_of(tracks, next, ds, k) != i,
    ensures
        frame_after(tracks, next, ds, n).tracks.len() >= tracks.len(),
        frame_after(tracks, next, ds, n).tracks[i] == tracks[i],
    decreases n,
{
    if n > 0 {
        law_other_tracks_stay(tracks, next, ds, n - 1, i);
        lemma_slots(tracks, next, ds, n - 1);
        assert(slot_of(tracks, next, ds, n - 1) != i);
    }
}

/// A track that was just seen outlives 19 frames without a detection, and is gone
/// with the twentieth.
pub proof fn law_track_outlives_nineteen_frames(
    state: (Seq<Track>, u32),
    shots: Seq<Seq<Detection>>,
    n: int,
    t: Track,
)
    requires
        0 <= n <= shots.len(),
        only_one(state.0, t),
        t.missed == 0,
        forall|m: int|
            0 <= m < n ==> !seen(
                shot_frame(#[trigger] after_shots(state, shots, m), shots[m]).results,
                t.id,
            ),
    ensures
        n <= 19 ==> exists|i: int|
            0 <= i < after_shots(state, shots, n).0.len() && (#[trigger] after_shots(
                state,
                shots,
                n,
            ).0[i]).id == t.id && after_shots(state, shots, n).0[i].centroid == t.centroid,
        n >= 20 ==> forall|i: int|
            0 <= i < after_shots(state, shots, n).0.len() ==> (#[trigger] after_shots(
                state,
                shots,
                n,
            ).0[i]).id != t.id,
{
    law_track_is_dropped_after_max_missed(state, shots, n, t);
    if n <= 19 {
        let left = after_shots(state, shots, n).0;
        let i = choose|i: int| 0 <= i < left.len() && left[i] == unseen_for(t, n);
        assert(left[i].id == t.id && left[i].centroid == t.centroid);
    }
}

} // verus!
