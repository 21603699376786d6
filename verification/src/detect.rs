//! Face detection at half resolution: what is asked of the cascade, and what
//! becomes of the rectangles that it finds.
use vstd::prelude::*;

use crate::geometry::{fits, saturated, Rect};

verus! {

/// Minimum face size at the original resolution, in pixels.  Smaller faces are
/// ignored.
pub const CASCADE_MIN_FACE: i32 = 80;

/// Detection runs on an image whose sides are divided by this.
pub const DETECT_DIVISOR: i32 = 2;

/// Number of places where the Haar cascade is searched.
pub const CASCADE_PATH_COUNT: usize = 2;

// ---------------------------------------------------------------------------
// The cascade file
// ---------------------------------------------------------------------------

/// The search paths for the Haar frontal-face cascade, in priority order.
/// OpenCV 5.x installs to `opencv5/`, while 4.x uses `opencv4/`.
pub open spec fn cascade_paths() -> Seq<Seq<char>> {
    seq![
        "/usr/share/opencv5/haarcascades/haarcascade_frontalface_default.xml"@,
        "/usr/share/opencv4/haarcascades/haarcascade_frontalface_default.xml"@,
    ]
}

/// The search path of that priority.
pub fn cascade_path(i: usize) -> (path: &'static str)
    requires
        i < CASCADE_PATH_COUNT,
    ensures
        path@ == cascade_paths()[i as int],
{
    if i == 0 {
        "/usr/share/opencv5/haarcascades/haarcascade_frontalface_default.xml"
    } else {
        "/usr/share/opencv4/haarcascades/haarcascade_frontalface_default.xml"
    }
}

/// What is said if the cascade is at none of the paths.
pub open spec fn cascade_missing() -> Seq<char> {
    "Haar cascade not found. Searched:\n"@ + "  - "@ + cascade_paths()[0] + "\n"@ + "  - "@
        + cascade_paths()[1]
}

/// The first search path that exists, or a message that lists all of them.
pub fn find_cascade(present: &Vec<bool>) -> (found: Result<&'static str, String>)
    requires
        present@.len() == CASCADE_PATH_COUNT,
    ensures
        match found {
            Ok(path) => exists|i: int|
                0 <= i < CASCADE_PATH_COUNT && present@[i] && path@ == #[trigger] cascade_paths()[i]
                    && forall|j: int| 0 <= j < i ==> !#[trigger] present@[j],
            Err(why) => why@ == cascade_missing(),
        },
        found is Err <==> forall|j: int| 0 <= j < CASCADE_PATH_COUNT ==> !#[trigger] present@[j],
{
    for i in 0..CASCADE_PATH_COUNT
        invariant
            present@.len() == CASCADE_PATH_COUNT,
            forall|j: int| 0 <= j < i ==> !#[trigger] present@[j],
    {
        if present[i] {
            let path: &'static str = cascade_path(i);
            assert(path@ == cascade_paths()[i as int]);
            return Ok(path);
        }
    }
    let mut why: String = "Haar cascade not found. Searched:\n".to_owned();
    why.append("  - ");
    why.append(cascade_path(0));
    why.append("\n");
    why.append("  - ");
    why.append(cascade_path(1));
    Err(why)
}

// ---------------------------------------------------------------------------
// Rectangles
// ---------------------------------------------------------------------------

/// The greater of two numbers.
pub open spec fn greater(a: int, b: int) -> int {
    if a > b {
        a
    } else {
        b
    }
}

/// The lesser of two numbers.
pub open spec fn lesser(a: int, b: int) -> int {
    if a < b {
        a
    } else {
        b
    }
}

/// The sides of the rectangle, and what is left of them in the frame, fit the
/// coordinates.
pub open spec fn clampable(r: Rect, max_w: i32, max_h: i32) -> bool {
    &&& fits(r.x + r.width)
    &&& fits(r.y + r.height)
    &&& fits(lesser(r.x + r.width, max_w as int) - greater(r.x as int, 0))
    &&& fits(lesser(r.y + r.height, max_h as int) - greater(r.y as int, 0))
}

/// The part of the rectangle within `[0, max_w) x [0, max_h)`.
pub open spec fn clamped(r: Rect, max_w: i32, max_h: i32) -> Option<Rect> {
    let left = greater(r.x as int, 0);
    let top = greater(r.y as int, 0);
    let right = lesser(r.x + r.width, max_w as int);
    let bottom = lesser(r.y + r.height, max_h as int);
    if left < right && top < bottom {
        Some(
            Rect {
                x: left as i32,
                y: top as i32,
                width: (right - left) as i32,
                height: (bottom - top) as i32,
            },
        )
    } else {
        None
    }
}

/// Whether [`clamp_rect`] can be asked of the rectangle.
pub fn can_clamp(r: Rect, max_w: i32, max_h: i32) -> (yes: bool)
    ensures
        yes == clampable(r, max_w, max_h),
{
    let right: i64 = r.x as i64 + r.width as i64;
    let bottom: i64 = r.y as i64 + r.height as i64;
    let left: i64 = if r.x > 0 {
        r.x as i64
    } else {
        0
    };
    let top: i64 = if r.y > 0 {
        r.y as i64
    } else {
        0
    };
    let w: i64 = if right < max_w as i64 {
        right - left
    } else {
        max_w as i64 - left
    };
    let h: i64 = if bottom < max_h as i64 {
        bottom - top
    } else {
        max_h as i64 - top
    };
    in_range(right) && in_range(bottom) && in_range(w) && in_range(h)
}

fn in_range(v: i64) -> (yes: bool)
    ensures
        yes == fits(v as int),
{
    i32::MIN as i64 <= v && v <= i32::MAX as i64
}

/// Clamp a rectangle to fit within `[0, max_w) x [0, max_h)`.
///
/// Returns `None` if nothing of it lies there.
pub fn clamp_rect(r: Rect, max_w: i32, max_h: i32) -> (out: Option<Rect>)
    requires
        clampable(r, max_w, max_h),
    ensures
        out == clamped(r, max_w, max_h),
{
    let x: i32 = if r.x > 0 {
        r.x
    } else {
        0
    };
    let y: i32 = if r.y > 0 {
        r.y
    } else {
        0
    };
    let right: i32 = r.x + r.width;
    let bottom: i32 = r.y + r.height;
    let w: i32 = if right < max_w {
        right - x
    } else {
        max_w - x
    };
    let h: i32 = if bottom < max_h {
        bottom - y
    } else {
        max_h - y
    };
    if w <= 0 || h <= 0 {
        None
    } else {
        Some(Rect::new(x, y, w, h))
    }
}

/// What is left of the first `n` rectangles in the frame, in order, without
/// those of which nothing is.
pub open spec fn all_clamped(faces: Seq<Rect>, max_w: i32, max_h: i32, n: int) -> Seq<Rect>
    decreases n,
{
    if n <= 0 {
        Seq::empty()
    } else {
        let before = all_clamped(faces, max_w, max_h, n - 1);
        match clamped(faces[n - 1], max_w, max_h) {
            Some(r) => before.push(r),
            None => before,
        }
    }
}

/// Whether [`clamp_faces`] can be asked of the rectangles.
pub fn can_clamp_faces(faces: &Vec<Rect>, max_w: i32, max_h: i32) -> (yes: bool)
    ensures
        yes == forall|i: int|
            0 <= i < faces@.len() ==> clampable(#[trigger] faces@[i], max_w, max_h),
{
    for i in 0..faces.len()
        invariant
            forall|j: int| 0 <= j < i ==> clampable(#[trigger] faces@[j], max_w, max_h),
    {
        if !can_clamp(faces[i], max_w, max_h) {
            return false;
        }
    }
    true
}

/// Clamp rectangles to the frame, and leave out those of which nothing lies
/// there.
pub fn clamp_faces(faces: &Vec<Rect>, max_w: i32, max_h: i32) -> (left: Vec<Rect>)
    requires
        forall|i: int| 0 <= i < faces@.len() ==> clampable(#[trigger] faces@[i], max_w, max_h),
    ensures
        left@ == all_clamped(faces@, max_w, max_h, faces@.len() as int),
{
    let mut left: Vec<Rect> = Vec::new();
    for i in 0..faces.len()
        invariant
            forall|j: int| 0 <= j < faces@.len() ==> clampable(#[trigger] faces@[j], max_w, max_h),
            left@ == all_clamped(faces@, max_w, max_h, i as int),
    {
        if let Some(r) = clamp_rect(faces[i], max_w, max_h) {
            left.push(r);
        }
    }
    left
}

/// A pixel lies in the clamped rectangle exactly if it lies in the rectangle
/// and in the frame; nothing is left exactly if there is no such pixel.
pub proof fn law_clamp_is_intersection(r: Rect, max_w: i32, max_h: i32)
    requires
        clampable(r, max_w, max_h),
    ensures
        forall|px: int, py: int| #[trigger]
            r.covers(px, py) && 0 <= px < max_w && 0 <= py < max_h <==> (clamped(
                r,
                max_w,
                max_h,
            ) matches Some(c) && c.covers(px, py)),
        clamped(r, max_w, max_h) is None <==> forall|px: int, py: int|
            !(#[trigger] r.covers(px, py) && 0 <= px < max_w && 0 <= py < max_h),
{
    if clamped(r, max_w, max_h) is Some {
        let left = greater(r.x as int, 0);
        let top = greater(r.y as int, 0);
        assert(r.covers(left, top));
    }
}

/// What clamping gives lies in the frame, and clamping it again leaves it as it
/// is.
pub proof fn law_clamp_is_idempotent(r: Rect, max_w: i32, max_h: i32)
    requires
        clampable(r, max_w, max_h),
    ensures
        clamped(r, max_w, max_h) matches Some(c) ==> {
            &&& 0 <= c.x && 0 < c.width && c.x + c.width <= max_w
            &&& 0 <= c.y && 0 < c.height && c.y + c.height <= max_h
            &&& clampable(c, max_w, max_h)
            &&& clamped(c, max_w, max_h) == Some(c)
        },
{
}

/// Minimum face size at the resolution at which detection runs.
pub fn min_face() -> (size: i32)
    ensures
        size == CASCADE_MIN_FACE / DETECT_DIVISOR,
        2 * size == 80,
{
    CASCADE_MIN_FACE / DETECT_DIVISOR
}

/// The rectangle at twice the resolution; coordinates beyond the range stop at
/// its ends.
pub open spec fn doubled(r: Rect) -> Rect {
    Rect {
        x: saturated(2 * r.x) as i32,
        y: saturated(2 * r.y) as i32,
        width: saturated(2 * r.width) as i32,
        height: saturated(2 * r.height) as i32,
    }
}

fn double(v: i32) -> (out: i32)
    ensures
        out == saturated(2 * v),
{
    let d: i64 = 2 * (v as i64);
    if d < i32::MIN as i64 {
        i32::MIN
    } else if d > i32::MAX as i64 {
        i32::MAX
    } else {
        d as i32
    }
}

/// Maps rectangles found at half resolution back to the coordinates of the
/// original image.
pub fn to_full_resolution(small: &Vec<Rect>) -> (full: Vec<Rect>)
    ensures
        full@ == small@.map_values(|r: Rect| doubled(r)),
{
    let mut full: Vec<Rect> = Vec::new();
    for i in 0..small.len()
        invariant
            full@.len() == i,
            forall|j: int| 0 <= j < i ==> #[trigger] full@[j] == doubled(small@[j]),
    {
        let r: Rect = small[i];
        full.push(Rect::new(double(r.x), double(r.y), double(r.width), double(r.height)));
    }
    assert(full@ =~= small@.map_values(|r: Rect| doubled(r)));
    full
}

/// A pixel lies in a rectangle found at half resolution exactly if its four
/// pixels at full resolution lie in the rectangle there.
pub proof fn law_doubling_doubles_every_pixel(r: Rect, px: int, py: int)
    requires
        fits(2 * r.x) && fits(2 * r.y) && fits(2 * r.width) && fits(2 * r.height),
    ensures
        r.covers(px, py) <==> doubled(r).covers(2 * px, 2 * py),
        r.covers(px, py) <==> doubled(r).covers(2 * px + 1, 2 * py),
        r.covers(px, py) <==> doubled(r).covers(2 * px, 2 * py + 1),
        r.covers(px, py) <==> doubled(r).covers(2 * px + 1, 2 * py + 1),
{
}

/// Coordinates beyond the range stop at its ends.
pub proof fn law_doubling_stops_at_the_ends(r: Rect)
    ensures
        2 * r.x > i32::MAX ==> doubled(r).x == i32::MAX,
        2 * r.x < i32::MIN ==> doubled(r).x == i32::MIN,
        2 * r.y > i32::MAX ==> doubled(r).y == i32::MAX,
        2 * r.y < i32::MIN ==> doubled(r).y == i32::MIN,
        2 * r.width > i32::MAX ==> doubled(r).width == i32::MAX,
        2 * r.width < i32::MIN ==> doubled(r).width == i32::MIN,
        2 * r.height > i32::MAX ==> doubled(r).height == i32::MAX,
        2 * r.height < i32::MIN ==> doubled(r).height == i32::MIN,
{
}

/// Faces are clamped one by one: those of two lists in a row give what either
/// gives, in a row, and a single face gives its part in the frame or nothing.
pub proof fn law_faces_are_clamped_one_by_one(
    a: Seq<Rect>,
    b: Seq<Rect>,
    r: Rect,
    max_w: i32,
    max_h: i32,
)
    ensures
        all_clamped(a + b, max_w, max_h, (a + b).len() as int) == all_clamped(
            a,
            max_w,
            max_h,
            a.len() as int,
        ) + all_clamped(b, max_w, max_h, b.len() as int),
        all_clamped(seq![r], max_w, max_h, 1) == match clamped(r, max_w, max_h) {
            Some(c) => seq![c],
            None => Seq::<Rect>::empty(),
        },
{
    lemma_clamped_in_a_row(a, b, max_w, max_h, b.len() as int);
    assert(all_clamped(seq![r], max_w, max_h, 0) =~= Seq::<Rect>::empty());
    assert(seq![r][0] == r);
    assert(all_clamped(seq![r], max_w, max_h, 1) =~= match clamped(r, max_w, max_h) {
        Some(c) => seq![c],
        None => Seq::<Rect>::empty(),
    });
}

proof fn lemma_clamped_in_a_row(a: Seq<Rect>, b: Seq<Rect>, max_w: i32, max_h: i32, n: int)
    requires
        0 <= n <= b.len(),
    ensures
        all_clamped(a + b, max_w, max_h, a.len() + n) == all_clamped(
            a,
            max_w,
            max_h,
            a.len() as int,
        ) + all_clamped(b, max_w, max_h, n),
    decreases n,
{
    let left = all_clamped(a, max_w, max_h, a.len() as int);
    if n == 0 {
        lemma_clamped_prefix(a, b, max_w, max_h, a.len() as int);
        assert(left + all_clamped(b, max_w, max_h, 0) =~= left);
    } else {
        lemma_clamped_in_a_row(a, b, max_w, max_h, n - 1);
        assert((a + b)[a.len() + n - 1] == b[n - 1]);
        assert(all_clamped(a + b, max_w, max_h, a.len() + n) =~= left + all_clamped(
            b,
            max_w,
            max_h,
            n,
        ));
    }
}

proof fn lemma_clamped_prefix(a: Seq<Rect>, b: Seq<Rect>, max_w: i32, max_h: i32, n: int)
    requires
        n <= a.len(),
    ensures
        all_clamped(a + b, max_w, max_h, n) == all_clamped(a, max_w, max_h, n),
    decreases n,
{
    if n > 0 {
        lemma_clamped_prefix(a, b, max_w, max_h, n - 1);
        assert((a + b)[n - 1] == a[n - 1]);
    }
}

} // verus!
