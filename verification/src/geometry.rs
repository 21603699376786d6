//! Rectangles, line segments and placed text, in pixels.
use vstd::prelude::*;

verus! {

/// A rectangle by its upper left corner and its size.
#[derive(Clone, Copy, Debug, PartialEq, Eq, Structural)]
pub struct Rect {
    pub x: i32,
    pub y: i32,
    pub width: i32,
    pub height: i32,
}

impl Rect {
    /// The rectangle with that corner and size.
    pub fn new(x: i32, y: i32, width: i32, height: i32) -> (r: Rect)
        ensures
            r == (Rect { x, y, width, height }),
    {
        Rect { x, y, width, height }
    }

    /// Whether the pixel lies in the rectangle.
    pub open spec fn covers(self, px: int, py: int) -> bool {
        self.x <= px < self.x + self.width && self.y <= py < self.y + self.height
    }
}

/// A line from one point to another.
#[derive(Clone, Copy, Debug, PartialEq, Eq, Structural)]
pub struct Segment {
    pub x1: i32,
    pub y1: i32,
    pub x2: i32,
    pub y2: i32,
}

/// A line of text and the point at which it begins.
#[derive(Debug)]
pub struct Label {
    pub text: String,
    pub x: i32,
    pub y: i32,
}

/// Lines and texts to be drawn beside a face or a hand.
#[derive(Debug)]
pub struct Hud {
    pub segments: Vec<Segment>,
    pub labels: Vec<Label>,
}

/// The line between two points.
pub open spec fn segment(x1: int, y1: int, x2: int, y2: int) -> Segment {
    Segment { x1: x1 as i32, y1: y1 as i32, x2: x2 as i32, y2: y2 as i32 }
}

/// Whether a label holds that text at that point.
pub open spec fn label_is(label: Label, text: Seq<char>, x: int, y: int) -> bool {
    label.text@ == text && label.x == x && label.y == y
}

/// Whether a number fits the coordinates.
pub open spec fn fits(v: int) -> bool {
    i32::MIN <= v <= i32::MAX
}

/// The integer nearest to `v` among the coordinates.
pub open spec fn saturated(v: int) -> int {
    if v < i32::MIN {
        i32::MIN as int
    } else if v > i32::MAX {
        i32::MAX as int
    } else {
        v
    }
}

/// From the point, one line leads `len` pixels to the side and one `len` pixels
/// up or down.
pub open spec fn bracket_at(
    segments: Seq<Segment>,
    x: int,
    y: int,
    to_the_right: bool,
    down: bool,
    len: int,
) -> bool {
    let x_end = if to_the_right {
        x + len
    } else {
        x - len
    };
    let y_end = if down {
        y + len
    } else {
        y - len
    };
    &&& exists|i: int|
        0 <= i < segments.len() && (#[trigger] segments[i]).x1 == x && segments[i].y1 == y
            && segments[i].x2 == x_end && segments[i].y2 == y
    &&& exists|i: int|
        0 <= i < segments.len() && (#[trigger] segments[i]).x1 == x && segments[i].y1 == y
            && segments[i].x2 == x && segments[i].y2 == y_end
}

} // verus!
