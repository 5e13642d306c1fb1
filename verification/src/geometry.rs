use std::collections::HashMap;
use vstd::prelude::*;

use crate::tile_id::TileId;

verus! {

/// The coordinate nearest to `v` that a position can hold.
pub open spec fn clamp_coord(v: int) -> int {
    if v < i32::MIN {
        i32::MIN as int
    } else if v > i32::MAX {
        i32::MAX as int
    } else {
        v
    }
}

/// The length of the interval from `lo` to `hi`, zero where it is empty.
pub open spec fn span(lo: int, hi: int) -> nat {
    if hi > lo {
        (hi - lo) as nat
    } else {
        0
    }
}

/// The integer halfway between `a` and `b`, rounded down.
pub open spec fn midpoint(a: int, b: int) -> int {
    (a + b) / 2
}

/// Brings a wide coordinate back into the range of a position.
pub fn clamp_to_coord(v: i64) -> (r: i32)
    ensures
        r == clamp_coord(v as int),
{
    if v < i32::MIN as i64 {
        i32::MIN
    } else if v > i32::MAX as i64 {
        i32::MAX
    } else {
        v as i32
    }
}

/// Brings a very wide coordinate back into the range of a position.
pub fn clamp_wide_to_coord(v: i128) -> (r: i32)
    ensures
        r == clamp_coord(v as int),
{
    if v < i32::MIN as i128 {
        i32::MIN
    } else if v > i32::MAX as i128 {
        i32::MAX
    } else {
        v as i32
    }
}

/// The integer halfway between two coordinates, rounded down.
pub fn midpoint_of(a: i32, b: i32) -> (m: i32)
    ensures
        m == midpoint(a as int, b as int),
{
    let s: i64 = a as i64 + b as i64;
    if s >= 0 {
        (s / 2) as i32
    } else {
        let t: i64 = (1 - s) / 2;
        (0 - t) as i32
    }
}

/// A point of the screen, in whole points.
#[derive(Clone, Copy, Debug, PartialEq, Eq, Structural)]
pub struct Pos {
    pub x: i32,
    pub y: i32,
}

/// An axis-aligned rectangle of the screen, from `min` up to `max`.
///
/// A rectangle whose `max` lies before its `min` on an axis is empty on that axis.
#[derive(Clone, Copy, Debug, PartialEq, Eq, Structural)]
pub struct Rect {
    pub min: Pos,
    pub max: Pos,
}

impl Rect {
    /// Horizontal extent, zero for an empty rectangle.
    pub open spec fn spec_width(&self) -> nat {
        span(self.min.x as int, self.max.x as int)
    }

    /// Vertical extent, zero for an empty rectangle.
    pub open spec fn spec_height(&self) -> nat {
        span(self.min.y as int, self.max.y as int)
    }

    /// The point in the middle, each coordinate rounded down.
    pub open spec fn spec_center(&self) -> Pos {
        Pos {
            x: midpoint(self.min.x as int, self.max.x as int) as i32,
            y: midpoint(self.min.y as int, self.max.y as int) as i32,
        }
    }

    /// Whether `other` lies inside this rectangle.
    pub open spec fn contains_rect(&self, other: Rect) -> bool {
        &&& self.min.x <= other.min.x
        &&& other.max.x <= self.max.x
        &&& self.min.y <= other.min.y
        &&& other.max.y <= self.max.y
    }

    /// The rectangle with the given corners, each brought into range.
    pub open spec fn spec_from_wide(min_x: int, min_y: int, max_x: int, max_y: int) -> Rect {
        Rect {
            min: Pos { x: clamp_coord(min_x) as i32, y: clamp_coord(min_y) as i32 },
            max: Pos { x: clamp_coord(max_x) as i32, y: clamp_coord(max_y) as i32 },
        }
    }

    /// The rectangle with the given corners.
    pub fn new(min_x: i32, min_y: i32, max_x: i32, max_y: i32) -> (r: Rect)
        ensures
            r == (Rect { min: Pos { x: min_x, y: min_y }, max: Pos { x: max_x, y: max_y } }),
    {
        Rect { min: Pos { x: min_x, y: min_y }, max: Pos { x: max_x, y: max_y } }
    }

    /// The rectangle with the given corners, each brought into range.
    pub fn from_wide(min_x: i64, min_y: i64, max_x: i64, max_y: i64) -> (r: Rect)
        ensures
            r == Self::spec_from_wide(min_x as int, min_y as int, max_x as int, max_y as int),
    {
        Rect {
            min: Pos { x: clamp_to_coord(min_x), y: clamp_to_coord(min_y) },
            max: Pos { x: clamp_to_coord(max_x), y: clamp_to_coord(max_y) },
        }
    }

    /// Horizontal extent, zero for an empty rectangle.
    pub fn width(&self) -> (w: u32)
        ensures
            w == self.spec_width(),
    {
        if self.max.x > self.min.x {
            (self.max.x as i64 - self.min.x as i64) as u32
        } else {
            0
        }
    }

    /// Vertical extent, zero for an empty rectangle.
    pub fn height(&self) -> (h: u32)
        ensures
            h == self.spec_height(),
    {
        if self.max.y > self.min.y {
            (self.max.y as i64 - self.min.y as i64) as u32
        } else {
            0
        }
    }

    /// The point in the middle, each coordinate rounded down.
    #[verifier::when_used_as_spec(spec_center)]
    pub fn center(&self) -> (c: Pos)
        ensures
            c == self.spec_center(),
    {
        Pos { x: midpoint_of(self.min.x, self.max.x), y: midpoint_of(self.min.y, self.max.y) }
    }
}

/// The square of the distance between two points.
pub open spec fn distance_sq(a: Pos, b: Pos) -> nat {
    ((a.x - b.x) * (a.x - b.x) + (a.y - b.y) * (a.y - b.y)) as nat
}

/// The square of the distance between two points.
pub fn distance_sq_of(a: Pos, b: Pos) -> (d: u128)
    ensures
        d == distance_sq(a, b),
{
    let dx: i128 = a.x as i128 - b.x as i128;
    let dy: i128 = a.y as i128 - b.y as i128;
    assert(-0x1_0000_0000 <= dx <= 0x1_0000_0000);
    assert(-0x1_0000_0000 <= dy <= 0x1_0000_0000);
    assert(0 <= dx * dx <= 0x1_0000_0000 * 0x1_0000_0000) by (nonlinear_arith)
        requires
            -0x1_0000_0000 <= dx <= 0x1_0000_0000,
    ;
    assert(0 <= dy * dy <= 0x1_0000_0000 * 0x1_0000_0000) by (nonlinear_arith)
        requires
            -0x1_0000_0000 <= dy <= 0x1_0000_0000,
    ;
    (dx * dx + dy * dy) as u128
}

/// The rectangle that stands for a tile without one: empty, at the origin.
pub open spec fn zero_rect() -> Rect {
    Rect { min: Pos { x: 0, y: 0 }, max: Pos { x: 0, y: 0 } }
}

/// The rectangle that a table of rectangles holds for a tile, or the empty
/// rectangle at the origin where it holds none.
pub open spec fn rect_of(rects: Map<u64, Rect>, id: TileId) -> Rect {
    if rects.contains_key(id.0) {
        rects[id.0]
    } else {
        zero_rect()
    }
}

/// The rectangles that a layout pass gave to the tiles it reached.
///
/// The table is filled anew by every layout pass and is no part of a tree's
/// lasting state.
#[derive(Clone, Debug)]
pub struct Rects {
    rects: HashMap<u64, Rect>,
}

impl View for Rects {
    type V = Map<u64, Rect>;

    closed spec fn view(&self) -> Map<u64, Rect> {
        self.rects@
    }
}

impl Default for Rects {
    fn default() -> (r: Rects)
        ensures
            r@ == Map::<u64, Rect>::empty(),
    {
        Rects { rects: HashMap::new() }
    }
}

impl Rects {
    /// A table without rectangles.
    pub fn new() -> (r: Rects)
        ensures
            r@ == Map::<u64, Rect>::empty(),
    {
        Rects { rects: HashMap::new() }
    }

    /// Forgets every rectangle.
    pub fn clear(&mut self)
        ensures
            final(self)@ == Map::<u64, Rect>::empty(),
    {
        self.rects.clear();
    }

    /// Records the rectangle of a tile.
    pub fn insert(&mut self, id: TileId, rect: Rect)
        ensures
            final(self)@ == old(self)@.insert(id.0, rect),
    {
        self.rects.insert(id.0, rect);
    }

    /// The rectangle of a tile, if the last layout pass reached it.
    pub fn try_rect(&self, id: TileId) -> (r: Option<Rect>)
        ensures
            r == (if self@.contains_key(id.0) {
                Some(self@[id.0])
            } else {
                None
            }),
    {
        match self.rects.get(&id.0) {
            Some(r) => Some(*r),
            None => None,
        }
    }

    /// The rectangle of a tile, or the empty rectangle at the origin for a
    /// tile that the last layout pass did not reach.
    pub fn rect(&self, id: TileId) -> (r: Rect)
        ensures
            r == rect_of(self@, id),
    {
        match self.rects.get(&id.0) {
            Some(r) => *r,
            None => Rect { min: Pos { x: 0, y: 0 }, max: Pos { x: 0, y: 0 } },
        }
    }
}

} // verus!
