//! Rectangles of the raster: the areas that drawing touched and that the next
//! refresh has to carry to the display.

use vstd::prelude::*;
use crate::framebuffer::inside;

verus! {

/// A rectangle in pixel coordinates. It may reach beyond the raster, or lie
/// outside it altogether, until it is clamped.
#[derive(Clone, Copy, Debug, PartialEq, Eq, Structural)]
pub struct Region {
    pub x: i32,
    pub y: i32,
    pub width: u32,
    pub height: u32,
}

impl Region {
    /// Whether the pixel `(px, py)` lies in the rectangle.
    pub open spec fn covers(self, px: int, py: int) -> bool {
        self.x <= px < self.x + self.width && self.y <= py < self.y + self.height
    }

    /// Whether the rectangle holds no pixel.
    pub open spec fn is_empty(self) -> bool {
        self.width == 0 || self.height == 0
    }

    /// Whether the rectangle lies wholly in a raster of `cols` by `rows`.
    pub open spec fn fits(self, cols: int, rows: int) -> bool {
        0 <= self.x && 0 <= self.y && self.x + self.width <= cols && self.y + self.height
            <= rows
    }

    /// The part of the rectangle that lies in a raster of `cols` by `rows`;
    /// the empty rectangle at the origin when no pixel of it does.
    pub open spec fn clamped(self, cols: int, rows: int) -> Region {
        let left = if self.x > 0 { self.x as int } else { 0 };
        let top = if self.y > 0 { self.y as int } else { 0 };
        let right = if self.x + self.width < cols { self.x + self.width } else { cols };
        let bottom = if self.y + self.height < rows { self.y + self.height } else { rows };
        if left < right && top < bottom {
            Region {
                x: left as i32,
                y: top as i32,
                width: (right - left) as u32,
                height: (bottom - top) as u32,
            }
        } else {
            Region { x: 0, y: 0, width: 0, height: 0 }
        }
    }

    /// A rectangle from its corner and size.
    pub fn new(x: i32, y: i32, width: u32, height: u32) -> (region: Region)
        ensures
            region == (Region { x, y, width, height }),
    {
        Region { x, y, width, height }
    }

    /// Cuts the rectangle down to a raster of `cols` by `rows`.
    pub fn clamp(self, cols: u32, rows: u32) -> (region: Region)
        ensures
            region == self.clamped(cols as int, rows as int),
            region.fits(cols as int, rows as int),
            region.width == 0 <==> region.height == 0,
    {
        let left: i64 = if self.x > 0 { self.x as i64 } else { 0 };
        let top: i64 = if self.y > 0 { self.y as i64 } else { 0 };
        let far_x: i64 = self.x as i64 + self.width as i64;
        let far_y: i64 = self.y as i64 + self.height as i64;
        let right: i64 = if far_x < cols as i64 { far_x } else { cols as i64 };
        let bottom: i64 = if far_y < rows as i64 { far_y } else { rows as i64 };
        if left < right && top < bottom {
            Region {
                x: left as i32,
                y: top as i32,
                width: (right - left) as u32,
                height: (bottom - top) as u32,
            }
        } else {
            Region { x: 0, y: 0, width: 0, height: 0 }
        }
    }
}

/// Clamping keeps exactly the pixels of the rectangle that the raster has:
/// the clamped rectangle lies in the raster, and a pixel is in it if and only
/// if it is in the rectangle and in the raster.
pub proof fn lemma_clamp_is_intersection(region: Region, cols: int, rows: int)
    requires
        0 <= cols <= u32::MAX,
        0 <= rows <= u32::MAX,
    ensures
        region.clamped(cols, rows).fits(cols, rows),
        forall|px: int, py: int|
            #[trigger] region.clamped(cols, rows).covers(px, py) <==> region.covers(px, py)
                && inside(cols, rows, px, py),
{
}

/// A rectangle that lies in the raster is its own clamped form, unless it is
/// empty.
pub proof fn lemma_clamp_keeps_fitting(region: Region, cols: int, rows: int)
    requires
        region.fits(cols, rows),
        !region.is_empty(),
    ensures
        region.clamped(cols, rows) == region,
{
}

/// A coordinate that drawing code computed; it need not lie in the raster.
#[derive(Clone, Copy, Debug, PartialEq, Eq, Structural)]
pub struct Point {
    pub x: i32,
    pub y: i32,
}

/// Whether `low` is the least and `high` the greatest column among `points`.
pub open spec fn spans_columns(points: Seq<Point>, low: int, high: int) -> bool {
    &&& forall|i: int| 0 <= i < points.len() ==> low <= (#[trigger] points[i]).x <= high
    &&& exists|i: int| 0 <= i < points.len() && (#[trigger] points[i]).x == low
    &&& exists|i: int| 0 <= i < points.len() && (#[trigger] points[i]).x == high
}

/// Whether `low` is the least and `high` the greatest row among `points`.
pub open spec fn spans_rows(points: Seq<Point>, low: int, high: int) -> bool {
    &&& forall|i: int| 0 <= i < points.len() ==> low <= (#[trigger] points[i]).y <= high
    &&& exists|i: int| 0 <= i < points.len() && (#[trigger] points[i]).y == low
    &&& exists|i: int| 0 <= i < points.len() && (#[trigger] points[i]).y == high
}

/// Whether the rectangle around `points`, widened by `margin` on every side,
/// can be written down: its corner and its size fit in 32 signed bits.
pub open spec fn box_fits(points: Seq<Point>, margin: int) -> bool {
    &&& forall|i: int|
        0 <= i < points.len() ==> (#[trigger] points[i]).x - margin >= i32::MIN && points[i].y
            - margin >= i32::MIN
    &&& forall|i: int, j: int|
        0 <= i < points.len() && 0 <= j < points.len() ==> (#[trigger] points[j]).x
            - (#[trigger] points[i]).x + 2 * margin <= i32::MAX && points[j].y - points[i].y + 2
            * margin <= i32::MAX
}

/// The margin that an optional padding stands for: none is no margin.
pub open spec fn margin_of(padding: Option<u32>) -> int {
    match padding {
        Some(p) => p as int,
        None => 0,
    }
}

/// The rectangle that starts `padding` pixels before the least column and
/// row of `points` and is as wide as the distance from the least to the
/// greatest column plus twice the padding, and as high likewise.
pub fn calculate_bounding_box(points: &[Point], padding: Option<u32>) -> (region: Region)
    requires
        points@.len() > 0,
        box_fits(points@, margin_of(padding)),
    ensures
        spans_columns(
            points@,
            region.x + margin_of(padding),
            region.x + region.width - margin_of(padding),
        ),
        spans_rows(
            points@,
            region.y + margin_of(padding),
            region.y + region.height - margin_of(padding),
        ),
{
    let mut min_x: i32 = points[0].x;
    let mut max_x: i32 = points[0].x;
    let mut min_y: i32 = points[0].y;
    let mut max_y: i32 = points[0].y;
    let mut i: usize = 1;
    proof {
        assert(points@.take(1)[0] == points@[0]);
    }
    while i < points.len()
        invariant
            1 <= i <= points.len(),
            spans_columns(points@.take(i as int), min_x as int, max_x as int),
            spans_rows(points@.take(i as int), min_y as int, max_y as int),
        decreases points.len() - i,
    {
        let point = points[i];
        proof {
            let done = points@.take(i as int);
            let next = points@.take(i + 1);
            assert(next[i as int] == point);
            assert forall|j: int| 0 <= j < done.len() implies done[j] == next[j] by {}
            let a = choose|j: int| 0 <= j < done.len() && (#[trigger] done[j]).x == min_x;
            let b = choose|j: int| 0 <= j < done.len() && (#[trigger] done[j]).x == max_x;
            let c = choose|j: int| 0 <= j < done.len() && (#[trigger] done[j]).y == min_y;
            let d = choose|j: int| 0 <= j < done.len() && (#[trigger] done[j]).y == max_y;
            assert(next[a].x == min_x && next[b].x == max_x);
            assert(next[c].y == min_y && next[d].y == max_y);
        }
        if point.x < min_x {
            min_x = point.x;
        }
        if point.x > max_x {
            max_x = point.x;
        }
        if point.y < min_y {
            min_y = point.y;
        }
        if point.y > max_y {
            max_y = point.y;
        }
        i += 1;
    }
    proof {
        assert(points@.take(i as int) == points@);
        let a = choose|j: int| 0 <= j < points@.len() && (#[trigger] points@[j]).x == min_x;
        let b = choose|j: int| 0 <= j < points@.len() && (#[trigger] points@[j]).x == max_x;
        let c = choose|j: int| 0 <= j < points@.len() && (#[trigger] points@[j]).y == min_y;
        let d = choose|j: int| 0 <= j < points@.len() && (#[trigger] points@[j]).y == max_y;
        assert(points@[b].x - points@[a].x + 2 * margin_of(padding) <= i32::MAX);
        assert(points@[d].y - points@[c].y + 2 * margin_of(padding) <= i32::MAX);
        assert(points@[a].x - margin_of(padding) >= i32::MIN);
        assert(points@[c].y - margin_of(padding) >= i32::MIN);
        assert(points@[a].x - points@[a].x + 2 * margin_of(padding) <= i32::MAX);
    }
    let margin: i64 = match padding {
        Some(p) => p as i64,
        None => 0,
    };
    let width: i64 = max_x as i64 - min_x as i64 + 2 * margin;
    let height: i64 = max_y as i64 - min_y as i64 + 2 * margin;
    Region {
        x: (min_x as i64 - margin) as i32,
        y: (min_y as i64 - margin) as i32,
        width: width as u32,
        height: height as u32,
    }
}

/// The rectangles gathered since the last refresh, in the order they came.
/// Overlapping or touching rectangles are kept apart as they are.
pub struct RegionTracker {
    regions: Vec<Region>,
}

impl View for RegionTracker {
    type V = Seq<Region>;

    closed spec fn view(&self) -> Seq<Region> {
        self.regions@
    }
}

impl RegionTracker {
    /// A tracker with nothing to refresh.
    pub fn new() -> (tracker: RegionTracker)
        ensures
            tracker@ == Seq::<Region>::empty(),
    {
        RegionTracker { regions: Vec::new() }
    }

    /// Notes one more rectangle to refresh.
    pub fn store_region(&mut self, region: Region)
        ensures
            final(self)@ == old(self)@.push(region),
    {
        self.regions.push(region);
    }

    /// The rectangles noted so far.
    pub fn get_regions(&self) -> (regions: &[Region])
        ensures
            regions@ == self@,
    {
        self.regions.as_slice()
    }

    /// Number of rectangles noted so far.
    pub fn len(&self) -> (n: usize)
        ensures
            n == self@.len(),
    {
        self.regions.len()
    }

    /// Forgets every rectangle.
    pub fn clear_regions(&mut self)
        ensures
            final(self)@ == Seq::<Region>::empty(),
    {
        self.regions.clear();
    }
}

} // verus!
