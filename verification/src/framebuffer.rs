//! An off-screen raster of 16-bit pixels, stored row by row, two bytes a pixel.
//!
//! Writes that fall outside the raster are dropped without complaint: drawing
//! code is free to compute coordinates beyond the visible area.

use vstd::prelude::*;
use crate::pixel::{decode_color, encode_color, stored_byte, stored_color, ByteOrder};
use crate::region::{lemma_clamp_is_intersection, Region};

verus! {

/// A pixel to draw: a coordinate and the raw 16-bit colour to put there.
#[derive(Clone, Copy, Debug, PartialEq, Eq, Structural)]
pub struct Pixel {
    pub x: i32,
    pub y: i32,
    pub color: u16,
}

/// Whether `(x, y)` names a pixel of a raster of `cols` by `rows`.
pub open spec fn inside(cols: int, rows: int, x: int, y: int) -> bool {
    0 <= x < cols && 0 <= y < rows
}

/// Index of the first byte of pixel `(x, y)` in a raster `cols` wide.
pub open spec fn slot(cols: int, x: int, y: int) -> int {
    (y * cols + x) * 2
}

/// The raster bytes after writing `color` at `(x, y)`: the pixel's two bytes
/// are replaced when the coordinate is inside, and nothing changes otherwise.
pub open spec fn put(
    bytes: Seq<u8>,
    cols: int,
    rows: int,
    order: ByteOrder,
    x: int,
    y: int,
    color: u16,
) -> Seq<u8> {
    if inside(cols, rows, x, y) {
        bytes.update(slot(cols, x, y), stored_byte(order, color, 0)).update(
            slot(cols, x, y) + 1,
            stored_byte(order, color, 1),
        )
    } else {
        bytes
    }
}

/// The raster bytes after writing every pixel of `pixels`, first to last.
pub open spec fn put_all(
    bytes: Seq<u8>,
    cols: int,
    rows: int,
    order: ByteOrder,
    pixels: Seq<Pixel>,
) -> Seq<u8>
    decreases pixels.len(),
{
    if pixels.len() == 0 {
        bytes
    } else {
        let last = pixels.last();
        put(
            put_all(bytes, cols, rows, order, pixels.drop_last()),
            cols,
            rows,
            order,
            last.x as int,
            last.y as int,
            last.color,
        )
    }
}

/// Every pixel inside the raster has its two bytes inside the byte array.
pub proof fn lemma_slot_in_range(cols: int, rows: int, x: int, y: int)
    requires
        inside(cols, rows, x, y),
    ensures
        0 <= slot(cols, x, y),
        slot(cols, x, y) + 1 < cols * rows * 2,
{
    assert(y * cols + x < cols * rows) by (nonlinear_arith)
        requires
            0 <= x < cols,
            0 <= y < rows,
    ;
    assert(0 <= y * cols + x) by (nonlinear_arith)
        requires
            0 <= x < cols,
            0 <= y < rows,
    ;
}

/// Two different coordinates of one raster never share a byte.
pub proof fn lemma_slots_apart(cols: int, x1: int, y1: int, x2: int, y2: int)
    requires
        0 <= x1 < cols,
        0 <= x2 < cols,
        0 <= y1,
        0 <= y2,
        x1 != x2 || y1 != y2,
    ensures
        slot(cols, x1, y1) + 2 <= slot(cols, x2, y2) || slot(cols, x2, y2) + 2 <= slot(
            cols,
            x1,
            y1,
        ),
{
    if y1 < y2 {
        assert(y1 * cols + x1 < y2 * cols + x2) by (nonlinear_arith)
            requires
                0 <= x1 < cols,
                0 <= x2 < cols,
                0 <= y1 < y2,
        ;
    } else if y2 < y1 {
        assert(y2 * cols + x2 < y1 * cols + x1) by (nonlinear_arith)
            requires
                0 <= x1 < cols,
                0 <= x2 < cols,
                0 <= y2 < y1,
        ;
    }
}

/// The bytes of the first `n` rows of `region`, row after row, cut out of a
/// raster `cols` wide.
pub open spec fn rows_of(bytes: Seq<u8>, cols: int, region: Region, n: int) -> Seq<u8>
    decreases n,
{
    if n <= 0 {
        Seq::empty()
    } else {
        rows_of(bytes, cols, region, n - 1) + bytes.subrange(
            slot(cols, region.x as int, region.y + n - 1),
            slot(cols, region.x as int, region.y + n - 1) + 2 * region.width,
        )
    }
}

/// Whether one of `regions` holds the pixel `(x, y)`.
pub open spec fn any_covers(regions: Seq<Region>, x: int, y: int) -> bool {
    exists|i: int| 0 <= i < regions.len() && #[trigger] regions[i].covers(x, y)
}

/// A row of a rectangle that lies in the raster lies in the byte array.
pub proof fn lemma_row_in_range(cols: int, rows: int, region: Region, r: int)
    requires
        region.fits(cols, rows),
        0 <= r < region.height,
    ensures
        0 <= slot(cols, region.x as int, region.y + r),
        slot(cols, region.x as int, region.y + r) + 2 * region.width <= cols * rows * 2,
{
    let x = region.x as int;
    let y = region.y + r;
    let w = region.width as int;
    assert(0 <= y * cols) by (nonlinear_arith)
        requires
            0 <= y,
            0 <= cols,
    ;
    assert(y * cols + cols <= rows * cols) by (nonlinear_arith)
        requires
            0 <= y < rows,
            0 <= cols,
    ;
    assert(rows * cols == cols * rows) by (nonlinear_arith);
}

/// The cut-out of `n` rows has two bytes for each pixel.
pub proof fn lemma_rows_of_len(bytes: Seq<u8>, cols: int, rows: int, region: Region, n: int)
    requires
        bytes.len() == cols * rows * 2,
        region.fits(cols, rows),
        0 <= n <= region.height,
    ensures
        rows_of(bytes, cols, region, n).len() == n * region.width * 2,
    decreases n,
{
    let w = region.width as int;
    if n > 0 {
        lemma_rows_of_len(bytes, cols, rows, region, n - 1);
        lemma_row_in_range(cols, rows, region, n - 1);
        assert((n - 1) * w * 2 + 2 * w == n * w * 2) by (nonlinear_arith);
    } else {
        assert(n * w * 2 == 0) by (nonlinear_arith)
            requires
                n == 0,
        ;
    }
}

/// In the cut-out of `n` rows, byte `k` of the pixel in row `r`, column `c`
/// of the rectangle sits at `(r * width + c) * 2 + k`.
pub proof fn lemma_rows_of_at(
    bytes: Seq<u8>,
    cols: int,
    rows: int,
    region: Region,
    n: int,
    r: int,
    c: int,
    k: int,
)
    requires
        bytes.len() == cols * rows * 2,
        region.fits(cols, rows),
        0 <= r < n <= region.height,
        0 <= c < region.width,
        0 <= k < 2,
    ensures
        0 <= (r * region.width + c) * 2 + k < rows_of(bytes, cols, region, n).len(),
        rows_of(bytes, cols, region, n)[(r * region.width + c) * 2 + k] == bytes[slot(
            cols,
            region.x + c,
            region.y + r,
        ) + k],
    decreases n,
{
    let w = region.width as int;
    lemma_rows_of_len(bytes, cols, rows, region, n);
    lemma_rows_of_len(bytes, cols, rows, region, n - 1);
    lemma_row_in_range(cols, rows, region, n - 1);
    let start = slot(cols, region.x as int, region.y + n - 1);
    let head = rows_of(bytes, cols, region, n - 1);
    let row = bytes.subrange(start, start + 2 * w);
    assert(rows_of(bytes, cols, region, n) == head + row);
    assert(0 <= r * w && r * w + w <= n * w) by (nonlinear_arith)
        requires
            0 <= r < n,
            0 <= w,
    ;
    let at = (r * w + c) * 2 + k;
    if r == n - 1 {
        assert(at == head.len() + (2 * c + k)) by (nonlinear_arith)
            requires
                head.len() == (n - 1) * w * 2,
                r == n - 1,
                at == (r * w + c) * 2 + k,
        ;
        assert((head + row)[at] == row[2 * c + k]);
        assert(row[2 * c + k] == bytes[start + 2 * c + k]);
        assert(slot(cols, region.x + c, region.y + r) == start + 2 * c) by (nonlinear_arith)
            requires
                start == ((region.y + n - 1) * cols + region.x) * 2,
                r == n - 1,
        ;
    } else {
        lemma_rows_of_at(bytes, cols, rows, region, n - 1, r, c, k);
        assert((head + row)[at] == head[at]);
    }
}

/// The raster: a byte array of `width * height * 2` bytes and its geometry.
pub struct FrameBuffer {
    buffer: Vec<u8>,
    width: u32,
    height: u32,
    order: ByteOrder,
}

impl FrameBuffer {
    /// The stored bytes, row after row.
    pub closed spec fn bytes(&self) -> Seq<u8> {
        self.buffer@
    }

    /// Number of pixels in a row.
    pub closed spec fn cols(&self) -> int {
        self.width as int
    }

    /// Number of rows.
    pub closed spec fn rows(&self) -> int {
        self.height as int
    }

    /// The order in which a pixel's two bytes are stored.
    pub closed spec fn order(&self) -> ByteOrder {
        self.order
    }

    /// The byte array has exactly two bytes for each pixel.
    pub open spec fn wf(&self) -> bool {
        self.bytes().len() == self.cols() * self.rows() * 2
    }

    /// Whether `(x, y)` names a pixel of this raster.
    pub open spec fn contains(&self, x: int, y: int) -> bool {
        inside(self.cols(), self.rows(), x, y)
    }

    /// Byte `k` (0 or 1) of the pixel at `(x, y)`.
    pub open spec fn byte(&self, x: int, y: int, k: int) -> u8 {
        self.bytes()[slot(self.cols(), x, y) + k]
    }

    /// The colour stored at `(x, y)`.
    pub open spec fn pixel(&self, x: int, y: int) -> u16 {
        stored_color(self.order(), self.byte(x, y, 0), self.byte(x, y, 1))
    }

    /// Same geometry and byte order as `other`.
    pub open spec fn same_shape(&self, other: &FrameBuffer) -> bool {
        self.cols() == other.cols() && self.rows() == other.rows() && self.order()
            == other.order()
    }

    /// A raster over `buffer`, pixels stored most significant byte first.
    pub fn new(buffer: Vec<u8>, width: u32, height: u32) -> (fb: FrameBuffer)
        requires
            buffer.len() == width * height * 2,
        ensures
            fb.wf(),
            fb.bytes() == buffer@,
            fb.cols() == width,
            fb.rows() == height,
            fb.order() == ByteOrder::BigEndian,
    {
        FrameBuffer { buffer, width, height, order: ByteOrder::BigEndian }
    }

    /// A raster over `buffer` with the given byte order.
    pub fn with_byte_order(buffer: Vec<u8>, width: u32, height: u32, order: ByteOrder) -> (fb:
        FrameBuffer)
        requires
            buffer.len() == width * height * 2,
        ensures
            fb.wf(),
            fb.bytes() == buffer@,
            fb.cols() == width,
            fb.rows() == height,
            fb.order() == order,
    {
        FrameBuffer { buffer, width, height, order }
    }

    /// Index of the first byte of the pixel in column `col`, row `row`.
    fn index_of(&self, col: u32, row: u32) -> (at: usize)
        requires
            self.wf(),
            self.contains(col as int, row as int),
        ensures
            at == slot(self.cols(), col as int, row as int),
            at + 1 < self.bytes().len(),
    {
        let len: usize = self.buffer.len();
        proof {
            lemma_slot_in_range(self.cols(), self.rows(), col as int, row as int);
            assert(0 <= (row as int) * self.cols()) by (nonlinear_arith)
                requires
                    0 <= row,
                    0 <= self.cols(),
            ;
            assert(len == self.bytes().len());
        }
        let stride: usize = self.width as usize;
        (row as usize * stride + col as usize) * 2
    }

    /// Index of the first byte of the pixel at `(x, y)`, or `None` when the
    /// coordinate is outside the raster.
    pub fn locate(&self, x: i32, y: i32) -> (at: Option<usize>)
        requires
            self.wf(),
        ensures
            at.is_some() <==> self.contains(x as int, y as int),
            at.is_some() ==> at.unwrap() == slot(self.cols(), x as int, y as int)
                && at.unwrap() + 1 < self.bytes().len(),
    {
        if x < 0 || y < 0 {
            return None;
        }
        let col: u32 = x as u32;
        let row: u32 = y as u32;
        if col >= self.width || row >= self.height {
            return None;
        }
        Some(self.index_of(col, row))
    }

    /// Writes `color` at `(x, y)`; a coordinate outside the raster is ignored.
    pub fn set_pixel(&mut self, x: i32, y: i32, color: u16)
        requires
            old(self).wf(),
        ensures
            final(self).wf(),
            final(self).same_shape(old(self)),
            final(self).bytes() == put(
                old(self).bytes(),
                old(self).cols(),
                old(self).rows(),
                old(self).order(),
                x as int,
                y as int,
                color,
            ),
            old(self).contains(x as int, y as int) ==> final(self).pixel(x as int, y as int)
                == color,
            !old(self).contains(x as int, y as int) ==> final(self).bytes() == old(self).bytes(),
    {
        match self.locate(x, y) {
            Some(index) => {
                let (first, second) = encode_color(self.order, color);
                self.buffer.set(index, first);
                self.buffer.set(index + 1, second);
            },
            None => {},
        }
    }

    /// The colour stored at `(x, y)`, or `None` outside the raster.
    pub fn get_pixel(&self, x: i32, y: i32) -> (color: Option<u16>)
        requires
            self.wf(),
        ensures
            color.is_some() <==> self.contains(x as int, y as int),
            color.is_some() ==> color.unwrap() == self.pixel(x as int, y as int),
    {
        match self.locate(x, y) {
            Some(index) => Some(decode_color(self.order, self.buffer[index], self.buffer[index + 1])),
            None => None,
        }
    }

    /// Writes the pixels one after the other, dropping those outside.
    pub fn draw_iter(&mut self, pixels: &[Pixel])
        requires
            old(self).wf(),
        ensures
            final(self).wf(),
            final(self).same_shape(old(self)),
            final(self).bytes() == put_all(
                old(self).bytes(),
                old(self).cols(),
                old(self).rows(),
                old(self).order(),
                pixels@,
            ),
    {
        let mut i: usize = 0;
        while i < pixels.len()
            invariant
                i <= pixels.len(),
                self.wf(),
                self.same_shape(old(self)),
                self.bytes() == put_all(
                    old(self).bytes(),
                    old(self).cols(),
                    old(self).rows(),
                    old(self).order(),
                    pixels@.take(i as int),
                ),
            decreases pixels.len() - i,
        {
            let p = pixels[i];
            proof {
                assert(pixels@.take(i + 1).drop_last() == pixels@.take(i as int));
                assert(pixels@.take(i + 1).last() == p);
            }
            self.set_pixel(p.x, p.y, p.color);
            i += 1;
        }
        proof {
            assert(pixels@.take(i as int) == pixels@);
        }
    }

    /// Fills the whole raster with `color`.
    pub fn clear(&mut self, color: u16)
        requires
            old(self).wf(),
        ensures
            final(self).wf(),
            final(self).same_shape(old(self)),
            forall|i: int|
                0 <= i < final(self).bytes().len() ==> #[trigger] final(self).bytes()[i]
                    == stored_byte(old(self).order(), color, i % 2),
            forall|x: int, y: int|
                final(self).contains(x, y) ==> #[trigger] final(self).pixel(x, y) == color,
    {
        let (first, second) = encode_color(self.order, color);
        let n: usize = self.buffer.len();
        let mut i: usize = 0;
        while i + 1 < n
            invariant
                i % 2 == 0,
                n % 2 == 0,
                i <= n,
                n == self.bytes().len(),
                self.wf(),
                self.same_shape(old(self)),
                first == stored_byte(self.order(), color, 0),
                second == stored_byte(self.order(), color, 1),
                forall|j: int|
                    0 <= j < i ==> #[trigger] self.bytes()[j] == stored_byte(
                        self.order(),
                        color,
                        j % 2,
                    ),
            decreases n - i,
        {
            self.buffer.set(i, first);
            self.buffer.set(i + 1, second);
            i += 2;
        }
        proof {
            assert forall|x: int, y: int| self.contains(x, y) implies #[trigger] self.pixel(x, y)
                == color by {
                lemma_slot_in_range(self.cols(), self.rows(), x, y);
                let at = slot(self.cols(), x, y);
                assert(at % 2 == 0 && (at + 1) % 2 == 1);
                assert(self.bytes()[at] == stored_byte(self.order(), color, 0));
                assert(self.bytes()[at + 1] == stored_byte(self.order(), color, 1));
            }
        }
    }

    /// The byte that an overlay puts at byte `k` of pixel `(x, y)`: the
    /// background's byte there, or that of the solid colour `first`, `second`.
    spec fn overlay_byte(
        background: Option<&FrameBuffer>,
        first: u8,
        second: u8,
        x: int,
        y: int,
        k: int,
    ) -> u8 {
        match background {
            Some(b) => b.byte(x, y, k),
            None => if k == 0 {
                first
            } else {
                second
            },
        }
    }

    /// Overwrites the two bytes of the pixel in column `col`, row `row`.
    fn write_slot(&mut self, col: u32, row: u32, first: u8, second: u8)
        requires
            old(self).wf(),
            old(self).contains(col as int, row as int),
        ensures
            final(self).wf(),
            final(self).same_shape(old(self)),
            forall|x: int, y: int, k: int|
                final(self).contains(x, y) && 0 <= k < 2 ==> #[trigger] final(self).byte(x, y, k)
                    == if x == col && y == row {
                    if k == 0 {
                        first
                    } else {
                        second
                    }
                } else {
                    old(self).byte(x, y, k)
                },
    {
        let at = self.index_of(col, row);
        self.buffer.set(at, first);
        self.buffer.set(at + 1, second);
        proof {
            assert forall|x: int, y: int, k: int| self.contains(x, y) && 0 <= k < 2 implies #[trigger] self.byte(
                x,
                y,
                k,
            ) == if x == col && y == row {
                if k == 0 {
                    first
                } else {
                    second
                }
            } else {
                old(self).byte(x, y, k)
            } by {
                lemma_slot_in_range(self.cols(), self.rows(), x, y);
                if x != col || y != row {
                    lemma_slots_apart(self.cols(), x, y, col as int, row as int);
                }
            }
        }
    }

    /// Puts over every pixel of `region` that the raster has either the
    /// background's pixel at the same place or a solid colour.
    fn overlay(&mut self, region: Region, first: u8, second: u8, background: Option<&FrameBuffer>)
        requires
            old(self).wf(),
            match background {
                Some(b) => b.wf() && b.cols() == old(self).cols() && b.rows() == old(self).rows(),
                None => true,
            },
        ensures
            final(self).wf(),
            final(self).same_shape(old(self)),
            forall|x: int, y: int, k: int|
                final(self).contains(x, y) && 0 <= k < 2 ==> #[trigger] final(self).byte(x, y, k)
                    == if region.covers(x, y) {
                    Self::overlay_byte(background, first, second, x, y, k)
                } else {
                    old(self).byte(x, y, k)
                },
    {
        let part = region.clamp(self.width, self.height);
        proof {
            lemma_clamp_is_intersection(region, self.cols(), self.rows());
        }
        let left: u32 = part.x as u32;
        let top: u32 = part.y as u32;
        let right: u32 = left + part.width;
        let bottom: u32 = top + part.height;
        let mut row: u32 = top;
        while row < bottom
            invariant
                top <= row <= bottom,
                left == part.x,
                top == part.y,
                right == part.x + part.width,
                bottom == part.y + part.height,
                part.fits(self.cols(), self.rows()),
                self.wf(),
                self.same_shape(old(self)),
                match background {
                    Some(b) => b.wf() && b.cols() == self.cols() && b.rows() == self.rows(),
                    None => true,
                },
                forall|x: int, y: int, k: int|
                    self.contains(x, y) && 0 <= k < 2 ==> #[trigger] self.byte(x, y, k) == if part.covers(
                        x,
                        y,
                    ) && y < row {
                        Self::overlay_byte(background, first, second, x, y, k)
                    } else {
                        old(self).byte(x, y, k)
                    },
            decreases bottom - row,
        {
            let mut col: u32 = left;
            while col < right
                invariant
                    top <= row < bottom,
                    left <= col <= right,
                    left == part.x,
                    top == part.y,
                    right == part.x + part.width,
                    bottom == part.y + part.height,
                    part.fits(self.cols(), self.rows()),
                    self.wf(),
                    self.same_shape(old(self)),
                    match background {
                        Some(b) => b.wf() && b.cols() == self.cols() && b.rows() == self.rows(),
                        None => true,
                    },
                    forall|x: int, y: int, k: int|
                        self.contains(x, y) && 0 <= k < 2 ==> #[trigger] self.byte(x, y, k) == if part.covers(
                            x,
                            y,
                        ) && (y < row || (y == row && x < col)) {
                            Self::overlay_byte(background, first, second, x, y, k)
                        } else {
                            old(self).byte(x, y, k)
                        },
                decreases right - col,
            {
                let (a, b) = match background {
                    Some(source) => {
                        let at = source.index_of(col, row);
                        (source.buffer[at], source.buffer[at + 1])
                    },
                    None => (first, second),
                };
                self.write_slot(col, row, a, b);
                col += 1;
            }
            row += 1;
        }
    }

    /// Fills the part of `region` that the raster has with `color`; the rest
    /// of the raster keeps its content.
    pub fn fill_region(&mut self, region: Region, color: u16)
        requires
            old(self).wf(),
        ensures
            final(self).wf(),
            final(self).same_shape(old(self)),
            forall|x: int, y: int, k: int|
                final(self).contains(x, y) && 0 <= k < 2 ==> #[trigger] final(self).byte(x, y, k)
                    == if region.covers(x, y) {
                    stored_byte(old(self).order(), color, k)
                } else {
                    old(self).byte(x, y, k)
                },
            forall|x: int, y: int|
                final(self).contains(x, y) ==> #[trigger] final(self).pixel(x, y) == if region.covers(
                    x,
                    y,
                ) {
                    color
                } else {
                    old(self).pixel(x, y)
                },
    {
        let (first, second) = encode_color(self.order, color);
        self.overlay(region, first, second, None);
        proof {
            assert forall|x: int, y: int| self.contains(x, y) implies #[trigger] self.pixel(x, y)
                == if region.covers(x, y) {
                color
            } else {
                old(self).pixel(x, y)
            } by {
                assert(self.byte(x, y, 0) == if region.covers(x, y) {
                    first
                } else {
                    old(self).byte(x, y, 0)
                });
                assert(self.byte(x, y, 1) == if region.covers(x, y) {
                    second
                } else {
                    old(self).byte(x, y, 1)
                });
            }
        }
    }

    /// Restores the part of `region` that the raster has from `background`,
    /// byte for byte; the rest of the raster keeps its content.
    pub fn copy_region(&mut self, background: &FrameBuffer, region: Region)
        requires
            old(self).wf(),
            background.wf(),
            background.cols() == old(self).cols(),
            background.rows() == old(self).rows(),
        ensures
            final(self).wf(),
            final(self).same_shape(old(self)),
            forall|x: int, y: int, k: int|
                final(self).contains(x, y) && 0 <= k < 2 ==> #[trigger] final(self).byte(x, y, k)
                    == if region.covers(x, y) {
                    background.byte(x, y, k)
                } else {
                    old(self).byte(x, y, k)
                },
    {
        self.overlay(region, 0, 0, Some(background));
    }

    /// Restores every rectangle of `regions` from `background`; a pixel that
    /// none of them holds keeps its content.
    pub fn copy_regions(&mut self, background: &FrameBuffer, regions: &[Region])
        requires
            old(self).wf(),
            background.wf(),
            background.cols() == old(self).cols(),
            background.rows() == old(self).rows(),
        ensures
            final(self).wf(),
            final(self).same_shape(old(self)),
            forall|x: int, y: int, k: int|
                final(self).contains(x, y) && 0 <= k < 2 ==> #[trigger] final(self).byte(x, y, k)
                    == if any_covers(regions@, x, y) {
                    background.byte(x, y, k)
                } else {
                    old(self).byte(x, y, k)
                },
    {
        let mut i: usize = 0;
        while i < regions.len()
            invariant
                i <= regions.len(),
                self.wf(),
                background.wf(),
                background.cols() == self.cols(),
                background.rows() == self.rows(),
                self.same_shape(old(self)),
                forall|x: int, y: int, k: int|
                    self.contains(x, y) && 0 <= k < 2 ==> #[trigger] self.byte(x, y, k) == if any_covers(
                        regions@.take(i as int),
                        x,
                        y,
                    ) {
                        background.byte(x, y, k)
                    } else {
                        old(self).byte(x, y, k)
                    },
            decreases regions.len() - i,
        {
            let ghost before = *self;
            self.copy_region(background, regions[i]);
            proof {
                let done = regions@.take(i as int);
                let next = regions@.take(i + 1);
                assert forall|x: int, y: int| any_covers(next, x, y) <==> any_covers(done, x, y)
                    || regions@[i as int].covers(x, y) by {
                    if any_covers(done, x, y) {
                        let j = choose|j: int| 0 <= j < done.len() && #[trigger] done[j].covers(x, y);
                        assert(next[j].covers(x, y));
                    }
                    if regions@[i as int].covers(x, y) {
                        assert(next[i as int].covers(x, y));
                    }
                    if any_covers(next, x, y) {
                        let j = choose|j: int| 0 <= j < next.len() && #[trigger] next[j].covers(x, y);
                        if j < i {
                            assert(done[j].covers(x, y));
                        }
                    }
                }
            }
            i += 1;
        }
        proof {
            assert(regions@.take(i as int) == regions@);
        }
    }

    /// The bytes of the part of `region` that the raster has, row after row.
    pub fn region_bytes(&self, region: Region) -> (out: Vec<u8>)
        requires
            self.wf(),
        ensures
            out@ == rows_of(
                self.bytes(),
                self.cols(),
                region.clamped(self.cols(), self.rows()),
                region.clamped(self.cols(), self.rows()).height as int,
            ),
            out@.len() == region.clamped(self.cols(), self.rows()).width * region.clamped(
                self.cols(),
                self.rows(),
            ).height * 2,
    {
        let part = region.clamp(self.width, self.height);
        let mut out: Vec<u8> = Vec::new();
        let mut r: u32 = 0;
        while r < part.height
            invariant
                r <= part.height,
                part.fits(self.cols(), self.rows()),
                part.width == 0 <==> part.height == 0,
                self.wf(),
                out@ == rows_of(self.bytes(), self.cols(), part, r as int),
            decreases part.height - r,
        {
            proof {
                lemma_row_in_range(self.cols(), self.rows(), part, r as int);
            }
            let start: usize = self.index_of(part.x as u32, part.y as u32 + r);
            let len: usize = self.buffer.len();
            let end: usize = start + 2 * (part.width as usize);
            let ghost head = out@;
            let mut j: usize = start;
            while j < end
                invariant
                    start <= j <= end,
                    end <= self.bytes().len(),
                    out@ == head + self.bytes().subrange(start as int, j as int),
                decreases end - j,
            {
                out.push(self.buffer[j]);
                proof {
                    assert(self.bytes().subrange(start as int, j + 1) == self.bytes().subrange(
                        start as int,
                        j as int,
                    ).push(self.bytes()[j as int]));
                }
                j += 1;
            }
            r += 1;
        }
        proof {
            lemma_rows_of_len(self.bytes(), self.cols(), self.rows(), part, part.height as int);
        }
        out
    }

    /// Number of pixels in a row.
    pub fn width(&self) -> (w: u32)
        ensures
            w == self.cols(),
    {
        self.width
    }

    /// Number of rows.
    pub fn height(&self) -> (h: u32)
        ensures
            h == self.rows(),
    {
        self.height
    }

    /// Width and height, in that order.
    pub fn size(&self) -> (dims: (u32, u32))
        ensures
            dims.0 == self.cols(),
            dims.1 == self.rows(),
    {
        (self.width, self.height)
    }

    /// The order in which a pixel's two bytes are stored.
    pub fn byte_order(&self) -> (order: ByteOrder)
        ensures
            order == self.order(),
    {
        self.order
    }

    /// The stored bytes, row after row.
    pub fn get_buffer(&self) -> (bytes: &[u8])
        ensures
            bytes@ == self.bytes(),
    {
        self.buffer.as_slice()
    }

    /// Overwrites the start of the raster with `data`, an image in the
    /// raster's own layout; what lies behind it keeps its content.
    pub fn load(&mut self, data: &[u8])
        requires
            old(self).wf(),
            data@.len() <= old(self).bytes().len(),
        ensures
            final(self).wf(),
            final(self).same_shape(old(self)),
            final(self).bytes() == data@ + old(self).bytes().skip(data@.len() as int),
    {
        let mut i: usize = 0;
        proof {
            assert(self.bytes() =~= data@.take(0) + old(self).bytes().skip(0));
        }
        while i < data.len()
            invariant
                i <= data.len(),
                data@.len() <= old(self).bytes().len(),
                self.wf(),
                self.same_shape(old(self)),
                self.bytes() == data@.take(i as int) + old(self).bytes().skip(i as int),
            decreases data.len() - i,
        {
            self.buffer.set(i, data[i]);
            proof {
                assert(self.bytes() =~= data@.take(i + 1) + old(self).bytes().skip(i + 1));
            }
            i += 1;
        }
        proof {
            assert(data@.take(i as int) == data@);
        }
    }
}

} // verus!
