//! The display controller's command framing, and the selective refresh that
//! carries only the rectangles that changed.
//!
//! A transfer to the controller is a list of frames: a command byte, sent with
//! the data/command line low, followed by its parameter bytes, sent with the
//! line high. Painting a rectangle takes three frames: the column range, the
//! row range, and the memory write with the pixel bytes.

use vstd::prelude::*;
use crate::framebuffer::{rows_of, FrameBuffer};
use crate::pixel::{high_byte, low_byte, solid, split_color, ByteOrder};
use crate::region::{Region, RegionTracker};
use crate::transport::{
    frames_bytes, word_bytes, DisplayDataLines, DisplayError, OutputPin,
    ParallelDisplayInterface,
};

verus! {

/// Opcode that sets the column range of the address window.
pub const COLUMN_ADDRESS_SET: u8 = 0x2A;

/// Opcode that sets the row range of the address window.
pub const ROW_ADDRESS_SET: u8 = 0x2B;

/// Opcode that starts a write of pixel data into the address window.
pub const MEMORY_WRITE: u8 = 0x2C;

/// Largest number of columns or rows that a 16-bit address can reach.
pub const ADDRESS_SPAN: u32 = 0x1_0000;

/// A command byte and the parameter bytes that follow it.
#[derive(Debug, PartialEq, Eq)]
pub struct Frame {
    pub command: u8,
    pub data: Vec<u8>,
}

impl View for Frame {
    type V = (u8, Seq<u8>);

    open spec fn view(&self) -> (u8, Seq<u8>) {
        (self.command, self.data@)
    }
}

/// The frames of `frames` as pairs of command byte and parameter bytes.
pub open spec fn frames_view(frames: Seq<Frame>) -> Seq<(u8, Seq<u8>)> {
    Seq::new(frames.len(), |i: int| frames[i]@)
}

/// The rectangle of controller memory that the next pixel write fills:
/// first and last column, first and last row, as the controller counts them.
#[derive(Clone, Copy, Debug, PartialEq, Eq, Structural)]
pub struct AddressWindow {
    pub sx: u16,
    pub sy: u16,
    pub ex: u16,
    pub ey: u16,
}

/// A 16-bit value as two bytes, most significant first.
pub open spec fn be16(value: u16) -> Seq<u8> {
    seq![high_byte(value), low_byte(value)]
}

/// The window that a rectangle of the raster takes in controller memory when
/// the visible area starts at column `dx`, row `dy`.
pub open spec fn window_at(part: Region, dx: int, dy: int) -> AddressWindow {
    AddressWindow {
        sx: (part.x + dx) as u16,
        sy: (part.y + dy) as u16,
        ex: (part.x + part.width - 1 + dx) as u16,
        ey: (part.y + part.height - 1 + dy) as u16,
    }
}

/// The two frames that set the address window.
pub open spec fn window_frames(window: AddressWindow) -> Seq<(u8, Seq<u8>)> {
    seq![
        (COLUMN_ADDRESS_SET, be16(window.sx) + be16(window.ex)),
        (ROW_ADDRESS_SET, be16(window.sy) + be16(window.ey)),
    ]
}

/// The frames that paint `region` from a raster of `cols` by `rows` holding
/// `bytes`: none when the raster has no pixel of the rectangle, else the
/// window of its clamped form and one memory write with that part's bytes.
pub open spec fn transfer(
    bytes: Seq<u8>,
    cols: int,
    rows: int,
    dx: int,
    dy: int,
    region: Region,
) -> Seq<(u8, Seq<u8>)> {
    let part = region.clamped(cols, rows);
    if part.is_empty() {
        Seq::empty()
    } else {
        window_frames(window_at(part, dx, dy)).push(
            (MEMORY_WRITE, rows_of(bytes, cols, part, part.height as int)),
        )
    }
}

/// The frames that paint each of `regions` in turn. Rectangles are not
/// merged: one that overlaps another is sent again.
pub open spec fn transfers(
    bytes: Seq<u8>,
    cols: int,
    rows: int,
    dx: int,
    dy: int,
    regions: Seq<Region>,
) -> Seq<(u8, Seq<u8>)>
    decreases regions.len(),
{
    if regions.len() == 0 {
        Seq::empty()
    } else {
        transfers(bytes, cols, rows, dx, dy, regions.drop_last()) + transfer(
            bytes,
            cols,
            rows,
            dx,
            dy,
            regions.last(),
        )
    }
}

/// The frame that carries `first` and `last` under `command`.
fn range_frame(command: u8, first: u16, last: u16) -> (frame: Frame)
    ensures
        frame@ == (command, be16(first) + be16(last)),
{
    let (a, b) = split_color(first);
    let (c, d) = split_color(last);
    let mut data: Vec<u8> = Vec::new();
    data.push(a);
    data.push(b);
    data.push(c);
    data.push(d);
    proof {
        assert(data@ =~= be16(first) + be16(last));
    }
    Frame { command, data }
}

/// The two frames that set the address window: column range, then row range,
/// each value most significant byte first.
pub fn set_address_window(window: AddressWindow) -> (frames: Vec<Frame>)
    ensures
        frames_view(frames@) == window_frames(window),
{
    let mut frames: Vec<Frame> = Vec::new();
    frames.push(range_frame(COLUMN_ADDRESS_SET, window.sx, window.ex));
    frames.push(range_frame(ROW_ADDRESS_SET, window.sy, window.ey));
    proof {
        assert(frames_view(frames@) =~= window_frames(window));
    }
    frames
}

/// The frame that writes `colors` into the address window, each colour most
/// significant byte first.
pub fn write_pixels(colors: &[u16]) -> (frame: Frame)
    ensures
        frame@ == (MEMORY_WRITE, word_bytes(colors@, ByteOrder::BigEndian)),
{
    let mut data: Vec<u8> = Vec::new();
    let mut i: usize = 0;
    proof {
        assert(data@ =~= word_bytes(colors@.take(0), ByteOrder::BigEndian));
    }
    while i < colors.len()
        invariant
            i <= colors.len(),
            data@ == word_bytes(colors@.take(i as int), ByteOrder::BigEndian),
        decreases colors.len() - i,
    {
        let (high, low) = split_color(colors[i]);
        data.push(high);
        data.push(low);
        proof {
            assert(data@ =~= word_bytes(colors@.take(i + 1), ByteOrder::BigEndian));
        }
        i += 1;
    }
    proof {
        assert(colors@.take(i as int) == colors@);
    }
    Frame { command: MEMORY_WRITE, data }
}

/// The geometry of a display and the rectangles waiting to be refreshed.
pub struct Display {
    width: u32,
    height: u32,
    dx: u16,
    dy: u16,
    regions: RegionTracker,
}

impl Display {
    /// Number of visible columns.
    pub closed spec fn cols(&self) -> int {
        self.width as int
    }

    /// Number of visible rows.
    pub closed spec fn rows(&self) -> int {
        self.height as int
    }

    /// Column of controller memory where the visible area starts.
    pub closed spec fn offset_x(&self) -> int {
        self.dx as int
    }

    /// Row of controller memory where the visible area starts.
    pub closed spec fn offset_y(&self) -> int {
        self.dy as int
    }

    /// The rectangles waiting to be refreshed, oldest first.
    pub closed spec fn pending(&self) -> Seq<Region> {
        self.regions@
    }

    /// Every visible pixel has a 16-bit address in controller memory.
    pub open spec fn wf(&self) -> bool {
        self.cols() + self.offset_x() <= ADDRESS_SPAN && self.rows() + self.offset_y()
            <= ADDRESS_SPAN
    }

    /// Whether `fb` has this display's geometry.
    pub open spec fn matches(&self, fb: &FrameBuffer) -> bool {
        fb.wf() && fb.cols() == self.cols() && fb.rows() == self.rows()
    }

    /// A display of `width` by `height` whose visible area starts at the
    /// origin of controller memory, with nothing to refresh.
    pub fn new(width: u32, height: u32) -> (display: Display)
        requires
            width <= ADDRESS_SPAN,
            height <= ADDRESS_SPAN,
        ensures
            display.wf(),
            display.cols() == width,
            display.rows() == height,
            display.offset_x() == 0,
            display.offset_y() == 0,
            display.pending() == Seq::<Region>::empty(),
    {
        Display { width, height, dx: 0, dy: 0, regions: RegionTracker::new() }
    }

    /// Moves the visible area to column `dx`, row `dy` of controller memory.
    pub fn set_offset(&mut self, dx: u16, dy: u16)
        requires
            old(self).cols() + dx <= ADDRESS_SPAN,
            old(self).rows() + dy <= ADDRESS_SPAN,
        ensures
            final(self).wf(),
            final(self).cols() == old(self).cols(),
            final(self).rows() == old(self).rows(),
            final(self).offset_x() == dx,
            final(self).offset_y() == dy,
            final(self).pending() == old(self).pending(),
    {
        self.dx = dx;
        self.dy = dy;
    }

    /// Width and height of the visible area.
    pub fn size(&self) -> (dims: (u32, u32))
        ensures
            dims.0 == self.cols(),
            dims.1 == self.rows(),
    {
        (self.width, self.height)
    }

    /// Notes one more rectangle to refresh.
    pub fn store_region(&mut self, region: Region)
        ensures
            final(self).pending() == old(self).pending().push(region),
            final(self).cols() == old(self).cols(),
            final(self).rows() == old(self).rows(),
            final(self).offset_x() == old(self).offset_x(),
            final(self).offset_y() == old(self).offset_y(),
    {
        self.regions.store_region(region);
    }

    /// The rectangles waiting to be refreshed, oldest first.
    pub fn get_regions(&self) -> (regions: &[Region])
        ensures
            regions@ == self.pending(),
    {
        self.regions.get_regions()
    }

    /// Forgets every rectangle.
    pub fn clear_regions(&mut self)
        ensures
            final(self).pending() == Seq::<Region>::empty(),
            final(self).cols() == old(self).cols(),
            final(self).rows() == old(self).rows(),
            final(self).offset_x() == old(self).offset_x(),
            final(self).offset_y() == old(self).offset_y(),
    {
        self.regions.clear_regions();
    }

    /// The frames that set the window from column `sx`, row `sy` to column
    /// `ex`, row `ey` of the visible area and write `colors` into it.
    pub fn set_pixels(&self, sx: u16, sy: u16, ex: u16, ey: u16, colors: &[u16]) -> (frames: Vec<
        Frame,
    >)
        requires
            sx + self.offset_x() <= u16::MAX,
            ex + self.offset_x() <= u16::MAX,
            sy + self.offset_y() <= u16::MAX,
            ey + self.offset_y() <= u16::MAX,
        ensures
            frames_view(frames@) == window_frames(
                AddressWindow {
                    sx: (sx + self.offset_x()) as u16,
                    sy: (sy + self.offset_y()) as u16,
                    ex: (ex + self.offset_x()) as u16,
                    ey: (ey + self.offset_y()) as u16,
                },
            ).push((MEMORY_WRITE, word_bytes(colors@, ByteOrder::BigEndian))),
    {
        let window = AddressWindow {
            sx: sx + self.dx,
            sy: sy + self.dy,
            ex: ex + self.dx,
            ey: ey + self.dy,
        };
        let mut frames = set_address_window(window);
        let ghost head = frames@;
        frames.push(write_pixels(colors));
        proof {
            assert(frames_view(frames@) =~= frames_view(head).push(
                (MEMORY_WRITE, word_bytes(colors@, ByteOrder::BigEndian)),
            ));
        }
        frames
    }

    /// The frames that paint the single pixel at column `x`, row `y` of the
    /// visible area.
    pub fn set_pixel(&self, x: u16, y: u16, color: u16) -> (frames: Vec<Frame>)
        requires
            x + self.offset_x() <= u16::MAX,
            y + self.offset_y() <= u16::MAX,
        ensures
            frames_view(frames@) == window_frames(
                AddressWindow {
                    sx: (x + self.offset_x()) as u16,
                    sy: (y + self.offset_y()) as u16,
                    ex: (x + self.offset_x()) as u16,
                    ey: (y + self.offset_y()) as u16,
                },
            ).push((MEMORY_WRITE, seq![high_byte(color), low_byte(color)])),
    {
        let mut colors: Vec<u16> = Vec::new();
        colors.push(color);
        proof {
            assert(word_bytes(colors@, ByteOrder::BigEndian) =~= seq![
                high_byte(color),
                low_byte(color),
            ]);
        }
        self.set_pixels(x, y, x, y, colors.as_slice())
    }

    /// The frames that paint the whole visible area in `color`: its window
    /// and one memory write that holds the colour once for each pixel.
    pub fn clear_screen(&self, color: u16) -> (frames: Vec<Frame>)
        requires
            self.wf(),
            self.cols() > 0,
            self.rows() > 0,
        ensures
            frames_view(frames@) == window_frames(
                window_at(
                    Region { x: 0, y: 0, width: self.cols() as u32, height: self.rows() as u32 },
                    self.offset_x(),
                    self.offset_y(),
                ),
            ).push(
                (MEMORY_WRITE, solid(self.cols() * self.rows(), ByteOrder::BigEndian, color)),
            ),
    {
        let right: u32 = self.dx as u32 + (self.width - 1);
        let bottom: u32 = self.dy as u32 + (self.height - 1);
        let window = AddressWindow {
            sx: self.dx,
            sy: self.dy,
            ex: right as u16,
            ey: bottom as u16,
        };
        let (high, low) = split_color(color);
        proof {
            assert(self.width * self.height <= 0x1_0000 * 0x1_0000) by (nonlinear_arith)
                requires
                    self.width <= 0x1_0000,
                    self.height <= 0x1_0000,
            ;
        }
        let total: u64 = self.width as u64 * self.height as u64;
        let mut data: Vec<u8> = Vec::new();
        let mut i: u64 = 0;
        proof {
            assert(data@ =~= solid(0, ByteOrder::BigEndian, color));
        }
        while i < total
            invariant
                i <= total,
                high == high_byte(color),
                low == low_byte(color),
                data@ == solid(i as int, ByteOrder::BigEndian, color),
            decreases total - i,
        {
            data.push(high);
            data.push(low);
            proof {
                assert(data@ =~= solid(i + 1, ByteOrder::BigEndian, color));
            }
            i += 1;
        }
        let mut frames = set_address_window(window);
        let ghost head = frames@;
        frames.push(Frame { command: MEMORY_WRITE, data });
        proof {
            assert(frames_view(frames@) =~= frames_view(head).push(
                (MEMORY_WRITE, solid(self.cols() * self.rows(), ByteOrder::BigEndian, color)),
            ));
        }
        frames
    }

    /// The address window of the part of `region` that the display has, or
    /// `None` when it has no pixel of it.
    pub fn window_of(&self, region: Region) -> (window: Option<AddressWindow>)
        requires
            self.wf(),
        ensures
            window.is_none() <==> region.clamped(self.cols(), self.rows()).is_empty(),
            window.is_some() ==> window.unwrap() == window_at(
                region.clamped(self.cols(), self.rows()),
                self.offset_x(),
                self.offset_y(),
            ),
    {
        let part = region.clamp(self.width, self.height);
        if part.width == 0 || part.height == 0 {
            return None;
        }
        let dx: u32 = self.dx as u32;
        let dy: u32 = self.dy as u32;
        let left: u32 = part.x as u32 + dx;
        let top: u32 = part.y as u32 + dy;
        let right: u32 = left + (part.width - 1);
        let bottom: u32 = top + (part.height - 1);
        Some(AddressWindow { sx: left as u16, sy: top as u16, ex: right as u16, ey: bottom as u16 })
    }

    /// The frames that paint `region` from `fb`.
    pub fn show_region(&self, fb: &FrameBuffer, region: Region) -> (frames: Vec<Frame>)
        requires
            self.wf(),
            self.matches(fb),
        ensures
            frames_view(frames@) == transfer(
                fb.bytes(),
                self.cols(),
                self.rows(),
                self.offset_x(),
                self.offset_y(),
                region,
            ),
    {
        match self.window_of(region) {
            None => {
                let frames: Vec<Frame> = Vec::new();
                proof {
                    assert(frames_view(frames@) =~= Seq::empty());
                }
                frames
            },
            Some(window) => {
                let mut frames = set_address_window(window);
                let ghost head = frames@;
                let data = fb.region_bytes(region);
                frames.push(Frame { command: MEMORY_WRITE, data });
                proof {
                    let part = region.clamped(self.cols(), self.rows());
                    assert(frames_view(frames@) =~= frames_view(head).push(
                        (MEMORY_WRITE, rows_of(fb.bytes(), self.cols(), part, part.height as int)),
                    ));
                }
                frames
            },
        }
    }

    /// The frames that paint the whole raster.
    pub fn show(&self, fb: &FrameBuffer) -> (frames: Vec<Frame>)
        requires
            self.wf(),
            self.matches(fb),
        ensures
            frames_view(frames@) == transfer(
                fb.bytes(),
                self.cols(),
                self.rows(),
                self.offset_x(),
                self.offset_y(),
                Region { x: 0, y: 0, width: self.cols() as u32, height: self.rows() as u32 },
            ),
    {
        self.show_region(fb, Region { x: 0, y: 0, width: self.width, height: self.height })
    }

    /// The frames that paint every waiting rectangle from `fb`, oldest first.
    /// The rectangles stay noted.
    pub fn show_regions(&self, fb: &FrameBuffer) -> (frames: Vec<Frame>)
        requires
            self.wf(),
            self.matches(fb),
        ensures
            frames_view(frames@) == transfers(
                fb.bytes(),
                self.cols(),
                self.rows(),
                self.offset_x(),
                self.offset_y(),
                self.pending(),
            ),
    {
        let regions = self.regions.get_regions();
        let mut frames: Vec<Frame> = Vec::new();
        let mut i: usize = 0;
        proof {
            assert(frames_view(frames@) =~= Seq::empty());
            assert(regions@.take(0) =~= Seq::empty());
        }
        while i < regions.len()
            invariant
                i <= regions.len(),
                regions@ == self.pending(),
                self.wf(),
                self.matches(fb),
                frames_view(frames@) == transfers(
                    fb.bytes(),
                    self.cols(),
                    self.rows(),
                    self.offset_x(),
                    self.offset_y(),
                    regions@.take(i as int),
                ),
            decreases regions.len() - i,
        {
            let mut next = self.show_region(fb, regions[i]);
            let ghost head = frames@;
            let ghost tail = next@;
            frames.append(&mut next);
            proof {
                assert(regions@.take(i + 1).drop_last() == regions@.take(i as int));
                assert(regions@.take(i + 1).last() == regions@[i as int]);
                assert(frames_view(frames@) =~= frames_view(head) + frames_view(tail));
            }
            i += 1;
        }
        proof {
            assert(regions@.take(i as int) == regions@);
        }
        frames
    }

    /// The frames that paint every waiting rectangle from `fb`, oldest first;
    /// afterwards no rectangle is waiting.
    pub fn flush(&mut self, fb: &FrameBuffer) -> (frames: Vec<Frame>)
        requires
            old(self).wf(),
            old(self).matches(fb),
        ensures
            frames_view(frames@) == transfers(
                fb.bytes(),
                old(self).cols(),
                old(self).rows(),
                old(self).offset_x(),
                old(self).offset_y(),
                old(self).pending(),
            ),
            final(self).pending() == Seq::<Region>::empty(),
            final(self).wf(),
            final(self).cols() == old(self).cols(),
            final(self).rows() == old(self).rows(),
            final(self).offset_x() == old(self).offset_x(),
            final(self).offset_y() == old(self).offset_y(),
    {
        let frames = self.show_regions(fb);
        self.clear_regions();
        frames
    }

    /// Sends every waiting rectangle from `fb` over `bus`, oldest first, and
    /// releases the chip. The rectangles are forgotten once all of them went
    /// out; they stay noted when the transfer fails, which it does exactly
    /// when a line of the bus refused.
    pub fn refresh<CS: OutputPin, DC: OutputPin, D: DisplayDataLines>(
        &mut self,
        fb: &FrameBuffer,
        bus: &mut ParallelDisplayInterface<CS, DC, D>,
    ) -> (r: Result<(), DisplayError>)
        requires
            old(self).wf(),
            old(self).matches(fb),
        ensures
            final(bus).frames_from(
                old(bus),
                transfers(
                    fb.bytes(),
                    old(self).cols(),
                    old(self).rows(),
                    old(self).offset_x(),
                    old(self).offset_y(),
                    old(self).pending(),
                ),
                r,
            ),
            old(bus).steady() ==> r.is_ok() && final(bus).steady(),
            r.is_ok() ==> final(bus).data_sent() == old(bus).data_sent() + frames_bytes(
                transfers(
                    fb.bytes(),
                    old(self).cols(),
                    old(self).rows(),
                    old(self).offset_x(),
                    old(self).offset_y(),
                    old(self).pending(),
                ),
            ),
            r.is_ok() ==> final(self).pending() == Seq::<Region>::empty(),
            r.is_err() ==> final(self).pending() == old(self).pending(),
            final(self).wf(),
            final(self).cols() == old(self).cols(),
            final(self).rows() == old(self).rows(),
            final(self).offset_x() == old(self).offset_x(),
            final(self).offset_y() == old(self).offset_y(),
    {
        let frames = self.show_regions(fb);
        match bus.send_frames(frames.as_slice()) {
            Ok(()) => {
                self.clear_regions();
                Ok(())
            },
            Err(e) => Err(e),
        }
    }
}

} // verus!
