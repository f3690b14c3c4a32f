use rp_display::display::{
    set_address_window, write_pixels, AddressWindow, Display, Frame, COLUMN_ADDRESS_SET,
    MEMORY_WRITE, ROW_ADDRESS_SET,
};
use rp_display::framebuffer::FrameBuffer;
use rp_display::region::Region;
use rp_display::transport::{
    BusPin, DisplayError, DummyPin, ParallelDisplayInterface, PinDriver, PinError, PioDataLines,
    QueueDriver, TxQueue,
};
use std::cell::RefCell;
use std::rc::Rc;

fn blank(width: u32, height: u32) -> FrameBuffer {
    FrameBuffer::new(vec![0u8; (width * height * 2) as usize], width, height)
}

fn patterned(width: u32, height: u32) -> FrameBuffer {
    let bytes: Vec<u8> = (0..(width * height * 2)).map(|i| (i * 5 + 1) as u8).collect();
    FrameBuffer::new(bytes, width, height)
}

struct Sink(Rc<RefCell<Vec<u8>>>);

impl QueueDriver for Sink {
    fn push(&mut self, word: u32) {
        self.0.borrow_mut().push(word as u8);
    }

    fn push_all(&mut self, data: &[u8]) {
        self.0.borrow_mut().extend_from_slice(data);
    }

    fn drain(&mut self) {}
}

struct Line {
    name: &'static str,
    log: Rc<RefCell<Vec<(&'static str, bool)>>>,
    refuse_high: bool,
}

impl PinDriver for Line {
    fn set_low(&mut self) -> Result<(), PinError> {
        self.log.borrow_mut().push((self.name, false));
        Ok(())
    }

    fn set_high(&mut self) -> Result<(), PinError> {
        self.log.borrow_mut().push((self.name, true));
        if self.refuse_high { Err(PinError) } else { Ok(()) }
    }
}

#[test]
fn address_window_frames_are_big_endian_ranges() {
    let frames = set_address_window(AddressWindow { sx: 0x0102, sy: 0x0304, ex: 0x0506, ey: 0x0708 });
    assert_eq!(
        frames,
        vec![
            Frame { command: 0x2A, data: vec![0x01, 0x02, 0x05, 0x06] },
            Frame { command: 0x2B, data: vec![0x03, 0x04, 0x07, 0x08] },
        ]
    );
    assert_eq!(COLUMN_ADDRESS_SET, 0x2A);
    assert_eq!(ROW_ADDRESS_SET, 0x2B);
    assert_eq!(MEMORY_WRITE, 0x2C);
}

#[test]
fn window_of_region_spans_first_to_last_pixel() {
    let display = Display::new(240, 240);
    assert_eq!(
        display.window_of(Region::new(10, 20, 30, 40)),
        Some(AddressWindow { sx: 10, sy: 20, ex: 39, ey: 59 })
    );
    assert_eq!(
        display.window_of(Region::new(0, 0, 240, 240)),
        Some(AddressWindow { sx: 0, sy: 0, ex: 239, ey: 239 })
    );
    assert_eq!(
        display.window_of(Region::new(230, -5, 50, 10)),
        Some(AddressWindow { sx: 230, sy: 0, ex: 239, ey: 4 })
    );
    assert_eq!(display.window_of(Region::new(240, 0, 5, 5)), None);
    assert_eq!(display.window_of(Region::new(5, 5, 0, 5)), None);
}

#[test]
fn window_is_moved_by_the_display_offset() {
    let mut display = Display::new(240, 135);
    display.set_offset(40, 53);
    assert_eq!(
        display.window_of(Region::new(0, 0, 240, 135)),
        Some(AddressWindow { sx: 40, sy: 53, ex: 279, ey: 187 })
    );
    assert_eq!(display.size(), (240, 135));
    let mut widest = Display::new(65536, 65536);
    widest.set_offset(0, 0);
    assert_eq!(
        widest.window_of(Region::new(65535, 65535, 9, 9)),
        Some(AddressWindow { sx: 65535, sy: 65535, ex: 65535, ey: 65535 })
    );
    let mut shifted = Display::new(1, 1);
    shifted.set_offset(65535, 65535);
    assert_eq!(
        shifted.window_of(Region::new(0, 0, 1, 1)),
        Some(AddressWindow { sx: 65535, sy: 65535, ex: 65535, ey: 65535 })
    );
}

#[test]
fn filled_rectangle_is_sent_as_one_window_of_its_pixels() {
    let mut fb = blank(240, 240);
    let region = Region::new(100, 50, 7, 3);
    fb.fill_region(region, 0xF800);
    let display = Display::new(240, 240);
    let frames = display.show_region(&fb, region);
    assert_eq!(frames.len(), 3);
    assert_eq!(frames[0], Frame { command: 0x2A, data: vec![0, 100, 0, 106] });
    assert_eq!(frames[1], Frame { command: 0x2B, data: vec![0, 50, 0, 52] });
    assert_eq!(frames[2].command, 0x2C);
    assert_eq!(frames[2].data.len(), 7 * 3 * 2);
    for word in frames[2].data.chunks(2) {
        assert_eq!(word, &[0xF8, 0x00]);
    }
}

#[test]
fn show_region_sends_the_rasters_bytes_row_by_row() {
    let fb = patterned(8, 6);
    let all = fb.get_buffer().to_vec();
    let display = Display::new(8, 6);
    let frames = display.show_region(&fb, Region::new(6, 4, 5, 5));
    assert_eq!(frames.len(), 3);
    assert_eq!(frames[0].data, vec![0, 6, 0, 7]);
    assert_eq!(frames[1].data, vec![0, 4, 0, 5]);
    let mut expected = Vec::new();
    for y in 4..6usize {
        for x in 6..8usize {
            expected.push(all[(y * 8 + x) * 2]);
            expected.push(all[(y * 8 + x) * 2 + 1]);
        }
    }
    assert_eq!(frames[2].data, expected);
}

#[test]
fn show_region_outside_sends_nothing() {
    let fb = blank(8, 6);
    let display = Display::new(8, 6);
    assert!(display.show_region(&fb, Region::new(8, 0, 2, 2)).is_empty());
    assert!(display.show_region(&fb, Region::new(0, 0, 0, 0)).is_empty());
}

#[test]
fn show_sends_the_whole_raster() {
    let fb = patterned(8, 6);
    let display = Display::new(8, 6);
    let frames = display.show(&fb);
    assert_eq!(frames.len(), 3);
    assert_eq!(frames[0].data, vec![0, 0, 0, 7]);
    assert_eq!(frames[1].data, vec![0, 0, 0, 5]);
    assert_eq!(frames[2].data, fb.get_buffer().to_vec());
    let nothing = Display::new(0, 0);
    assert!(nothing.show(&FrameBuffer::new(Vec::new(), 0, 0)).is_empty());
}

#[test]
fn two_regions_flush_as_two_windows_of_400_pixels() {
    let fb = patterned(240, 240);
    let mut display = Display::new(240, 240);
    display.store_region(Region::new(10, 10, 20, 20));
    display.store_region(Region::new(100, 150, 20, 20));
    assert_eq!(display.get_regions().len(), 2);
    let frames = display.flush(&fb);
    assert_eq!(frames.len(), 6);
    let windows = frames.iter().filter(|f| f.command == COLUMN_ADDRESS_SET).count();
    let rows = frames.iter().filter(|f| f.command == ROW_ADDRESS_SET).count();
    let writes: Vec<&Frame> = frames.iter().filter(|f| f.command == MEMORY_WRITE).collect();
    assert_eq!(windows, 2);
    assert_eq!(rows, 2);
    assert_eq!(writes.len(), 2);
    for write in writes {
        assert_eq!(write.data.len() / 2, 400);
        assert_eq!(write.data.len() % 2, 0);
    }
    assert_eq!(frames[0].data, vec![0, 10, 0, 29]);
    assert_eq!(frames[1].data, vec![0, 10, 0, 29]);
    assert_eq!(frames[3].data, vec![0, 100, 0, 119]);
    assert_eq!(frames[4].data, vec![0, 150, 0, 169]);
    assert_eq!(frames[2].data, fb.region_bytes(Region::new(10, 10, 20, 20)));
    assert_eq!(frames[5].data, fb.region_bytes(Region::new(100, 150, 20, 20)));
    assert!(display.get_regions().is_empty());
    assert!(display.flush(&fb).is_empty());
}

#[test]
fn overlapping_regions_are_sent_separately() {
    let fb = patterned(16, 16);
    let mut display = Display::new(16, 16);
    display.store_region(Region::new(0, 0, 4, 4));
    display.store_region(Region::new(2, 2, 4, 4));
    display.store_region(Region::new(20, 20, 4, 4));
    display.store_region(Region::new(0, 0, 4, 4));
    let frames = display.show_regions(&fb);
    assert_eq!(frames.len(), 9);
    assert_eq!(frames[0], frames[6]);
    assert_eq!(frames[2], frames[8]);
    assert_eq!(display.get_regions().len(), 4);
    display.clear_regions();
    assert!(display.get_regions().is_empty());
    assert!(display.show_regions(&fb).is_empty());
}

#[test]
fn frames_go_out_as_command_then_parameters() {
    let seen = Rc::new(RefCell::new(Vec::new()));
    let log = Rc::new(RefCell::new(Vec::new()));
    let cs = BusPin::new(Line { name: "cs", log: log.clone(), refuse_high: false });
    let dc = BusPin::new(Line { name: "dc", log: log.clone(), refuse_high: false });
    let mut bus = ParallelDisplayInterface::new(cs, dc, PioDataLines::new(TxQueue::new(Sink(seen.clone()))));
    let frames = vec![
        Frame { command: 0x2A, data: vec![0, 1, 0, 2] },
        Frame { command: 0x29, data: vec![] },
        Frame { command: 0x2C, data: vec![0xAB, 0xCD] },
    ];
    assert_eq!(bus.send_frames(&frames), Ok(()));
    assert_eq!(*seen.borrow(), vec![0x2A, 0, 1, 0, 2, 0x29, 0x2C, 0xAB, 0xCD]);
    assert_eq!(
        *log.borrow(),
        vec![
            ("cs", false),
            ("dc", false),
            ("dc", true),
            ("cs", false),
            ("dc", false),
            ("cs", false),
            ("dc", false),
            ("dc", true),
            ("cs", true),
        ]
    );
}

#[test]
fn send_frame_sends_one_frame() {
    let seen = Rc::new(RefCell::new(Vec::new()));
    let mut bus = ParallelDisplayInterface::new(
        BusPin::new(DummyPin),
        BusPin::new(DummyPin),
        PioDataLines::new(TxQueue::new(Sink(seen.clone()))),
    );
    assert_eq!(bus.send_frame(&Frame { command: 0x36, data: vec![0x98] }), Ok(()));
    assert_eq!(bus.send_frame(&Frame { command: 0x11, data: vec![] }), Ok(()));
    assert_eq!(*seen.borrow(), vec![0x36, 0x98, 0x11]);
}

#[test]
fn send_frames_reports_a_chip_select_that_stays_low() {
    let seen = Rc::new(RefCell::new(Vec::new()));
    let log = Rc::new(RefCell::new(Vec::new()));
    let cs = BusPin::new(Line { name: "cs", log: log.clone(), refuse_high: true });
    let dc = BusPin::new(Line { name: "dc", log: log.clone(), refuse_high: false });
    let mut bus = ParallelDisplayInterface::new(cs, dc, PioDataLines::new(TxQueue::new(Sink(seen.clone()))));
    assert_eq!(bus.send_frames(&[Frame { command: 0x2C, data: vec![1] }]), Err(DisplayError::CSError));
    assert_eq!(*seen.borrow(), vec![0x2C, 1]);
}

#[test]
fn send_frames_stops_when_data_mode_is_refused() {
    let seen = Rc::new(RefCell::new(Vec::new()));
    let log = Rc::new(RefCell::new(Vec::new()));
    let cs = BusPin::new(Line { name: "cs", log: log.clone(), refuse_high: false });
    let dc = BusPin::new(Line { name: "dc", log: log.clone(), refuse_high: true });
    let mut bus = ParallelDisplayInterface::new(cs, dc, PioDataLines::new(TxQueue::new(Sink(seen.clone()))));
    let frames = [Frame { command: 0x2A, data: vec![9] }, Frame { command: 0x2B, data: vec![8] }];
    assert_eq!(bus.send_frames(&frames), Err(DisplayError::DCError));
    assert_eq!(*seen.borrow(), vec![0x2A]);
    assert_eq!(*log.borrow(), vec![("cs", false), ("dc", false), ("dc", true)]);
}

#[test]
fn flushed_region_reaches_the_bus() {
    let mut fb = blank(4, 4);
    fb.fill_region(Region::new(1, 1, 2, 2), 0x07E0);
    let mut display = Display::new(4, 4);
    display.store_region(Region::new(1, 1, 2, 2));
    let frames = display.flush(&fb);
    let seen = Rc::new(RefCell::new(Vec::new()));
    let mut bus = ParallelDisplayInterface::new(
        BusPin::new(DummyPin),
        BusPin::new(DummyPin),
        PioDataLines::new(TxQueue::new(Sink(seen.clone()))),
    );
    assert_eq!(bus.send_frames(&frames), Ok(()));
    assert_eq!(
        *seen.borrow(),
        vec![
            0x2A, 0, 1, 0, 2, 0x2B, 0, 1, 0, 2, 0x2C, 0x07, 0xE0, 0x07, 0xE0, 0x07, 0xE0, 0x07,
            0xE0
        ]
    );
}

#[test]
fn write_pixels_sends_words_big_endian() {
    assert_eq!(
        write_pixels(&[0x1234, 0x00FF, 0xFF00]),
        Frame { command: 0x2C, data: vec![0x12, 0x34, 0x00, 0xFF, 0xFF, 0x00] }
    );
    assert_eq!(write_pixels(&[]), Frame { command: 0x2C, data: vec![] });
}

#[test]
fn set_pixels_frames_a_pixel_run() {
    let mut display = Display::new(240, 240);
    assert_eq!(
        display.set_pixels(1, 2, 3, 4, &[0xF800, 0x07E0]),
        vec![
            Frame { command: 0x2A, data: vec![0, 1, 0, 3] },
            Frame { command: 0x2B, data: vec![0, 2, 0, 4] },
            Frame { command: 0x2C, data: vec![0xF8, 0x00, 0x07, 0xE0] },
        ]
    );
    display.set_offset(0x0100, 0x0200);
    assert_eq!(
        display.set_pixels(1, 2, 3, 4, &[]),
        vec![
            Frame { command: 0x2A, data: vec![1, 1, 1, 3] },
            Frame { command: 0x2B, data: vec![2, 2, 2, 4] },
            Frame { command: 0x2C, data: vec![] },
        ]
    );
}

#[test]
fn set_pixel_frames_a_window_of_one() {
    let mut display = Display::new(240, 240);
    display.set_offset(10, 20);
    assert_eq!(
        display.set_pixel(5, 6, 0xABCD),
        vec![
            Frame { command: 0x2A, data: vec![0, 15, 0, 15] },
            Frame { command: 0x2B, data: vec![0, 26, 0, 26] },
            Frame { command: 0x2C, data: vec![0xAB, 0xCD] },
        ]
    );
}

#[test]
fn refresh_sends_and_forgets_the_regions() {
    let mut fb = blank(4, 4);
    fb.fill_region(Region::new(0, 0, 1, 2), 0x1234);
    let mut display = Display::new(4, 4);
    display.store_region(Region::new(0, 0, 1, 2));
    display.store_region(Region::new(9, 9, 1, 1));
    display.store_region(Region::new(3, 3, 5, 5));
    let seen = Rc::new(RefCell::new(Vec::new()));
    let log = Rc::new(RefCell::new(Vec::new()));
    let cs = BusPin::new(Line { name: "cs", log: log.clone(), refuse_high: false });
    let dc = BusPin::new(Line { name: "dc", log: log.clone(), refuse_high: false });
    let mut bus = ParallelDisplayInterface::new(cs, dc, PioDataLines::new(TxQueue::new(Sink(seen.clone()))));
    assert_eq!(display.refresh(&fb, &mut bus), Ok(()));
    assert_eq!(
        *seen.borrow(),
        vec![
            0x2A, 0, 0, 0, 0, 0x2B, 0, 0, 0, 1, 0x2C, 0x12, 0x34, 0x12, 0x34, 0x2A, 0, 3, 0, 3,
            0x2B, 0, 3, 0, 3, 0x2C, 0, 0
        ]
    );
    assert_eq!(log.borrow().last(), Some(&("cs", true)));
    assert!(display.get_regions().is_empty());
    assert_eq!(display.refresh(&fb, &mut bus), Ok(()));
    assert_eq!(seen.borrow().len(), 28);
}

#[test]
fn refresh_keeps_the_regions_when_the_bus_fails() {
    let fb = blank(4, 4);
    let mut display = Display::new(4, 4);
    display.store_region(Region::new(1, 1, 2, 2));
    let seen = Rc::new(RefCell::new(Vec::new()));
    let log = Rc::new(RefCell::new(Vec::new()));
    let cs = BusPin::new(Line { name: "cs", log: log.clone(), refuse_high: false });
    let dc = BusPin::new(Line { name: "dc", log: log.clone(), refuse_high: true });
    let mut bus = ParallelDisplayInterface::new(cs, dc, PioDataLines::new(TxQueue::new(Sink(seen.clone()))));
    assert_eq!(display.refresh(&fb, &mut bus), Err(DisplayError::DCError));
    assert_eq!(display.get_regions(), &[Region::new(1, 1, 2, 2)]);
    assert_eq!(*seen.borrow(), vec![0x2A]);
}

#[test]
fn clear_screen_sends_the_colour_for_every_pixel() {
    let mut display = Display::new(3, 2);
    assert_eq!(
        display.clear_screen(0xF81F),
        vec![
            Frame { command: 0x2A, data: vec![0, 0, 0, 2] },
            Frame { command: 0x2B, data: vec![0, 0, 0, 1] },
            Frame {
                command: 0x2C,
                data: vec![0xF8, 0x1F, 0xF8, 0x1F, 0xF8, 0x1F, 0xF8, 0x1F, 0xF8, 0x1F, 0xF8, 0x1F]
            },
        ]
    );
    display.set_offset(0x1000, 0x2000);
    let frames = display.clear_screen(0);
    assert_eq!(frames[0].data, vec![0x10, 0x00, 0x10, 0x02]);
    assert_eq!(frames[1].data, vec![0x20, 0x00, 0x20, 0x01]);
    assert_eq!(frames[2].data, vec![0u8; 12]);
    let big = Display::new(240, 240);
    let frames = big.clear_screen(0x001F);
    assert_eq!(frames[2].data.len(), 115200);
    assert!(frames[2].data.chunks(2).all(|slot| slot == [0x00, 0x1F]));
}
