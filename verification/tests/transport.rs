use rp_display::pixel::ByteOrder;
use rp_display::transport::{
    set_pin_bit, BusPin, DataFormat, DisplayDataLines, DisplayError, DummyPin, GpioDataLines,
    OutputPin, ParallelDisplayInterface, PinDriver, PinError, PioDataLines, QueueDriver, TxFifo,
    TxQueue,
};
use std::cell::RefCell;
use std::rc::Rc;

/// A transmit queue that keeps what it is given.
struct Queue {
    bytes: Rc<RefCell<Vec<u8>>>,
    blocks: Rc<RefCell<usize>>,
}

impl QueueDriver for Queue {
    fn push(&mut self, word: u32) {
        self.bytes.borrow_mut().push(word as u8);
    }

    fn push_all(&mut self, data: &[u8]) {
        *self.blocks.borrow_mut() += 1;
        self.bytes.borrow_mut().extend_from_slice(data);
    }

    fn drain(&mut self) {}
}

/// A transmit queue that counts how often it is waited on.
struct Counting(Rc<RefCell<usize>>);

impl QueueDriver for Counting {
    fn push(&mut self, _word: u32) {}

    fn push_all(&mut self, _data: &[u8]) {}

    fn drain(&mut self) {
        *self.0.borrow_mut() += 1;
    }
}

fn queue() -> (PioDataLines<TxQueue<Queue>>, Rc<RefCell<Vec<u8>>>, Rc<RefCell<usize>>) {
    let bytes = Rc::new(RefCell::new(Vec::new()));
    let blocks = Rc::new(RefCell::new(0));
    let driver = Queue { bytes: bytes.clone(), blocks: blocks.clone() };
    (PioDataLines::new(TxQueue::new(driver)), bytes, blocks)
}

/// A line that notes every level it is asked to take in a log shared with other lines.
struct LoggedPin {
    name: &'static str,
    log: Rc<RefCell<Vec<(&'static str, bool)>>>,
    refuse: bool,
}

impl PinDriver for LoggedPin {
    fn set_low(&mut self) -> Result<(), PinError> {
        self.log.borrow_mut().push((self.name, false));
        if self.refuse { Err(PinError) } else { Ok(()) }
    }

    fn set_high(&mut self) -> Result<(), PinError> {
        self.log.borrow_mut().push((self.name, true));
        if self.refuse { Err(PinError) } else { Ok(()) }
    }
}

fn pin(
    name: &'static str,
    log: &Rc<RefCell<Vec<(&'static str, bool)>>>,
    refuse: bool,
) -> BusPin<LoggedPin> {
    BusPin::new(LoggedPin { name, log: log.clone(), refuse })
}

fn logged_lines(
    log: &Rc<RefCell<Vec<(&'static str, bool)>>>,
    refusing: &'static str,
) -> GpioDataLines<
    BusPin<LoggedPin>,
    BusPin<LoggedPin>,
    BusPin<LoggedPin>,
    BusPin<LoggedPin>,
    BusPin<LoggedPin>,
    BusPin<LoggedPin>,
    BusPin<LoggedPin>,
    BusPin<LoggedPin>,
    BusPin<LoggedPin>,
> {
    GpioDataLines::new(
        pin("wr", log, refusing == "wr"),
        pin("d0", log, refusing == "d0"),
        pin("d1", log, refusing == "d1"),
        pin("d2", log, refusing == "d2"),
        pin("d3", log, refusing == "d3"),
        pin("d4", log, refusing == "d4"),
        pin("d5", log, refusing == "d5"),
        pin("d6", log, refusing == "d6"),
        pin("d7", log, refusing == "d7"),
    )
}

/// The bytes that a log of line levels spells out, one for each rising strobe.
fn bytes_on_bus(log: &[(&'static str, bool)]) -> Vec<u8> {
    let mut levels = [false; 8];
    let mut out = Vec::new();
    for (name, high) in log.iter() {
        if *name == "wr" {
            if *high {
                let mut byte = 0u8;
                for (i, level) in levels.iter().enumerate() {
                    if *level {
                        byte |= 1 << i;
                    }
                }
                out.push(byte);
            }
        } else {
            let line = name.as_bytes()[1] - b'0';
            levels[line as usize] = *high;
        }
    }
    out
}

#[test]
fn write_slice_sends_bytes_in_order() {
    let log = Rc::new(RefCell::new(Vec::new()));
    let mut lines = logged_lines(&log, "");
    assert_eq!(lines.write_slice(&[1, 2, 3]), Ok(()));
    assert_eq!(bytes_on_bus(&log.borrow()), vec![1, 2, 3]);
}

#[test]
fn write_slice_stops_at_first_failure() {
    let log = Rc::new(RefCell::new(Vec::new()));
    let mut lines = logged_lines(&log, "d7");
    assert_eq!(lines.write_slice(&[9, 8, 7, 6]), Err(DisplayError::BusWriteError));
    assert_eq!(log.borrow().len(), 10);
}

#[test]
fn write_slice_of_nothing_succeeds() {
    let log = Rc::new(RefCell::new(Vec::new()));
    let mut lines = logged_lines(&log, "wr");
    assert_eq!(lines.write_slice(&[]), Ok(()));
    assert!(log.borrow().is_empty());
}

#[test]
fn write_format_orders_word_bytes() {
    let (mut lines, seen, _) = queue();
    assert_eq!(lines.write_format(DataFormat::U16BE(&[0x1234, 0xABCD])), Ok(()));
    assert_eq!(lines.write_format(DataFormat::U16LE(&[0x1234])), Ok(()));
    assert_eq!(lines.write_format(DataFormat::U16(&[0xBEEF])), Ok(()));
    assert_eq!(lines.write_format(DataFormat::U8(&[0x55])), Ok(()));
    assert_eq!(*seen.borrow(), vec![0x12, 0x34, 0xAB, 0xCD, 0x34, 0x12, 0xEF, 0xBE, 0x55]);
}

#[test]
fn write_format_on_gpio_lines_orders_word_bytes() {
    let log = Rc::new(RefCell::new(Vec::new()));
    let mut lines = logged_lines(&log, "");
    assert_eq!(lines.write_format(DataFormat::U16BE(&[0x1234])), Ok(()));
    assert_eq!(lines.write_format(DataFormat::U16LE(&[0x1234])), Ok(()));
    assert_eq!(bytes_on_bus(&log.borrow()), vec![0x12, 0x34, 0x34, 0x12]);
}

#[test]
fn write_words_follows_byte_order() {
    let (mut lines, seen, _) = queue();
    assert_eq!(lines.write_words(&[0x00EF], ByteOrder::BigEndian), Ok(()));
    assert_eq!(lines.write_words(&[0x00EF], ByteOrder::LittleEndian), Ok(()));
    assert_eq!(*seen.borrow(), vec![0x00, 0xEF, 0xEF, 0x00]);
}

#[test]
fn queue_sends_blocks_as_one_transfer() {
    let (mut lines, seen, blocks) = queue();
    assert_eq!(lines.write_slice(&[1, 2, 3, 4]), Ok(()));
    assert_eq!(*blocks.borrow(), 1);
    assert_eq!(lines.write_u8(5), Ok(()));
    lines.flush();
    assert_eq!(*blocks.borrow(), 1);
    assert_eq!(*seen.borrow(), vec![1, 2, 3, 4, 5]);
}

#[test]
fn gpio_cycle_strobes_around_the_data_bits() {
    let log = Rc::new(RefCell::new(Vec::new()));
    let mut lines = GpioDataLines::new(
        pin("wr", &log, false),
        pin("d0", &log, false),
        pin("d1", &log, false),
        pin("d2", &log, false),
        pin("d3", &log, false),
        pin("d4", &log, false),
        pin("d5", &log, false),
        pin("d6", &log, false),
        pin("d7", &log, false),
    );
    assert_eq!(lines.write_u8(0xA5), Ok(()));
    assert_eq!(
        *log.borrow(),
        vec![
            ("wr", false),
            ("d0", true),
            ("d1", false),
            ("d2", true),
            ("d3", false),
            ("d4", false),
            ("d5", true),
            ("d6", false),
            ("d7", true),
            ("wr", true),
        ]
    );
}

#[test]
fn gpio_cycle_raises_strobe_after_a_refusal() {
    let log = Rc::new(RefCell::new(Vec::new()));
    let mut lines = GpioDataLines::new(
        pin("wr", &log, false),
        pin("d0", &log, false),
        pin("d1", &log, true),
        pin("d2", &log, false),
        pin("d3", &log, false),
        pin("d4", &log, false),
        pin("d5", &log, false),
        pin("d6", &log, false),
        pin("d7", &log, false),
    );
    assert_eq!(lines.write_u8(0xFF), Err(DisplayError::BusWriteError));
    assert_eq!(*log.borrow(), vec![("wr", false), ("d0", true), ("d1", true), ("wr", true)]);
}

#[test]
fn gpio_cycle_ends_when_strobe_refuses() {
    let log = Rc::new(RefCell::new(Vec::new()));
    let mut lines = GpioDataLines::new(
        pin("wr", &log, true),
        pin("d0", &log, false),
        pin("d1", &log, false),
        pin("d2", &log, false),
        pin("d3", &log, false),
        pin("d4", &log, false),
        pin("d5", &log, false),
        pin("d6", &log, false),
        pin("d7", &log, false),
    );
    assert_eq!(lines.write_u8(0x01), Err(DisplayError::BusWriteError));
    assert_eq!(*log.borrow(), vec![("wr", false)]);
}

#[test]
fn dummy_pin_accepts_every_level() {
    let mut driver = DummyPin;
    assert_eq!(PinDriver::set_low(&mut driver), Ok(()));
    assert_eq!(PinDriver::set_high(&mut driver), Ok(()));
    let mut p = BusPin::new(DummyPin);
    assert_eq!(p.set_low(), Ok(()));
    assert_eq!(p.set_high(), Ok(()));
    assert_eq!(p.set_state(true), Ok(()));
    assert_eq!(p.set_state(false), Ok(()));
}

#[test]
fn set_state_tells_the_line_the_level() {
    let log = Rc::new(RefCell::new(Vec::new()));
    let mut line = pin("x", &log, false);
    assert_eq!(line.set_state(true), Ok(()));
    assert_eq!(line.set_state(false), Ok(()));
    assert_eq!(line.set_high(), Ok(()));
    assert_eq!(line.set_low(), Ok(()));
    assert_eq!(*log.borrow(), vec![("x", true), ("x", false), ("x", true), ("x", false)]);
    let mut stuck = pin("y", &log, true);
    assert_eq!(stuck.set_state(true), Err(PinError));
    assert_eq!(log.borrow().last(), Some(&("y", true)));
}

#[test]
fn set_pin_bit_tests_the_byte_against_the_mask() {
    let log = Rc::new(RefCell::new(Vec::new()));
    let mut line = pin("d", &log, false);
    assert_eq!(set_pin_bit(&mut line, 0b1010_0101, 0b0000_0100), Ok(()));
    assert_eq!(set_pin_bit(&mut line, 0b1010_0101, 0b0000_0010), Ok(()));
    assert_eq!(set_pin_bit(&mut line, 0xFF, 0), Ok(()));
    assert_eq!(set_pin_bit(&mut line, 0x80, 0x80), Ok(()));
    assert_eq!(*log.borrow(), vec![("d", true), ("d", false), ("d", false), ("d", true)]);
    let mut stuck = pin("s", &log, true);
    assert_eq!(set_pin_bit(&mut stuck, 1, 1), Err(DisplayError::BusWriteError));
    assert_eq!(log.borrow().last(), Some(&("s", true)));
}

#[test]
fn flush_waits_on_the_queue() {
    let waits = Rc::new(RefCell::new(0usize));
    let mut lines = PioDataLines::new(TxQueue::new(Counting(waits.clone())));
    assert_eq!(lines.write_u8(1), Ok(()));
    assert_eq!(*waits.borrow(), 0);
    lines.flush();
    assert_eq!(*waits.borrow(), 1);
    lines.flush();
    assert_eq!(*waits.borrow(), 2);
}

#[test]
fn send_commands_selects_chip_and_command_mode() {
    let log = Rc::new(RefCell::new(Vec::new()));
    let (lines, seen, _) = queue();
    let mut bus = ParallelDisplayInterface::new(pin("cs", &log, false), pin("dc", &log, false), lines);
    assert_eq!(bus.send_commands(DataFormat::U8(&[0x2A])), Ok(()));
    assert_eq!(bus.send_data(DataFormat::U16BE(&[0x0001, 0x00EF])), Ok(()));
    assert_eq!(*log.borrow(), vec![("cs", false), ("dc", false), ("dc", true)]);
    assert_eq!(*seen.borrow(), vec![0x2A, 0x00, 0x01, 0x00, 0xEF]);
}

#[test]
fn send_commands_reports_the_line_that_refused() {
    let log = Rc::new(RefCell::new(Vec::new()));
    let (lines, seen, _) = queue();
    let mut bus = ParallelDisplayInterface::new(pin("cs", &log, true), pin("dc", &log, false), lines);
    assert_eq!(bus.send_commands(DataFormat::U8(&[0x2A])), Err(DisplayError::CSError));
    assert!(seen.borrow().is_empty());

    let (lines, seen, _) = queue();
    let mut bus = ParallelDisplayInterface::new(pin("cs", &log, false), pin("dc", &log, true), lines);
    assert_eq!(bus.send_commands(DataFormat::U8(&[0x2A])), Err(DisplayError::DCError));
    assert_eq!(bus.send_data(DataFormat::U8(&[0x00])), Err(DisplayError::DCError));
    assert!(seen.borrow().is_empty());
}

#[test]
fn send_data_passes_on_a_bus_failure() {
    let log = Rc::new(RefCell::new(Vec::new()));
    let lines = logged_lines(&log, "d0");
    let mut bus = ParallelDisplayInterface::new(BusPin::new(DummyPin), BusPin::new(DummyPin), lines);
    assert_eq!(bus.send_data(DataFormat::U8(&[1, 2])), Err(DisplayError::BusWriteError));
    assert_eq!(*log.borrow(), vec![("wr", false), ("d0", true), ("wr", true)]);
}

/// A line that takes low and refuses high.
struct HighShy(Rc<RefCell<Vec<(&'static str, bool)>>>);

impl PinDriver for HighShy {
    fn set_low(&mut self) -> Result<(), PinError> {
        self.0.borrow_mut().push(("wr", false));
        Ok(())
    }

    fn set_high(&mut self) -> Result<(), PinError> {
        self.0.borrow_mut().push(("wr", true));
        Err(PinError)
    }
}

#[test]
fn gpio_cycle_fails_when_strobe_refuses_to_rise() {
    let log = Rc::new(RefCell::new(Vec::new()));
    let mut lines = GpioDataLines::new(
        BusPin::new(HighShy(log.clone())),
        pin("d0", &log, false),
        pin("d1", &log, false),
        pin("d2", &log, false),
        pin("d3", &log, false),
        pin("d4", &log, false),
        pin("d5", &log, false),
        pin("d6", &log, false),
        pin("d7", &log, false),
    );
    assert_eq!(lines.write_u8(0x01), Err(DisplayError::BusWriteError));
    assert_eq!(log.borrow().len(), 10);
    assert_eq!(log.borrow().last(), Some(&("wr", true)));
    assert_eq!(lines.write_slice(&[1, 2]), Err(DisplayError::BusWriteError));
    assert_eq!(log.borrow().len(), 20);
}

#[test]
fn queue_takes_the_low_byte_of_a_word() {
    let bytes = Rc::new(RefCell::new(Vec::new()));
    let blocks = Rc::new(RefCell::new(0));
    let mut tx = TxQueue::new(Queue { bytes: bytes.clone(), blocks: blocks.clone() });
    tx.push(0x1234_56AB);
    tx.push_all(&[1, 2]);
    tx.drain();
    assert_eq!(*bytes.borrow(), vec![0xAB, 1, 2]);
    assert_eq!(*blocks.borrow(), 1);
}

#[test]
fn write_inner_leaves_the_strobe_alone() {
    let log = Rc::new(RefCell::new(Vec::new()));
    let mut lines = logged_lines(&log, "d3");
    assert_eq!(lines.write_u8_inner(0x0F), Err(DisplayError::BusWriteError));
    assert_eq!(*log.borrow(), vec![("d0", true), ("d1", true), ("d2", true), ("d3", true)]);
    log.borrow_mut().clear();
    let mut good = logged_lines(&log, "");
    assert_eq!(good.write_u8_inner(0xA5), Ok(()));
    assert_eq!(
        *log.borrow(),
        vec![
            ("d0", true),
            ("d1", false),
            ("d2", true),
            ("d3", false),
            ("d4", false),
            ("d5", true),
            ("d6", false),
            ("d7", true),
        ]
    );
}
