//! The byte transport to the display controller: an 8-bit parallel bus with a
//! write strobe, and the chip-select and data/command lines around it.
//!
//! Nothing on this bus is ever read back, so a transfer can only fail where a
//! line refuses a level.
//!
//! Each line keeps the record of what it was told and of how often it
//! refused, and a transmit queue the record of what it took. What a bus
//! function did is stated over those records: which levels and bytes it
//! handed over, and that it fails exactly when a line refused.

use vstd::prelude::*;
use crate::display::{frames_view, Frame};
use crate::pixel::{split_color, stored_byte, ByteOrder};

verus! {

/// Why a transfer to the display failed.
#[derive(Clone, Copy, Debug, PartialEq, Eq, Structural)]
pub enum DisplayError {
    /// A data line or the write strobe refused a level.
    BusWriteError,
    /// The chip-select line refused a level.
    CSError,
    /// The data/command line refused a level.
    DCError,
}

/// A line refused the level it was asked to take.
#[derive(Clone, Copy, Debug, PartialEq, Eq, Structural)]
pub struct PinError;

/// One digital output line, with the record of what it was told and of how
/// often it refused. Whether a level is accepted is the line's own affair:
/// callers are written for either answer.
pub trait OutputPin {
    /// The levels that the line was told to take, oldest first, whether or
    /// not it took them: `true` for high.
    spec fn told(&self) -> Seq<bool>;

    /// How many of the levels told the line refused.
    spec fn refusals(&self) -> nat;

    /// Whether the line is known never to refuse a level.
    spec fn steady(&self) -> bool;

    /// Drives the line low. The answer is an error exactly when the line
    /// refused.
    fn set_low(&mut self) -> (r: Result<(), PinError>)
        ensures
            final(self).told() == old(self).told().push(false),
            r.is_ok() ==> final(self).refusals() == old(self).refusals(),
            r.is_err() ==> final(self).refusals() == old(self).refusals() + 1,
            old(self).steady() ==> r.is_ok() && final(self).steady(),
    ;

    /// Drives the line high. The answer is an error exactly when the line
    /// refused.
    fn set_high(&mut self) -> (r: Result<(), PinError>)
        ensures
            final(self).told() == old(self).told().push(true),
            r.is_ok() ==> final(self).refusals() == old(self).refusals(),
            r.is_err() ==> final(self).refusals() == old(self).refusals() + 1,
            old(self).steady() ==> r.is_ok() && final(self).steady(),
    ;

    /// Drives the line high when `high` holds, low otherwise. The answer is
    /// an error exactly when the line refused.
    fn set_state(&mut self, high: bool) -> (r: Result<(), PinError>)
        ensures
            final(self).told() == old(self).told().push(high),
            r.is_ok() ==> final(self).refusals() == old(self).refusals(),
            r.is_err() ==> final(self).refusals() == old(self).refusals() + 1,
            old(self).steady() ==> r.is_ok() && final(self).steady(),
    {
        if high {
            self.set_high()
        } else {
            self.set_low()
        }
    }
}

/// What drives a line in hardware. It says whether the line took the level,
/// and nothing else is known of it.
pub trait PinDriver {
    /// Whether the driver is known never to refuse a level. Nothing is
    /// known of a driver that does not say so itself.
    open spec fn never_refuses(&self) -> bool {
        false
    }

    /// Drives the line low.
    fn set_low(&mut self) -> (r: Result<(), PinError>)
        ensures
            old(self).never_refuses() ==> r.is_ok() && final(self).never_refuses(),
    ;

    /// Drives the line high.
    fn set_high(&mut self) -> (r: Result<(), PinError>)
        ensures
            old(self).never_refuses() ==> r.is_ok() && final(self).never_refuses(),
    ;
}

/// A line of the bus: a driver, the record of the levels handed to it, and
/// the count of the answers that were refusals.
pub struct BusPin<P> {
    driver: P,
    told: Ghost<Seq<bool>>,
    refusals: Ghost<nat>,
}

impl<P: PinDriver> BusPin<P> {
    /// A line over `driver` that was told nothing yet.
    pub fn new(driver: P) -> (pin: Self)
        ensures
            pin.told() == Seq::<bool>::empty(),
            pin.refusals() == 0,
            pin.steady() == driver.never_refuses(),
    {
        BusPin { driver, told: Ghost(Seq::empty()), refusals: Ghost(0) }
    }
}

impl<P: PinDriver> OutputPin for BusPin<P> {
    closed spec fn told(&self) -> Seq<bool> {
        self.told@
    }

    closed spec fn refusals(&self) -> nat {
        self.refusals@
    }

    closed spec fn steady(&self) -> bool {
        self.driver.never_refuses()
    }

    fn set_low(&mut self) -> (r: Result<(), PinError>) {
        let r = self.driver.set_low();
        self.told = Ghost(self.told@.push(false));
        if r.is_err() {
            self.refusals = Ghost(self.refusals@ + 1);
        }
        r
    }

    fn set_high(&mut self) -> (r: Result<(), PinError>) {
        let r = self.driver.set_high();
        self.told = Ghost(self.told@.push(true));
        if r.is_err() {
            self.refusals = Ghost(self.refusals@ + 1);
        }
        r
    }
}

/// A line that is not connected: it accepts every level and drives nothing.
#[derive(Clone, Copy, Debug, PartialEq, Eq, Structural)]
pub struct DummyPin;

impl PinDriver for DummyPin {
    open spec fn never_refuses(&self) -> bool {
        true
    }

    fn set_low(&mut self) -> (r: Result<(), PinError>)
        ensures
            r.is_ok(),
    {
        Ok(())
    }

    fn set_high(&mut self) -> (r: Result<(), PinError>)
        ensures
            r.is_ok(),
    {
        Ok(())
    }
}

/// A block of bytes or 16-bit words to put on the bus.
pub enum DataFormat<'a> {
    /// Bytes, sent as they are.
    U8(&'a [u8]),
    /// Words in the byte order of the processor, which keeps the least
    /// significant byte first.
    U16(&'a [u16]),
    /// Words sent most significant byte first.
    U16BE(&'a [u16]),
    /// Words sent least significant byte first.
    U16LE(&'a [u16]),
}

/// The bytes of `words`, each word in the given order.
pub open spec fn word_bytes(words: Seq<u16>, order: ByteOrder) -> Seq<u8> {
    Seq::new(2 * words.len(), |i: int| stored_byte(order, words[i / 2], i % 2))
}

impl<'a> DataFormat<'a> {
    /// The bytes that this block puts on the bus, in order.
    pub open spec fn wire_bytes(self) -> Seq<u8> {
        match self {
            DataFormat::U8(bytes) => bytes@,
            DataFormat::U16(words) => word_bytes(words@, ByteOrder::LittleEndian),
            DataFormat::U16BE(words) => word_bytes(words@, ByteOrder::BigEndian),
            DataFormat::U16LE(words) => word_bytes(words@, ByteOrder::LittleEndian),
        }
    }
}

/// A line of the bus.
#[derive(Clone, Copy, Debug, PartialEq, Eq, Structural)]
pub enum Line {
    /// Chip select: low while a transfer is in progress.
    ChipSelect,
    /// Data/command select: low for a command byte, high for data bytes.
    DataCommand,
    /// The write strobe of the data lines.
    Strobe,
    /// Data line `0` to `7`; line `0` carries the least significant bit.
    Data(u8),
}

/// One thing put on the bus: a level handed to a line, whether or not the
/// line took it, or a byte that the data lines took.
#[derive(Clone, Copy, Debug, PartialEq, Eq, Structural)]
pub enum BusEvent {
    /// A line was told to go high (`true`) or low (`false`).
    Level(Line, bool),
    /// The data lines took a byte.
    Byte(u8),
}

/// The events of the data lines taking `bytes` one after the other.
pub open spec fn byte_events(bytes: Seq<u8>) -> Seq<BusEvent> {
    Seq::new(bytes.len(), |i: int| BusEvent::Byte(bytes[i]))
}

/// Whether `after` is `before` followed by a proper prefix of `data`: a
/// transfer of `data` that ended early.
pub open spec fn partly_sent(before: Seq<u8>, after: Seq<u8>, data: Seq<u8>) -> bool {
    exists|n: int| 0 <= n < data.len() && after == before + #[trigger] data.take(n)
}

/// What a block write does to the record of the data lines. A success means
/// that all of `data` was taken and no byte write failed. An error is the
/// error of the one byte write that failed, after a proper prefix of `data`
/// was taken.
pub open spec fn block_outcome(
    sent_before: Seq<u8>,
    failures_before: Seq<DisplayError>,
    sent_after: Seq<u8>,
    failures_after: Seq<DisplayError>,
    data: Seq<u8>,
    r: Result<(), DisplayError>,
) -> bool {
    match r {
        Ok(_) => sent_after == sent_before + data && failures_after == failures_before,
        Err(e) => partly_sent(sent_before, sent_after, data) && failures_after
            == failures_before.push(e),
    }
}

/// The eight data lines and the write strobe, seen as a sink of bytes.
pub trait DisplayDataLines {
    /// The bytes that the lines have taken so far, oldest first.
    spec fn sent(&self) -> Seq<u8>;

    /// The errors of the byte writes that failed so far, oldest first.
    spec fn failures(&self) -> Seq<DisplayError>;

    /// Whether the lines are known never to fail a byte write.
    spec fn steady(&self) -> bool;

    /// Waits until everything handed over has left the hardware.
    fn flush(&mut self)
        ensures
            final(self).sent() == old(self).sent(),
            final(self).failures() == old(self).failures(),
            final(self).steady() == old(self).steady(),
    {
    }

    /// Puts one byte on the bus. A byte that fails does not count as sent,
    /// and its error is noted.
    fn write_u8(&mut self, value: u8) -> (r: Result<(), DisplayError>)
        ensures
            r.is_ok() ==> final(self).sent() == old(self).sent().push(value)
                && final(self).failures() == old(self).failures(),
            r matches Err(e) ==> final(self).sent() == old(self).sent() && final(self).failures()
                == old(self).failures().push(e),
            old(self).steady() ==> r.is_ok() && final(self).steady(),
    ;

    /// Puts the bytes of `data` on the bus, first to last, and stops at the
    /// first byte that fails, with its error.
    fn write_slice(&mut self, data: &[u8]) -> (r: Result<(), DisplayError>)
        ensures
            block_outcome(
                old(self).sent(),
                old(self).failures(),
                final(self).sent(),
                final(self).failures(),
                data@,
                r,
            ),
            old(self).steady() ==> r.is_ok() && final(self).steady(),
    {
        let mut i: usize = 0;
        proof {
            assert(old(self).sent() + data@.take(0) =~= old(self).sent());
        }
        while i < data.len()
            invariant
                i <= data.len(),
                self.sent() == old(self).sent() + data@.take(i as int),
                self.failures() == old(self).failures(),
                old(self).steady() ==> self.steady(),
            decreases data.len() - i,
        {
            match self.write_u8(data[i]) {
                Ok(()) => {},
                Err(e) => {
                    return Err(e);
                },
            }
            proof {
                assert(data@.take(i + 1) == data@.take(i as int).push(data@[i as int]));
                assert(self.sent() == old(self).sent() + data@.take(i + 1));
            }
            i += 1;
        }
        proof {
            assert(data@.take(i as int) == data@);
        }
        Ok(())
    }

    /// Puts the 16-bit words of `words` on the bus, each as two bytes in the
    /// given order, and stops at the first byte that fails, with its error.
    fn write_words(&mut self, words: &[u16], order: ByteOrder) -> (r: Result<(), DisplayError>)
        ensures
            block_outcome(
                old(self).sent(),
                old(self).failures(),
                final(self).sent(),
                final(self).failures(),
                word_bytes(words@, order),
                r,
            ),
            old(self).steady() ==> r.is_ok() && final(self).steady(),
    {
        let ghost all = word_bytes(words@, order);
        let mut i: usize = 0;
        proof {
            assert(old(self).sent() + all.take(0) =~= old(self).sent());
        }
        while i < words.len()
            invariant
                i <= words.len(),
                all == word_bytes(words@, order),
                self.sent() == old(self).sent() + all.take(2 * i),
                self.failures() == old(self).failures(),
                old(self).steady() ==> self.steady(),
            decreases words.len() - i,
        {
            let (high, low) = split_color(words[i]);
            let (first, second) = match order {
                ByteOrder::BigEndian => (high, low),
                ByteOrder::LittleEndian => (low, high),
            };
            proof {
                assert(all[2 * i] == first);
                assert(all[2 * i + 1] == second);
            }
            match self.write_u8(first) {
                Ok(()) => {},
                Err(e) => {
                    return Err(e);
                },
            }
            proof {
                assert(all.take(2 * i + 1) == all.take(2 * i).push(first));
                assert(self.sent() == old(self).sent() + all.take(2 * i + 1));
            }
            match self.write_u8(second) {
                Ok(()) => {},
                Err(e) => {
                    return Err(e);
                },
            }
            proof {
                assert(all.take(2 * i + 2) == all.take(2 * i + 1).push(second));
                assert(self.sent() == old(self).sent() + all.take(2 * i + 2));
            }
            i += 1;
        }
        proof {
            assert(all.take(2 * i) == all);
        }
        Ok(())
    }

    /// Puts a block on the bus in the byte order that its format names.
    fn write_format(&mut self, data: DataFormat<'_>) -> (r: Result<(), DisplayError>)
        ensures
            block_outcome(
                old(self).sent(),
                old(self).failures(),
                final(self).sent(),
                final(self).failures(),
                data.wire_bytes(),
                r,
            ),
            old(self).steady() ==> r.is_ok() && final(self).steady(),
    {
        match data {
            DataFormat::U8(bytes) => self.write_slice(bytes),
            DataFormat::U16(words) => self.write_words(words, ByteOrder::LittleEndian),
            DataFormat::U16BE(words) => self.write_words(words, ByteOrder::BigEndian),
            DataFormat::U16LE(words) => self.write_words(words, ByteOrder::LittleEndian),
        }
    }
}

/// Whether `value` has a bit in common with `mask`.
pub fn bit_is_set(value: u8, mask: u8) -> (set: bool)
    ensures
        set == (value & mask != 0),
{
    (value & mask) != 0
}

/// Whether bit `line` of `value` is set: the level of data line `line` while
/// `value` is on the bus.
pub open spec fn line_level(value: u8, line: u8) -> bool {
    (value >> line) & 1 == 1
}

/// Testing a byte against the mask `1 << line` reads bit `line` of it.
pub proof fn lemma_mask_reads_line(value: u8, line: u8)
    requires
        line < 8,
    ensures
        (value & (1u8 << line) != 0) == line_level(value, line),
{
    assert((value & (1u8 << line) != 0) == ((value >> line) & 1 == 1)) by (bit_vector)
        requires
            line < 8,
    ;
}

/// The weight that data line `line` adds to the byte on the bus while it is
/// at `level`.
pub open spec fn line_weight(level: bool, line: u8) -> int {
    if level {
        (1u8 << line) as int
    } else {
        0
    }
}

/// The eight data lines spell the byte: the weights of the lines that are
/// high add up to the value on the bus.
pub proof fn lemma_levels_spell_value(value: u8)
    ensures
        value == line_weight(line_level(value, 0), 0) + line_weight(line_level(value, 1), 1)
            + line_weight(line_level(value, 2), 2) + line_weight(line_level(value, 3), 3)
            + line_weight(line_level(value, 4), 4) + line_weight(line_level(value, 5), 5)
            + line_weight(line_level(value, 6), 6) + line_weight(line_level(value, 7), 7),
{
    assert(value == (if (value >> 0u8) & 1 == 1 {
        1u8 << 0u8
    } else {
        0u8
    }) + (if (value >> 1u8) & 1 == 1 {
        1u8 << 1u8
    } else {
        0u8
    }) + (if (value >> 2u8) & 1 == 1 {
        1u8 << 2u8
    } else {
        0u8
    }) + (if (value >> 3u8) & 1 == 1 {
        1u8 << 3u8
    } else {
        0u8
    }) + (if (value >> 4u8) & 1 == 1 {
        1u8 << 4u8
    } else {
        0u8
    }) + (if (value >> 5u8) & 1 == 1 {
        1u8 << 5u8
    } else {
        0u8
    }) + (if (value >> 6u8) & 1 == 1 {
        1u8 << 6u8
    } else {
        0u8
    }) + (if (value >> 7u8) & 1 == 1 {
        1u8 << 7u8
    } else {
        0u8
    })) by (bit_vector);
}

/// Tells `pin` to go high when `bit` and `value` have a bit in common, low
/// otherwise. The result is the bus write error exactly when the line
/// refused.
pub fn set_pin_bit<P: OutputPin>(pin: &mut P, bit: u8, value: u8) -> (r: Result<
    (),
    DisplayError,
>)
    ensures
        final(pin).told() == old(pin).told().push(bit & value != 0),
        r.is_ok() ==> final(pin).refusals() == old(pin).refusals(),
        r.is_err() ==> r == Err::<(), DisplayError>(DisplayError::BusWriteError),
        r.is_err() ==> final(pin).refusals() == old(pin).refusals() + 1,
        old(pin).steady() ==> r.is_ok() && final(pin).steady(),
{
    match pin.set_state(bit_is_set(bit, value)) {
        Ok(()) => Ok(()),
        Err(_) => Err(DisplayError::BusWriteError),
    }
}

/// The levels handed to data lines `0` to `n - 1` while `value` goes on the
/// bus, line `0` first.
pub open spec fn data_levels(value: u8, n: int) -> Seq<BusEvent> {
    Seq::new(n as nat, |i: int| BusEvent::Level(Line::Data(i as u8), line_level(value, i as u8)))
}

/// The levels that `events` hand to `line`, oldest first.
pub open spec fn levels_of(events: Seq<BusEvent>, line: Line) -> Seq<bool>
    decreases events.len(),
{
    if events.len() == 0 {
        Seq::empty()
    } else {
        let rest = levels_of(events.drop_last(), line);
        match events.last() {
            BusEvent::Level(l, high) => if l == line {
                rest.push(high)
            } else {
                rest
            },
            BusEvent::Byte(_) => rest,
        }
    }
}

/// The bytes that the data lines take in `events`, oldest first.
pub open spec fn bytes_of(events: Seq<BusEvent>) -> Seq<u8>
    decreases events.len(),
{
    if events.len() == 0 {
        Seq::empty()
    } else {
        let rest = bytes_of(events.drop_last());
        match events.last() {
            BusEvent::Level(_, _) => rest,
            BusEvent::Byte(b) => rest.push(b),
        }
    }
}

/// What a record gained over an earlier state of it is what was appended.
pub proof fn lemma_gained(before: Seq<BusEvent>, gained: Seq<BusEvent>)
    ensures
        before.is_prefix_of(before + gained),
        (before + gained).skip(before.len() as int) == gained,
{
    assert(before =~= (before + gained).subrange(0, before.len() as int));
    assert((before + gained).skip(before.len() as int) =~= gained);
}

/// What one more event hands to a line and to the data lines.
pub proof fn lemma_project_push(events: Seq<BusEvent>, e: BusEvent, line: Line)
    ensures
        levels_of(events.push(e), line) == match e {
            BusEvent::Level(l, high) => if l == line {
                levels_of(events, line).push(high)
            } else {
                levels_of(events, line)
            },
            BusEvent::Byte(_) => levels_of(events, line),
        },
        bytes_of(events.push(e)) == match e {
            BusEvent::Level(_, _) => bytes_of(events),
            BusEvent::Byte(b) => bytes_of(events).push(b),
        },
{
    assert(events.push(e).drop_last() =~= events);
}

/// Events that follow one another hand each line first what the earlier
/// ones hand it, then what the later ones do.
pub proof fn lemma_project_concat(a: Seq<BusEvent>, b: Seq<BusEvent>, line: Line)
    ensures
        levels_of(a + b, line) == levels_of(a, line) + levels_of(b, line),
        bytes_of(a + b) == bytes_of(a) + bytes_of(b),
    decreases b.len(),
{
    if b.len() == 0 {
        assert(a + b =~= a);
        assert(levels_of(a, line) + levels_of(b, line) =~= levels_of(a, line));
        assert(bytes_of(a) + bytes_of(b) =~= bytes_of(a));
    } else {
        lemma_project_concat(a, b.drop_last(), line);
        assert((a + b).drop_last() =~= a + b.drop_last());
        assert((a + b).last() == b.last());
        assert(levels_of(a + b, line) =~= levels_of(a, line) + levels_of(b, line));
        assert(bytes_of(a + b) =~= bytes_of(a) + bytes_of(b));
    }
}

/// Bytes taken by the data lines hand no level to any line.
pub proof fn lemma_project_bytes(bytes: Seq<u8>, line: Line)
    ensures
        levels_of(byte_events(bytes), line) == Seq::<bool>::empty(),
        bytes_of(byte_events(bytes)) == bytes,
    decreases bytes.len(),
{
    if bytes.len() > 0 {
        lemma_project_bytes(bytes.drop_last(), line);
        assert(byte_events(bytes).drop_last() =~= byte_events(bytes.drop_last()));
        assert(bytes_of(byte_events(bytes)) =~= bytes);
    } else {
        assert(bytes_of(byte_events(bytes)) =~= bytes);
    }
}

/// The levels of a byte on the first `n` data lines hand line `i` the bit
/// `i` of the byte, once, and nothing to any other line.
pub proof fn lemma_data_levels_project(value: u8, n: int, line: Line)
    requires
        0 <= n <= 8,
    ensures
        levels_of(data_levels(value, n), line) == match line {
            Line::Data(i) => if i < n {
                seq![line_level(value, i)]
            } else {
                Seq::<bool>::empty()
            },
            _ => Seq::<bool>::empty(),
        },
        bytes_of(data_levels(value, n)) == Seq::<u8>::empty(),
    decreases n,
{
    if n > 0 {
        lemma_data_levels_project(value, n - 1, line);
        assert(data_levels(value, n).drop_last() =~= data_levels(value, n - 1));
        match line {
            Line::Data(i) => {
                if i == n - 1 {
                    assert(levels_of(data_levels(value, n), line) =~= seq![line_level(value, i)]);
                }
            },
            _ => {},
        }
    }
}

/// The parallel bus driven line by line: a write strobe and eight data lines,
/// `d0` carrying the least significant bit.
pub struct GpioDataLines<WR, D0, D1, D2, D3, D4, D5, D6, D7> {
    pub wr: WR,
    pub d0: D0,
    pub d1: D1,
    pub d2: D2,
    pub d3: D3,
    pub d4: D4,
    pub d5: D5,
    pub d6: D6,
    pub d7: D7,
    sent: Ghost<Seq<u8>>,
    failed: Ghost<Seq<DisplayError>>,
    levels: Ghost<Seq<BusEvent>>,
}

/// Hands data line `line` its level for `value` and notes it in `levels`.
fn drive_data_line<P: OutputPin>(
    pin: &mut P,
    value: u8,
    line: u8,
    levels: &mut Ghost<Seq<BusEvent>>,
) -> (r: Result<(), DisplayError>)
    requires
        line < 8,
    ensures
        final(pin).told() == old(pin).told().push(line_level(value, line)),
        r.is_ok() ==> final(pin).refusals() == old(pin).refusals(),
        r.is_err() ==> r == Err::<(), DisplayError>(DisplayError::BusWriteError),
        r.is_err() ==> final(pin).refusals() == old(pin).refusals() + 1,
        old(pin).steady() ==> r.is_ok() && final(pin).steady(),
        final(levels)@ == old(levels)@.push(
            BusEvent::Level(Line::Data(line), line_level(value, line)),
        ),
{
    proof {
        lemma_mask_reads_line(value, line);
    }
    let r = set_pin_bit(pin, value, 1u8 << line);
    *levels = Ghost(levels@.push(BusEvent::Level(Line::Data(line), line_level(value, line))));
    r
}

impl<
    WR: OutputPin,
    D0: OutputPin,
    D1: OutputPin,
    D2: OutputPin,
    D3: OutputPin,
    D4: OutputPin,
    D5: OutputPin,
    D6: OutputPin,
    D7: OutputPin,
> GpioDataLines<WR, D0, D1, D2, D3, D4, D5, D6, D7> {
    /// The levels handed to the strobe and the data lines so far, in the
    /// order in which they were handed.
    pub closed spec fn levels(&self) -> Seq<BusEvent> {
        self.levels@
    }

    /// The levels that `line` was told to take, by its own record; nothing
    /// for a line that this bus does not have.
    pub closed spec fn told_by(&self, line: Line) -> Seq<bool> {
        match line {
            Line::Strobe => self.wr.told(),
            Line::Data(i) if i == 0 => self.d0.told(),
            Line::Data(i) if i == 1 => self.d1.told(),
            Line::Data(i) if i == 2 => self.d2.told(),
            Line::Data(i) if i == 3 => self.d3.told(),
            Line::Data(i) if i == 4 => self.d4.told(),
            Line::Data(i) if i == 5 => self.d5.told(),
            Line::Data(i) if i == 6 => self.d6.told(),
            Line::Data(i) if i == 7 => self.d7.told(),
            _ => Seq::empty(),
        }
    }

    /// How often `line` refused, by its own record; never for a line that
    /// this bus does not have.
    pub closed spec fn refusals_by(&self, line: Line) -> nat {
        match line {
            Line::Strobe => self.wr.refusals(),
            Line::Data(i) if i == 0 => self.d0.refusals(),
            Line::Data(i) if i == 1 => self.d1.refusals(),
            Line::Data(i) if i == 2 => self.d2.refusals(),
            Line::Data(i) if i == 3 => self.d3.refusals(),
            Line::Data(i) if i == 4 => self.d4.refusals(),
            Line::Data(i) if i == 5 => self.d5.refusals(),
            Line::Data(i) if i == 6 => self.d6.refusals(),
            Line::Data(i) if i == 7 => self.d7.refusals(),
            _ => 0,
        }
    }

    /// How often any of the nine lines refused.
    pub open spec fn faults(&self) -> nat {
        self.refusals_by(Line::Strobe) + self.refusals_by(Line::Data(0)) + self.refusals_by(Line::Data(1)) + self.refusals_by(Line::Data(2)) + self.refusals_by(Line::Data(3)) + self.refusals_by(Line::Data(4)) + self.refusals_by(Line::Data(5)) + self.refusals_by(Line::Data(6)) + self.refusals_by(Line::Data(7))
    }

    /// Whether each line was told, since `before`, exactly the levels that
    /// the bus noted for it since then, in that order.
    pub open spec fn follows(&self, before: &Self) -> bool {
        &&& before.levels().is_prefix_of(self.levels())
        &&& forall|line: Line| #[trigger]
            self.told_by(line) == before.told_by(line) + levels_of(
                self.levels().skip(before.levels().len() as int),
                line,
            )
    }

    /// One bus cycle for `value`, seen from the state `before` it. A strobe
    /// that refuses to go low ends the cycle at once. Otherwise the data
    /// lines follow, line `0` first, up to the first that refuses, and the
    /// strobe is raised again whether or not one did. The result is the bus
    /// write error exactly when a line refused.
    pub open spec fn cycle_from(&self, before: &Self, value: u8, r: Result<(), DisplayError>) -> bool {
        let low = seq![BusEvent::Level(Line::Strobe, false)];
        let high = seq![BusEvent::Level(Line::Strobe, true)];
        &&& self.follows(before)
        &&& r.is_ok() <==> self.faults() == before.faults()
        &&& r.is_err() ==> r == Err::<(), DisplayError>(DisplayError::BusWriteError)
        &&& {
            ||| r.is_ok() && self.levels() == before.levels() + low + data_levels(value, 8) + high
            ||| r.is_err() && self.levels() == before.levels() + low && self.refusals_by(
                Line::Strobe,
            ) == before.refusals_by(Line::Strobe) + 1
            ||| r.is_err() && exists|n: int|
                1 <= n <= 8 && self.levels() == before.levels() + low + #[trigger] data_levels(
                    value,
                    n,
                ) + high && (n < 8 ==> self.refusals_by(Line::Data((n - 1) as u8))
                    == before.refusals_by(Line::Data((n - 1) as u8)) + 1)
        }
    }

    /// A bus over the given lines, with nothing handed to them.
    pub fn new(wr: WR, d0: D0, d1: D1, d2: D2, d3: D3, d4: D4, d5: D5, d6: D6, d7: D7) -> (lines:
        Self)
        ensures
            lines.sent() == Seq::<u8>::empty(),
            lines.failures() == Seq::<DisplayError>::empty(),
            lines.levels() == Seq::<BusEvent>::empty(),
            lines.told_by(Line::Strobe) == wr.told(),
            lines.told_by(Line::Data(0)) == d0.told(),
            lines.told_by(Line::Data(1)) == d1.told(),
            lines.told_by(Line::Data(2)) == d2.told(),
            lines.told_by(Line::Data(3)) == d3.told(),
            lines.told_by(Line::Data(4)) == d4.told(),
            lines.told_by(Line::Data(5)) == d5.told(),
            lines.told_by(Line::Data(6)) == d6.told(),
            lines.told_by(Line::Data(7)) == d7.told(),
            lines.refusals_by(Line::Strobe) == wr.refusals(),
            lines.refusals_by(Line::Data(0)) == d0.refusals(),
            lines.refusals_by(Line::Data(1)) == d1.refusals(),
            lines.refusals_by(Line::Data(2)) == d2.refusals(),
            lines.refusals_by(Line::Data(3)) == d3.refusals(),
            lines.refusals_by(Line::Data(4)) == d4.refusals(),
            lines.refusals_by(Line::Data(5)) == d5.refusals(),
            lines.refusals_by(Line::Data(6)) == d6.refusals(),
            lines.refusals_by(Line::Data(7)) == d7.refusals(),
            lines.steady() == (wr.steady() && d0.steady() && d1.steady() && d2.steady()
                && d3.steady() && d4.steady() && d5.steady() && d6.steady() && d7.steady()),
    {
        GpioDataLines {
            wr,
            d0,
            d1,
            d2,
            d3,
            d4,
            d5,
            d6,
            d7,
            sent: Ghost(Seq::empty()),
            failed: Ghost(Seq::empty()),
            levels: Ghost(Seq::empty()),
        }
    }

    /// Sets the data lines to the bits of `value`, `d0` first, and stops at
    /// the first line that refuses. The strobe is left alone. The result is
    /// the bus write error exactly when a line refused.
    pub fn write_u8_inner(&mut self, value: u8) -> (r: Result<(), DisplayError>)
        ensures
            final(self).sent() == old(self).sent(),
            final(self).failures() == old(self).failures(),
            final(self).follows(old(self)),
            final(self).refusals_by(Line::Strobe) == old(self).refusals_by(Line::Strobe),
            old(self).steady() ==> r.is_ok() && final(self).steady(),
            r.is_ok() ==> final(self).levels() == old(self).levels() + data_levels(value, 8),
            r.is_ok() ==> final(self).faults() == old(self).faults(),
            r.is_err() ==> r == Err::<(), DisplayError>(DisplayError::BusWriteError),
            r.is_err() ==> final(self).faults() == old(self).faults() + 1,
            r.is_err() ==> exists|n: int|
                1 <= n <= 8 && final(self).levels() == old(self).levels() + #[trigger] data_levels(
                    value,
                    n,
                ) && final(self).refusals_by(Line::Data((n - 1) as u8)) == old(self).refusals_by(
                    Line::Data((n - 1) as u8),
                ) + 1,
    {
        let ghost start = *self;
        let r = drive_data_line(&mut self.d0, value, 0, &mut self.levels);
        proof {
            assert(self.levels@ =~= start.levels() + data_levels(value, 1));
            lemma_gained(start.levels(), data_levels(value, 1));
            assert forall|line: Line| #[trigger]
                self.told_by(line) == start.told_by(line) + levels_of(
                    data_levels(value, 1),
                    line,
                ) by {
                lemma_data_levels_project(value, 1, line);
            }
        }
        if r.is_err() {
            return r;
        }
        let r = drive_data_line(&mut self.d1, value, 1, &mut self.levels);
        proof {
            assert(self.levels@ =~= start.levels() + data_levels(value, 2));
            lemma_gained(start.levels(), data_levels(value, 2));
            assert forall|line: Line| #[trigger]
                self.told_by(line) == start.told_by(line) + levels_of(
                    data_levels(value, 2),
                    line,
                ) by {
                lemma_data_levels_project(value, 2, line);
            }
        }
        if r.is_err() {
            return r;
        }
        let r = drive_data_line(&mut self.d2, value, 2, &mut self.levels);
        proof {
            assert(self.levels@ =~= start.levels() + data_levels(value, 3));
            lemma_gained(start.levels(), data_levels(value, 3));
            assert forall|line: Line| #[trigger]
                self.told_by(line) == start.told_by(line) + levels_of(
                    data_levels(value, 3),
                    line,
                ) by {
                lemma_data_levels_project(value, 3, line);
            }
        }
        if r.is_err() {
            return r;
        }
        let r = drive_data_line(&mut self.d3, value, 3, &mut self.levels);
        proof {
            assert(self.levels@ =~= start.levels() + data_levels(value, 4));
            lemma_gained(start.levels(), data_levels(value, 4));
            assert forall|line: Line| #[trigger]
                self.told_by(line) == start.told_by(line) + levels_of(
                    data_levels(value, 4),
                    line,
                ) by {
                lemma_data_levels_project(value, 4, line);
            }
        }
        if r.is_err() {
            return r;
        }
        let r = drive_data_line(&mut self.d4, value, 4, &mut self.levels);
        proof {
            assert(self.levels@ =~= start.levels() + data_levels(value, 5));
            lemma_gained(start.levels(), data_levels(value, 5));
            assert forall|line: Line| #[trigger]
                self.told_by(line) == start.told_by(line) + levels_of(
                    data_levels(value, 5),
                    line,
                ) by {
                lemma_data_levels_project(value, 5, line);
            }
        }
        if r.is_err() {
            return r;
        }
        let r = drive_data_line(&mut self.d5, value, 5, &mut self.levels);
        proof {
            assert(self.levels@ =~= start.levels() + data_levels(value, 6));
            lemma_gained(start.levels(), data_levels(value, 6));
            assert forall|line: Line| #[trigger]
                self.told_by(line) == start.told_by(line) + levels_of(
                    data_levels(value, 6),
                    line,
                ) by {
                lemma_data_levels_project(value, 6, line);
            }
        }
        if r.is_err() {
            return r;
        }
        let r = drive_data_line(&mut self.d6, value, 6, &mut self.levels);
        proof {
            assert(self.levels@ =~= start.levels() + data_levels(value, 7));
            lemma_gained(start.levels(), data_levels(value, 7));
            assert forall|line: Line| #[trigger]
                self.told_by(line) == start.told_by(line) + levels_of(
                    data_levels(value, 7),
                    line,
                ) by {
                lemma_data_levels_project(value, 7, line);
            }
        }
        if r.is_err() {
            return r;
        }
        let r = drive_data_line(&mut self.d7, value, 7, &mut self.levels);
        proof {
            assert(self.levels@ =~= start.levels() + data_levels(value, 8));
            lemma_gained(start.levels(), data_levels(value, 8));
            assert forall|line: Line| #[trigger]
                self.told_by(line) == start.told_by(line) + levels_of(
                    data_levels(value, 8),
                    line,
                ) by {
                lemma_data_levels_project(value, 8, line);
            }
        }
        r
    }
}

impl<
    WR: OutputPin,
    D0: OutputPin,
    D1: OutputPin,
    D2: OutputPin,
    D3: OutputPin,
    D4: OutputPin,
    D5: OutputPin,
    D6: OutputPin,
    D7: OutputPin,
> DisplayDataLines for GpioDataLines<WR, D0, D1, D2, D3, D4, D5, D6, D7> {
    /// The bytes whose bus cycle every line accepted, oldest first.
    closed spec fn sent(&self) -> Seq<u8> {
        self.sent@
    }

    /// One bus write error for each cycle in which a line refused.
    closed spec fn failures(&self) -> Seq<DisplayError> {
        self.failed@
    }

    /// All nine lines are known never to refuse.
    closed spec fn steady(&self) -> bool {
        self.wr.steady() && self.d0.steady() && self.d1.steady() && self.d2.steady()
            && self.d3.steady() && self.d4.steady() && self.d5.steady() && self.d6.steady()
            && self.d7.steady()
    }

    /// One bus cycle: strobe low, the eight data lines, strobe high. The
    /// cycle fails with the bus write error when any line refuses.
    fn write_u8(&mut self, value: u8) -> (r: Result<(), DisplayError>)
        ensures
            final(self).cycle_from(old(self), value, r),
    {
        let ghost start = *self;
        let ghost low = seq![BusEvent::Level(Line::Strobe, false)];
        let ghost high = seq![BusEvent::Level(Line::Strobe, true)];
        let lowered = self.wr.set_low();
        self.levels = Ghost(self.levels@.push(BusEvent::Level(Line::Strobe, false)));
        let ghost s1 = *self;
        proof {
            assert(Seq::<BusEvent>::empty().push(BusEvent::Level(Line::Strobe, false)) =~= low);
            assert(Seq::<BusEvent>::empty().push(BusEvent::Level(Line::Strobe, true)) =~= high);
            assert(s1.levels() =~= start.levels() + low);
            lemma_gained(start.levels(), low);
            assert forall|line: Line| #[trigger]
                s1.told_by(line) == start.told_by(line) + levels_of(low, line) by {
                lemma_project_push(Seq::empty(), BusEvent::Level(Line::Strobe, false), line);
                assert(start.told_by(line) + Seq::<bool>::empty() =~= start.told_by(line));
                assert(start.told_by(Line::Strobe).push(false) =~= start.told_by(Line::Strobe)
                    + Seq::<bool>::empty().push(false));
            }
        }
        if lowered.is_err() {
            self.failed = Ghost(self.failed@.push(DisplayError::BusWriteError));
            proof {
                assert forall|line: Line| #[trigger]
                    self.told_by(line) == start.told_by(line) + levels_of(low, line) by {
                    assert(self.told_by(line) == s1.told_by(line));
                }
            }
            return Err(DisplayError::BusWriteError);
        }
        let outcome = self.write_u8_inner(value);
        let ghost s2 = *self;
        let ghost n = if outcome.is_ok() {
            8int
        } else {
            choose|n: int|
                1 <= n <= 8 && s2.levels() == s1.levels() + #[trigger] data_levels(value, n)
                    && s2.refusals_by(Line::Data((n - 1) as u8)) == s1.refusals_by(
                    Line::Data((n - 1) as u8),
                ) + 1
        };
        let raised = self.wr.set_high();
        self.levels = Ghost(self.levels@.push(BusEvent::Level(Line::Strobe, true)));
        let failed = outcome.is_err() || raised.is_err();
        if failed {
            self.failed = Ghost(self.failed@.push(DisplayError::BusWriteError));
        } else {
            self.sent = Ghost(self.sent@.push(value));
        }
        proof {
            let gained = low + data_levels(value, n) + high;
            assert(s2.levels() == s1.levels() + data_levels(value, n));
            lemma_gained(s1.levels(), data_levels(value, n));
            assert(self.levels() =~= start.levels() + gained);
            assert(start.levels() + gained =~= start.levels() + low + data_levels(value, n) + high);
            lemma_gained(start.levels(), gained);
            assert forall|line: Line| #[trigger]
                self.told_by(line) == start.told_by(line) + levels_of(gained, line) by {
                lemma_project_push(Seq::empty(), BusEvent::Level(Line::Strobe, true), line);
                lemma_project_concat(low, data_levels(value, n), line);
                lemma_project_concat(low + data_levels(value, n), high, line);
                assert(s1.told_by(line) == start.told_by(line) + levels_of(low, line));
                assert(s2.told_by(line) == s1.told_by(line) + levels_of(
                    data_levels(value, n),
                    line,
                ));
                assert(self.told_by(line) == s2.told_by(line) + levels_of(high, line)) by {
                    assert(s2.told_by(line) + Seq::<bool>::empty() =~= s2.told_by(line));
                    assert(s2.told_by(Line::Strobe).push(true) =~= s2.told_by(Line::Strobe)
                        + Seq::<bool>::empty().push(true));
                }
                assert(self.told_by(line) =~= start.told_by(line) + levels_of(gained, line));
            }
            assert(self.faults() >= start.faults());
            assert(failed <==> self.faults() != start.faults());
        }
        if failed {
            Err(DisplayError::BusWriteError)
        } else {
            Ok(())
        }
    }
}

/// The byte that a queued word puts on the bus: its low eight bits.
pub open spec fn bus_byte(word: u32) -> u8 {
    (word & 0xff) as u8
}

/// The transmit queue of a state machine that clocks bytes out on the bus and
/// pulses the write strobe by itself, with the record of what it took.
pub trait TxFifo {
    /// The bytes that the queue took so far, oldest first.
    spec fn taken(&self) -> Seq<u8>;

    /// The bytes taken since the queue was last waited on: those that may
    /// not have left the hardware yet.
    spec fn waiting(&self) -> Seq<u8>;

    /// Queues one word, waiting for room first; its low byte goes on the bus.
    fn push(&mut self, word: u32)
        ensures
            final(self).taken() == old(self).taken().push(bus_byte(word)),
            final(self).waiting() == old(self).waiting().push(bus_byte(word)),
    ;

    /// Hands `data` over as one bulk transfer and waits until it is complete.
    fn push_all(&mut self, data: &[u8])
        ensures
            final(self).taken() == old(self).taken() + data@,
            final(self).waiting() == old(self).waiting() + data@,
    ;

    /// Waits until the queue is empty.
    fn drain(&mut self)
        ensures
            final(self).taken() == old(self).taken(),
            final(self).waiting() == Seq::<u8>::empty(),
    ;
}

/// What feeds the queue in hardware. All three calls return only when the
/// hardware has done its part: there is no way to tell a wedged display.
pub trait QueueDriver {
    /// Queues one word, waiting for room first.
    fn push(&mut self, word: u32);

    /// Hands `data` over as one bulk transfer and waits until it is complete.
    fn push_all(&mut self, data: &[u8]);

    /// Waits until the queue is empty.
    fn drain(&mut self);
}

/// A transmit queue: a driver and the record of the bytes handed to it.
pub struct TxQueue<Q> {
    driver: Q,
    taken: Ghost<Seq<u8>>,
    waiting: Ghost<Seq<u8>>,
}

impl<Q: QueueDriver> TxQueue<Q> {
    /// A queue over a driver that is configured and running, with nothing
    /// handed over yet.
    pub fn new(driver: Q) -> (queue: Self)
        ensures
            queue.taken() == Seq::<u8>::empty(),
            queue.waiting() == Seq::<u8>::empty(),
    {
        TxQueue { driver, taken: Ghost(Seq::empty()), waiting: Ghost(Seq::empty()) }
    }
}

impl<Q: QueueDriver> TxFifo for TxQueue<Q> {
    closed spec fn taken(&self) -> Seq<u8> {
        self.taken@
    }

    closed spec fn waiting(&self) -> Seq<u8> {
        self.waiting@
    }

    fn push(&mut self, word: u32) {
        self.driver.push(word);
        self.taken = Ghost(self.taken@.push(bus_byte(word)));
        self.waiting = Ghost(self.waiting@.push(bus_byte(word)));
    }

    fn push_all(&mut self, data: &[u8]) {
        self.driver.push_all(data);
        self.taken = Ghost(self.taken@ + data@);
        self.waiting = Ghost(self.waiting@ + data@);
    }

    fn drain(&mut self) {
        self.driver.drain();
        self.waiting = Ghost(Seq::empty());
    }
}

/// The parallel bus driven by a state machine with a transmit queue: single
/// bytes are queued one by one, blocks go out as one bulk transfer.
pub struct PioDataLines<T> {
    tx: T,
}

impl<T: TxFifo> PioDataLines<T> {
    /// The bytes handed over since the queue was last waited on: those that
    /// may not have left the hardware yet, oldest first.
    pub closed spec fn queued(&self) -> Seq<u8> {
        self.tx.waiting()
    }

    /// A bus over a queue that is configured and running.
    pub fn new(tx: T) -> (lines: Self)
        ensures
            lines.sent() == tx.taken(),
            lines.queued() == tx.waiting(),
    {
        PioDataLines { tx }
    }
}

impl<T: TxFifo> DisplayDataLines for PioDataLines<T> {
    /// The bytes that the queue took, oldest first.
    closed spec fn sent(&self) -> Seq<u8> {
        self.tx.taken()
    }

    /// The queue never refuses a byte.
    open spec fn failures(&self) -> Seq<DisplayError> {
        Seq::empty()
    }

    /// The queue never refuses a byte.
    open spec fn steady(&self) -> bool {
        true
    }

    /// Waits until the queue is empty: afterwards nothing is outstanding.
    fn flush(&mut self)
        ensures
            final(self).queued() == Seq::<u8>::empty(),
    {
        self.tx.drain();
    }

    /// Queues one byte; the queue never refuses.
    fn write_u8(&mut self, value: u8) -> (r: Result<(), DisplayError>)
        ensures
            r.is_ok(),
            final(self).queued() == old(self).queued().push(value),
    {
        proof {
            assert(((value as u32) & 0xff) as u8 == value) by (bit_vector);
        }
        self.tx.push(value as u32);
        Ok(())
    }

    /// Hands the block over as one bulk transfer; the queue never refuses.
    fn write_slice(&mut self, data: &[u8]) -> (r: Result<(), DisplayError>)
        ensures
            r.is_ok(),
            final(self).queued() == old(self).queued() + data@,
    {
        self.tx.push_all(data);
        Ok(())
    }
}

/// The events of one frame: chip selected, command mode, the command byte,
/// and, where the frame has parameters, data mode and the parameter bytes.
pub open spec fn frame_events(frame: (u8, Seq<u8>)) -> Seq<BusEvent> {
    let command = seq![
        BusEvent::Level(Line::ChipSelect, false),
        BusEvent::Level(Line::DataCommand, false),
        BusEvent::Byte(frame.0),
    ];
    if frame.1.len() == 0 {
        command
    } else {
        command + seq![BusEvent::Level(Line::DataCommand, true)] + byte_events(frame.1)
    }
}

/// The events of a list of frames, one frame after the other.
pub open spec fn frames_events(frames: Seq<(u8, Seq<u8>)>) -> Seq<BusEvent>
    decreases frames.len(),
{
    if frames.len() == 0 {
        Seq::empty()
    } else {
        frames_events(frames.drop_last()) + frame_events(frames.last())
    }
}

/// The bytes of one frame: the command byte, then the parameter bytes.
pub open spec fn frame_bytes(frame: (u8, Seq<u8>)) -> Seq<u8> {
    seq![frame.0] + frame.1
}

/// The bytes of a list of frames, one frame after the other.
pub open spec fn frames_bytes(frames: Seq<(u8, Seq<u8>)>) -> Seq<u8>
    decreases frames.len(),
{
    if frames.len() == 0 {
        Seq::empty()
    } else {
        frames_bytes(frames.drop_last()) + frame_bytes(frames.last())
    }
}

/// The events of a frame hand the data lines the frame's bytes, and chip
/// select one low level.
pub proof fn lemma_frame_projects(frame: (u8, Seq<u8>))
    ensures
        bytes_of(frame_events(frame)) == frame_bytes(frame),
        levels_of(frame_events(frame), Line::ChipSelect) == seq![false],
{
    let a = BusEvent::Level(Line::ChipSelect, false);
    let b = BusEvent::Level(Line::DataCommand, false);
    let c = BusEvent::Byte(frame.0);
    let d = BusEvent::Level(Line::DataCommand, true);
    let none = Seq::<BusEvent>::empty();
    let command = none.push(a).push(b).push(c);
    assert(command =~= seq![a, b, c]);
    lemma_project_push(none, a, Line::ChipSelect);
    lemma_project_push(none.push(a), b, Line::ChipSelect);
    lemma_project_push(none.push(a).push(b), c, Line::ChipSelect);
    assert(bytes_of(command) =~= seq![frame.0]);
    assert(levels_of(command, Line::ChipSelect) =~= seq![false]);
    if frame.1.len() == 0 {
        assert(frame_events(frame) =~= command);
        assert(frame_bytes(frame) =~= seq![frame.0]);
    } else {
        let high = none.push(d);
        assert(high =~= seq![d]);
        lemma_project_push(none, d, Line::ChipSelect);
        lemma_project_bytes(frame.1, Line::ChipSelect);
        lemma_project_concat(command, high, Line::ChipSelect);
        lemma_project_concat(command + high, byte_events(frame.1), Line::ChipSelect);
        assert(frame_events(frame) =~= command + high + byte_events(frame.1));
        assert(bytes_of(frame_events(frame)) =~= frame_bytes(frame));
        assert(levels_of(frame_events(frame), Line::ChipSelect) =~= seq![false]);
    }
}

/// The events of a list of frames hand the data lines the frames' bytes.
pub proof fn lemma_frames_project(frames: Seq<(u8, Seq<u8>)>)
    ensures
        bytes_of(frames_events(frames)) == frames_bytes(frames),
    decreases frames.len(),
{
    if frames.len() > 0 {
        lemma_frames_project(frames.drop_last());
        lemma_frame_projects(frames.last());
        lemma_project_concat(
            frames_events(frames.drop_last()),
            frame_events(frames.last()),
            Line::ChipSelect,
        );
    }
}

/// What sending one frame does to the bus. The events of the frame go out
/// in order. A chip select that refuses ends the transfer after the first of
/// them, with its error; any other refusal ends it after two or more of
/// them, short of all.
pub open spec fn frame_outcome(
    before: Seq<BusEvent>,
    after: Seq<BusEvent>,
    frame: (u8, Seq<u8>),
    r: Result<(), DisplayError>,
) -> bool {
    ||| r.is_ok() && after == before + frame_events(frame)
    ||| r == Err::<(), DisplayError>(DisplayError::CSError) && after == before + frame_events(
        frame,
    ).take(1)
    ||| r.is_err() && exists|n: int|
        2 <= n < frame_events(frame).len() && after == before + #[trigger] frame_events(
            frame,
        ).take(n)
}

/// What sending a list of frames does to the bus. The frames go out in
/// order, and chip select is raised after the last; a chip select that
/// refuses to rise is its error. A frame that fails ends the transfer where
/// that frame ended, with chip select still low.
pub open spec fn frames_outcome(
    before: Seq<BusEvent>,
    after: Seq<BusEvent>,
    frames: Seq<(u8, Seq<u8>)>,
    r: Result<(), DisplayError>,
) -> bool {
    let release = seq![BusEvent::Level(Line::ChipSelect, true)];
    ||| r.is_ok() && after == before + frames_events(frames) + release
    ||| r == Err::<(), DisplayError>(DisplayError::CSError) && after == before + frames_events(
        frames,
    ) + release
    ||| r.is_err() && exists|i: int, n: int|
        0 <= i < frames.len() && 1 <= n < frame_events(frames[i]).len() && after == before
            + frames_events(frames.take(i)) + #[trigger] frame_events(frames[i]).take(n)
}

/// The display's bus interface: chip select, data/command select, and the
/// data lines behind them.
pub struct ParallelDisplayInterface<CS, DC, D> {
    cs: CS,
    dc: DC,
    data_lines: D,
    events: Ghost<Seq<BusEvent>>,
}

impl<CS: OutputPin, DC: OutputPin, D: DisplayDataLines> ParallelDisplayInterface<CS, DC, D> {
    /// What the interface has put on the bus so far, in the order in which
    /// it did.
    pub closed spec fn events(&self) -> Seq<BusEvent> {
        self.events@
    }

    /// The levels that chip select was told to take, by its own record.
    pub closed spec fn cs_told(&self) -> Seq<bool> {
        self.cs.told()
    }

    /// How often chip select refused, by its own record.
    pub closed spec fn cs_refusals(&self) -> nat {
        self.cs.refusals()
    }

    /// The levels that the data/command line was told to take, by its own
    /// record.
    pub closed spec fn dc_told(&self) -> Seq<bool> {
        self.dc.told()
    }

    /// How often the data/command line refused, by its own record.
    pub closed spec fn dc_refusals(&self) -> nat {
        self.dc.refusals()
    }

    /// The bytes that the data lines took, by their own record.
    pub closed spec fn data_sent(&self) -> Seq<u8> {
        self.data_lines.sent()
    }

    /// The errors of the byte writes that failed, by the data lines' own
    /// record.
    pub closed spec fn data_failures(&self) -> Seq<DisplayError> {
        self.data_lines.failures()
    }

    /// How often a line refused or a byte write failed.
    pub open spec fn faults(&self) -> nat {
        self.cs_refusals() + self.dc_refusals() + self.data_failures().len()
    }

    /// Whether both select lines and the data lines are known never to
    /// refuse.
    pub closed spec fn steady(&self) -> bool {
        self.cs.steady() && self.dc.steady() && self.data_lines.steady()
    }

    /// Whether the lines were handed, since `before`, exactly what the
    /// interface noted since then: each select line its levels, the data
    /// lines the bytes, in that order.
    pub open spec fn follows(&self, before: &Self) -> bool {
        let gained = self.events().skip(before.events().len() as int);
        &&& before.events().is_prefix_of(self.events())
        &&& self.cs_told() == before.cs_told() + levels_of(gained, Line::ChipSelect)
        &&& self.dc_told() == before.dc_told() + levels_of(gained, Line::DataCommand)
        &&& self.data_sent() == before.data_sent() + bytes_of(gained)
    }

    /// What sending `wire` as commands does, seen from the state `before`
    /// it. In order: chip select goes low, the data/command line goes low,
    /// the bytes follow. A select line that refuses ends the transfer with
    /// that line's error and nothing more is touched; a byte write that
    /// fails ends it with that write's error. The transfer succeeds exactly
    /// when neither happened.
    pub open spec fn commands_from(
        &self,
        before: &Self,
        wire: Seq<u8>,
        r: Result<(), DisplayError>,
    ) -> bool {
        let select = seq![BusEvent::Level(Line::ChipSelect, false)];
        let mode = seq![BusEvent::Level(Line::DataCommand, false)];
        &&& self.follows(before)
        &&& {
            ||| r.is_ok() && self.events() == before.events() + select + mode + byte_events(wire)
                && self.cs_refusals() == before.cs_refusals() && self.dc_refusals()
                == before.dc_refusals() && self.data_failures() == before.data_failures()
            ||| r == Err::<(), DisplayError>(DisplayError::CSError) && self.events()
                == before.events() + select && self.cs_refusals() == before.cs_refusals() + 1
                && self.dc_refusals() == before.dc_refusals() && self.data_failures()
                == before.data_failures()
            ||| r == Err::<(), DisplayError>(DisplayError::DCError) && self.events()
                == before.events() + select + mode && self.cs_refusals() == before.cs_refusals()
                && self.dc_refusals() == before.dc_refusals() + 1 && self.data_failures()
                == before.data_failures()
            ||| r matches Err(e) && self.cs_refusals() == before.cs_refusals()
                && self.dc_refusals() == before.dc_refusals() && self.data_failures()
                == before.data_failures().push(e) && exists|n: int|
                0 <= n < wire.len() && self.events() == before.events() + select + mode
                    + byte_events(#[trigger] wire.take(n))
        }
    }

    /// What sending `wire` as data does, seen from the state `before` it:
    /// the data/command line goes high, the bytes follow. A refusal of the
    /// line ends the transfer with its error and nothing is sent; a byte
    /// write that fails ends it with that write's error. The transfer
    /// succeeds exactly when neither happened.
    pub open spec fn data_from(
        &self,
        before: &Self,
        wire: Seq<u8>,
        r: Result<(), DisplayError>,
    ) -> bool {
        let mode = seq![BusEvent::Level(Line::DataCommand, true)];
        &&& self.follows(before)
        &&& self.cs_refusals() == before.cs_refusals()
        &&& {
            ||| r.is_ok() && self.events() == before.events() + mode + byte_events(wire)
                && self.dc_refusals() == before.dc_refusals() && self.data_failures()
                == before.data_failures()
            ||| r == Err::<(), DisplayError>(DisplayError::DCError) && self.events()
                == before.events() + mode && self.dc_refusals() == before.dc_refusals() + 1
                && self.data_failures() == before.data_failures()
            ||| r matches Err(e) && self.dc_refusals() == before.dc_refusals()
                && self.data_failures() == before.data_failures().push(e) && exists|n: int|
                0 <= n < wire.len() && self.events() == before.events() + mode + byte_events(
                    #[trigger] wire.take(n),
                )
        }
    }

    /// What sending one frame does, seen from the state `before` it: the
    /// outcome on the bus, handed to the lines as noted, and a success
    /// exactly when no line refused and no byte write failed.
    pub open spec fn frame_from(
        &self,
        before: &Self,
        frame: (u8, Seq<u8>),
        r: Result<(), DisplayError>,
    ) -> bool {
        &&& self.follows(before)
        &&& frame_outcome(before.events(), self.events(), frame, r)
        &&& r.is_ok() ==> self.faults() == before.faults()
        &&& r.is_err() ==> self.faults() == before.faults() + 1
    }

    /// What sending a list of frames does, seen from the state `before` it:
    /// the outcome on the bus, handed to the lines as noted, and a success
    /// exactly when no line refused and no byte write failed.
    pub open spec fn frames_from(
        &self,
        before: &Self,
        frames: Seq<(u8, Seq<u8>)>,
        r: Result<(), DisplayError>,
    ) -> bool {
        &&& self.follows(before)
        &&& frames_outcome(before.events(), self.events(), frames, r)
        &&& r.is_ok() ==> self.faults() == before.faults()
        &&& r.is_err() ==> self.faults() == before.faults() + 1
    }

    /// The lines were handed what was noted when each got its share of what
    /// the record gained.
    proof fn lemma_follows_step(before: &Self, after: &Self, gained: Seq<BusEvent>)
        requires
            after.events() == before.events() + gained,
            after.cs_told() == before.cs_told() + levels_of(gained, Line::ChipSelect),
            after.dc_told() == before.dc_told() + levels_of(gained, Line::DataCommand),
            after.data_sent() == before.data_sent() + bytes_of(gained),
        ensures
            after.follows(before),
    {
        lemma_gained(before.events(), gained);
    }

    /// Following carries over from one stretch of the record to the next.
    proof fn lemma_follows_chain(first: &Self, middle: &Self, last: &Self)
        requires
            middle.follows(first),
            last.follows(middle),
        ensures
            last.follows(first),
    {
        let a = first.events();
        let b = middle.events();
        let c = last.events();
        let ga = b.skip(a.len() as int);
        let gb = c.skip(b.len() as int);
        assert(b =~= a + ga);
        assert(c =~= b + gb);
        assert(c =~= a + (ga + gb));
        lemma_gained(a, ga + gb);
        lemma_project_concat(ga, gb, Line::ChipSelect);
        lemma_project_concat(ga, gb, Line::DataCommand);
        assert(last.cs_told() =~= first.cs_told() + levels_of(ga + gb, Line::ChipSelect));
        assert(last.dc_told() =~= first.dc_told() + levels_of(ga + gb, Line::DataCommand));
        assert(last.data_sent() =~= first.data_sent() + bytes_of(ga + gb));
    }

    /// When a list of frames went out, the data lines took exactly the
    /// frames' bytes, each command byte followed by its parameters.
    pub proof fn lemma_frames_sent(before: &Self, after: &Self, frames: Seq<(u8, Seq<u8>)>)
        requires
            after.frames_from(before, frames, Ok(())),
        ensures
            after.data_sent() == before.data_sent() + frames_bytes(frames),
    {
        let release = seq![BusEvent::Level(Line::ChipSelect, true)];
        let gained = frames_events(frames) + release;
        assert(before.events() + frames_events(frames) + release =~= before.events() + gained);
        lemma_gained(before.events(), gained);
        lemma_frames_project(frames);
        lemma_project_concat(frames_events(frames), release, Line::ChipSelect);
        lemma_project_push(
            Seq::empty(),
            BusEvent::Level(Line::ChipSelect, true),
            Line::ChipSelect,
        );
        assert(Seq::<BusEvent>::empty().push(BusEvent::Level(Line::ChipSelect, true))
            =~= release);
        assert(frames_bytes(frames) + Seq::<u8>::empty() =~= frames_bytes(frames));
    }

    /// An interface over the given lines, which are held as they came, with
    /// nothing put on the bus yet.
    pub fn new(cs: CS, dc: DC, data_lines: D) -> (interface: ParallelDisplayInterface<CS, DC, D>)
        ensures
            interface.events() == Seq::<BusEvent>::empty(),
            interface.cs_told() == cs.told(),
            interface.cs_refusals() == cs.refusals(),
            interface.dc_told() == dc.told(),
            interface.dc_refusals() == dc.refusals(),
            interface.data_sent() == data_lines.sent(),
            interface.data_failures() == data_lines.failures(),
            interface.steady() == (cs.steady() && dc.steady() && data_lines.steady()),
    {
        ParallelDisplayInterface { cs, dc, data_lines, events: Ghost(Seq::empty()) }
    }

    /// Hands `data` to the data lines, notes the bytes they took, and waits
    /// for them to leave.
    fn write_noted(&mut self, data: DataFormat<'_>) -> (r: Result<(), DisplayError>)
        ensures
            final(self).cs_told() == old(self).cs_told(),
            final(self).cs_refusals() == old(self).cs_refusals(),
            final(self).dc_told() == old(self).dc_told(),
            final(self).dc_refusals() == old(self).dc_refusals(),
            old(self).steady() ==> r.is_ok() && final(self).steady(),
            r.is_ok() ==> final(self).events() == old(self).events() + byte_events(
                data.wire_bytes(),
            ),
            r.is_ok() ==> final(self).data_sent() == old(self).data_sent() + data.wire_bytes(),
            r.is_ok() ==> final(self).data_failures() == old(self).data_failures(),
            r matches Err(e) ==> final(self).data_failures() == old(self).data_failures().push(e)
                && exists|n: int|
                0 <= n < data.wire_bytes().len() && final(self).events() == old(self).events()
                    + byte_events(#[trigger] data.wire_bytes().take(n)) && final(self).data_sent()
                    == old(self).data_sent() + data.wire_bytes().take(n),
    {
        let ghost wire = data.wire_bytes();
        let ghost before = self.data_lines.sent();
        let outcome = self.data_lines.write_format(data);
        proof {
            if outcome.is_ok() {
                self.events@ = self.events@ + byte_events(wire);
            } else {
                let n = choose|n: int|
                    0 <= n < wire.len() && self.data_lines.sent() == before + #[trigger] wire.take(
                        n,
                    );
                self.events@ = self.events@ + byte_events(wire.take(n));
            }
        }
        self.data_lines.flush();
        outcome
    }

    /// Selects the chip, selects command mode, and sends `cmds`.
    pub fn send_commands(&mut self, cmds: DataFormat<'_>) -> (r: Result<(), DisplayError>)
        ensures
            final(self).commands_from(old(self), cmds.wire_bytes(), r),
            old(self).steady() ==> r.is_ok() && final(self).steady(),
    {
        let ghost start = *self;
        let ghost wire = cmds.wire_bytes();
        let ghost select = seq![BusEvent::Level(Line::ChipSelect, false)];
        let ghost mode = seq![BusEvent::Level(Line::DataCommand, false)];
        proof {
            assert(Seq::<BusEvent>::empty().push(BusEvent::Level(Line::ChipSelect, false))
                =~= select);
            assert(Seq::<BusEvent>::empty().push(BusEvent::Level(Line::DataCommand, false))
                =~= mode);
            lemma_project_push(
                Seq::empty(),
                BusEvent::Level(Line::ChipSelect, false),
                Line::ChipSelect,
            );
            lemma_project_push(
                Seq::empty(),
                BusEvent::Level(Line::ChipSelect, false),
                Line::DataCommand,
            );
            lemma_project_push(
                Seq::empty(),
                BusEvent::Level(Line::DataCommand, false),
                Line::ChipSelect,
            );
            lemma_project_push(
                Seq::empty(),
                BusEvent::Level(Line::DataCommand, false),
                Line::DataCommand,
            );
            lemma_project_concat(select, mode, Line::ChipSelect);
            lemma_project_concat(select, mode, Line::DataCommand);
        }
        let selected = self.cs.set_low();
        proof {
            self.events@ = self.events@ + select;
        }
        if selected.is_err() {
            proof {
                assert(self.cs_told() =~= start.cs_told() + levels_of(select, Line::ChipSelect));
                assert(self.dc_told() =~= start.dc_told() + levels_of(select, Line::DataCommand));
                assert(self.data_sent() =~= start.data_sent() + bytes_of(select));
                Self::lemma_follows_step(&start, self, select);
            }
            return Err(DisplayError::CSError);
        }
        let moded = self.dc.set_low();
        proof {
            self.events@ = self.events@ + mode;
        }
        if moded.is_err() {
            proof {
                let gained = select + mode;
                assert(self.events() =~= start.events() + gained);
                assert(self.cs_told() =~= start.cs_told() + levels_of(gained, Line::ChipSelect));
                assert(self.dc_told() =~= start.dc_told() + levels_of(gained, Line::DataCommand));
                assert(self.data_sent() =~= start.data_sent() + bytes_of(gained));
                Self::lemma_follows_step(&start, self, gained);
            }
            return Err(DisplayError::DCError);
        }
        let outcome = self.write_noted(cmds);
        proof {
            let taken = if outcome.is_ok() {
                wire
            } else {
                let n = choose|n: int|
                    0 <= n < wire.len() && self.events() == start.events() + select + mode
                        + byte_events(#[trigger] wire.take(n)) && self.data_sent()
                        == start.data_sent() + wire.take(n);
                wire.take(n)
            };
            let gained = select + mode + byte_events(taken);
            assert(self.events() =~= start.events() + gained);
            lemma_project_bytes(taken, Line::ChipSelect);
            lemma_project_bytes(taken, Line::DataCommand);
            lemma_project_concat(select + mode, byte_events(taken), Line::ChipSelect);
            lemma_project_concat(select + mode, byte_events(taken), Line::DataCommand);
            assert(self.cs_told() =~= start.cs_told() + levels_of(gained, Line::ChipSelect));
            assert(self.dc_told() =~= start.dc_told() + levels_of(gained, Line::DataCommand));
            assert(self.data_sent() =~= start.data_sent() + bytes_of(gained));
            Self::lemma_follows_step(&start, self, gained);
        }
        outcome
    }

    /// Selects data mode and sends `buf`.
    pub fn send_data(&mut self, buf: DataFormat<'_>) -> (r: Result<(), DisplayError>)
        ensures
            final(self).data_from(old(self), buf.wire_bytes(), r),
            old(self).steady() ==> r.is_ok() && final(self).steady(),
    {
        let ghost start = *self;
        let ghost wire = buf.wire_bytes();
        let ghost mode = seq![BusEvent::Level(Line::DataCommand, true)];
        proof {
            assert(Seq::<BusEvent>::empty().push(BusEvent::Level(Line::DataCommand, true))
                =~= mode);
            lemma_project_push(
                Seq::empty(),
                BusEvent::Level(Line::DataCommand, true),
                Line::ChipSelect,
            );
            lemma_project_push(
                Seq::empty(),
                BusEvent::Level(Line::DataCommand, true),
                Line::DataCommand,
            );
        }
        let moded = self.dc.set_high();
        proof {
            self.events@ = self.events@ + mode;
        }
        if moded.is_err() {
            proof {
                assert(self.cs_told() =~= start.cs_told() + levels_of(mode, Line::ChipSelect));
                assert(self.dc_told() =~= start.dc_told() + levels_of(mode, Line::DataCommand));
                assert(self.data_sent() =~= start.data_sent() + bytes_of(mode));
                Self::lemma_follows_step(&start, self, mode);
            }
            return Err(DisplayError::DCError);
        }
        let outcome = self.write_noted(buf);
        proof {
            let taken = if outcome.is_ok() {
                wire
            } else {
                let n = choose|n: int|
                    0 <= n < wire.len() && self.events() == start.events() + mode + byte_events(
                        #[trigger] wire.take(n),
                    ) && self.data_sent() == start.data_sent() + wire.take(n);
                wire.take(n)
            };
            let gained = mode + byte_events(taken);
            assert(self.events() =~= start.events() + gained);
            lemma_project_bytes(taken, Line::ChipSelect);
            lemma_project_bytes(taken, Line::DataCommand);
            lemma_project_concat(mode, byte_events(taken), Line::ChipSelect);
            lemma_project_concat(mode, byte_events(taken), Line::DataCommand);
            assert(self.cs_told() =~= start.cs_told() + levels_of(gained, Line::ChipSelect));
            assert(self.dc_told() =~= start.dc_told() + levels_of(gained, Line::DataCommand));
            assert(self.data_sent() =~= start.data_sent() + bytes_of(gained));
            Self::lemma_follows_step(&start, self, gained);
        }
        outcome
    }

    /// Sends one frame: the command byte in command mode, then the parameter
    /// bytes, if there are any, in data mode.
    pub fn send_frame(&mut self, frame: &Frame) -> (r: Result<(), DisplayError>)
        ensures
            final(self).frame_from(old(self), frame@, r),
            old(self).steady() ==> r.is_ok() && final(self).steady(),
    {
        let ghost start = *self;
        let ghost all = frame_events(frame@);
        let ghost select = seq![BusEvent::Level(Line::ChipSelect, false)];
        let ghost mode = seq![BusEvent::Level(Line::DataCommand, false)];
        let ghost head = seq![
            BusEvent::Level(Line::ChipSelect, false),
            BusEvent::Level(Line::DataCommand, false),
            BusEvent::Byte(frame.command),
        ];
        let mut command: Vec<u8> = Vec::new();
        command.push(frame.command);
        proof {
            assert(command@ =~= seq![frame.command]);
            assert(byte_events(command@) =~= seq![BusEvent::Byte(frame.command)]);
            assert(all.take(1) =~= select);
            assert(all.take(2) =~= select + mode);
            assert(all.take(3) =~= head);
        }
        match self.send_commands(DataFormat::U8(command.as_slice())) {
            Ok(()) => {},
            Err(e) => {
                proof {
                    let now = self.events();
                    assert(all.len() >= 3);
                    if e == DisplayError::CSError && now == start.events() + select {
                        assert(now == start.events() + all.take(1));
                    } else if now == start.events() + select + mode {
                        assert(now == start.events() + all.take(2));
                    } else {
                        let n = choose|n: int|
                            0 <= n < command@.len() && now == start.events() + select + mode
                                + byte_events(#[trigger] command@.take(n));
                        assert(byte_events(command@.take(n)) =~= Seq::<BusEvent>::empty());
                        assert(now =~= start.events() + all.take(2));
                    }
                }
                return Err(e);
            },
        }
        let ghost s1 = *self;
        proof {
            assert(self.events() =~= start.events() + head);
        }
        if frame.data.len() == 0 {
            proof {
                assert(all =~= head);
            }
            return Ok(());
        }
        let outcome = self.send_data(DataFormat::U8(frame.data.as_slice()));
        proof {
            let now = self.events();
            let high = seq![BusEvent::Level(Line::DataCommand, true)];
            assert(all =~= head + high + byte_events(frame.data@));
            Self::lemma_follows_chain(&start, &s1, self);
            if outcome.is_ok() {
                assert(now =~= start.events() + all);
            } else if now == start.events() + head + high {
                assert(all.take(4) =~= head + high);
                assert(now =~= start.events() + all.take(4));
            } else {
                let m = choose|m: int|
                    0 <= m < frame.data@.len() && now == start.events() + head + high
                        + byte_events(#[trigger] frame.data@.take(m));
                assert(all.take(4 + m) =~= head + high + byte_events(frame.data@.take(m)));
                assert(now =~= start.events() + all.take(4 + m));
            }
        }
        outcome
    }

    /// Sends the frames one after the other and then releases the chip. The
    /// first failure ends the transfer, and the chip stays selected.
    pub fn send_frames(&mut self, frames: &[Frame]) -> (r: Result<(), DisplayError>)
        ensures
            final(self).frames_from(old(self), frames_view(frames@), r),
            old(self).steady() ==> r.is_ok() && final(self).steady(),
            r.is_ok() ==> final(self).data_sent() == old(self).data_sent() + frames_bytes(
                frames_view(frames@),
            ),
    {
        let ghost start = *self;
        let ghost all = frames_view(frames@);
        let ghost release = seq![BusEvent::Level(Line::ChipSelect, true)];
        let mut i: usize = 0;
        proof {
            assert(all.take(0) =~= Seq::empty());
            assert(start.events() + Seq::<BusEvent>::empty() =~= start.events());
            lemma_gained(start.events(), Seq::empty());
            assert(start.cs_told() + Seq::<bool>::empty() =~= start.cs_told());
            assert(start.dc_told() + Seq::<bool>::empty() =~= start.dc_told());
            assert(start.data_sent() + Seq::<u8>::empty() =~= start.data_sent());
        }
        while i < frames.len()
            invariant
                i <= frames.len(),
                start == *old(self),
                all == frames_view(frames@),
                self.events() == start.events() + frames_events(all.take(i as int)),
                self.follows(&start),
                self.faults() == start.faults(),
                start.steady() ==> self.steady(),
            decreases frames.len() - i,
        {
            let ghost done = frames_events(all.take(i as int));
            let ghost mid = *self;
            proof {
                assert(all[i as int] == frames@[i as int]@);
            }
            match self.send_frame(&frames[i]) {
                Ok(()) => {},
                Err(e) => {
                    proof {
                        let now = self.events();
                        let frame = all[i as int];
                        Self::lemma_follows_chain(&start, &mid, self);
                        if now == start.events() + done + frame_events(frame).take(1) {
                        } else {
                            let n = choose|n: int|
                                2 <= n < frame_events(frame).len() && now == start.events() + done
                                    + #[trigger] frame_events(frame).take(n);
                            assert(now == start.events() + frames_events(all.take(i as int))
                                + frame_events(all[i as int]).take(n));
                        }
                    }
                    return Err(e);
                },
            }
            proof {
                let next = all.take(i + 1);
                assert(next.drop_last() =~= all.take(i as int));
                assert(next.last() == all[i as int]);
                assert(self.events() =~= start.events() + frames_events(next));
                Self::lemma_follows_chain(&start, &mid, self);
            }
            i += 1;
        }
        proof {
            assert(all.take(i as int) =~= all);
        }
        let ghost sent = *self;
        let released = self.cs.set_high();
        proof {
            self.events@ = self.events@ + release;
            assert(Seq::<BusEvent>::empty().push(BusEvent::Level(Line::ChipSelect, true))
                =~= release);
            lemma_project_push(
                Seq::empty(),
                BusEvent::Level(Line::ChipSelect, true),
                Line::ChipSelect,
            );
            lemma_project_push(
                Seq::empty(),
                BusEvent::Level(Line::ChipSelect, true),
                Line::DataCommand,
            );
            assert(self.cs_told() =~= sent.cs_told() + levels_of(release, Line::ChipSelect));
            assert(self.dc_told() =~= sent.dc_told() + levels_of(release, Line::DataCommand));
            assert(self.data_sent() =~= sent.data_sent() + bytes_of(release));
            Self::lemma_follows_step(&sent, self, release);
            Self::lemma_follows_chain(&start, &sent, self);
        }
        match released {
            Ok(()) => {
                proof {
                    Self::lemma_frames_sent(&start, self, all);
                }
                Ok(())
            },
            Err(_) => Err(DisplayError::CSError),
        }
    }
}

} // verus!
