//! Board-level arithmetic: the clock divider of the state machine that drives
//! the parallel bus, and the scaling of the battery sense reading.

use vstd::prelude::*;
use fugit::HertzU32;

verus! {

/// Highest clock, in hertz, at which the bus state machine may run.
pub const MAX_PIO_CLOCK_HZ: u32 = 32_000_000;

/// Full scale of the converter's reading, one past the largest raw value.
pub const ADC_FULL_SCALE: u32 = 4096;

/// Millivolts at the battery sense input for a full-scale reading: the 3.3 V
/// reference times the board's divide-by-three.
pub const BATTERY_FULL_SCALE_MV: u32 = 9900;

/// `fugit`'s `+` on two `HertzU32`: the sum of the two rates. The operator
/// panics when the sum does not fit in 32 bits, so that case is excluded.
/// `HertzU32::Hz` and `to_Hz` carry a number of hertz over as it is.
#[verifier::external_body]
fn hertz_sum(a: u32, b: u32) -> (sum: u32)
    requires
        a + b <= u32::MAX,
    ensures
        sum == a + b,
{
    (HertzU32::Hz(a) + HertzU32::Hz(b)).to_Hz()
}

/// `fugit`'s `-` on two `HertzU32`: the difference of the two rates. The
/// operator panics when the second is the larger, so that case is excluded.
/// `HertzU32::Hz` and `to_Hz` carry a number of hertz over as it is.
#[verifier::external_body]
fn hertz_difference(a: u32, b: u32) -> (difference: u32)
    requires
        b <= a,
    ensures
        difference == a - b,
{
    (HertzU32::Hz(a) - HertzU32::Hz(b)).to_Hz()
}

/// `fugit`'s `/` on two `HertzU32`: how many times the second rate goes into
/// the first, rounded down. A zero divisor panics, so that case is excluded.
/// `HertzU32::Hz` carries a number of hertz over as it is.
#[verifier::external_body]
fn hertz_ratio(a: u32, b: u32) -> (ratio: u32)
    requires
        b > 0,
    ensures
        ratio == a / b,
{
    HertzU32::Hz(a) / HertzU32::Hz(b)
}

/// The smallest whole divider that brings a system clock of `sys_freq_hz`
/// down to at most `MAX_PIO_CLOCK_HZ`; zero for a stopped clock.
pub fn pio_clock_divider(sys_freq_hz: u32) -> (divider: u16)
    requires
        sys_freq_hz + MAX_PIO_CLOCK_HZ <= u32::MAX,
    ensures
        divider == (sys_freq_hz + MAX_PIO_CLOCK_HZ - 1) / (MAX_PIO_CLOCK_HZ as int),
        divider * MAX_PIO_CLOCK_HZ >= sys_freq_hz,
        sys_freq_hz > 0 ==> (divider - 1) * MAX_PIO_CLOCK_HZ < sys_freq_hz,
        divider <= 134,
{
    let raised = hertz_sum(sys_freq_hz, MAX_PIO_CLOCK_HZ);
    let top = hertz_difference(raised, 1);
    let ratio = hertz_ratio(top, MAX_PIO_CLOCK_HZ);
    ratio as u16
}

/// The battery voltage in millivolts for a raw converter reading: the reading
/// scaled so that full scale is 9900 mV, rounded down, and cut to 16 bits.
pub fn battery_millivolts(raw_value: u16) -> (millivolts: u16)
    ensures
        millivolts == (raw_value * BATTERY_FULL_SCALE_MV / (ADC_FULL_SCALE as int)) % 0x1_0000,
        raw_value <= ADC_FULL_SCALE ==> millivolts == raw_value * BATTERY_FULL_SCALE_MV / (
        ADC_FULL_SCALE as int) && millivolts <= BATTERY_FULL_SCALE_MV,
{
    let wide: u32 = raw_value as u32;
    let value: u32 = (wide * 3300 * 3) / 4096;
    assert(value & 0xffff == value % 0x1_0000) by (bit_vector);
    (value & 0xffff) as u16
}

} // verus!
