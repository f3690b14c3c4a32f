//! The two-byte storage form of a 16-bit colour.

use vstd::prelude::*;

verus! {

/// Which byte of a 16-bit colour is stored first.
#[derive(Clone, Copy, Debug, PartialEq, Eq, Structural)]
pub enum ByteOrder {
    /// Most significant byte first.
    BigEndian,
    /// Least significant byte first.
    LittleEndian,
}

/// The most significant byte of `color`.
pub open spec fn high_byte(color: u16) -> u8 {
    (color / 256) as u8
}

/// The least significant byte of `color`.
pub open spec fn low_byte(color: u16) -> u8 {
    (color % 256) as u8
}

/// The byte stored at position `k` (0 or 1) of a pixel slot holding `color`.
pub open spec fn stored_byte(order: ByteOrder, color: u16, k: int) -> u8 {
    if (order == ByteOrder::BigEndian) == (k == 0) {
        high_byte(color)
    } else {
        low_byte(color)
    }
}

/// The colour that a pixel slot holding the bytes `first`, `second` stands for.
pub open spec fn stored_color(order: ByteOrder, first: u8, second: u8) -> u16 {
    if order == ByteOrder::BigEndian {
        (first * 256 + second) as u16
    } else {
        (second * 256 + first) as u16
    }
}

/// The bytes of `pixels` pixel slots that all hold `color`.
pub open spec fn solid(pixels: int, order: ByteOrder, color: u16) -> Seq<u8> {
    Seq::new((2 * pixels) as nat, |i: int| stored_byte(order, color, i % 2))
}

/// Splits a colour into its most and least significant byte.
pub fn split_color(color: u16) -> (bytes: (u8, u8))
    ensures
        bytes.0 == high_byte(color),
        bytes.1 == low_byte(color),
{
    assert(color >> 8 == color / 256) by (bit_vector);
    assert(color & 0xff == color % 256) by (bit_vector);
    ((color >> 8) as u8, (color & 0xff) as u8)
}

/// Joins a most and a least significant byte into a colour.
pub fn join_color(high: u8, low: u8) -> (color: u16)
    ensures
        color == high * 256 + low,
        high_byte(color) == high,
        low_byte(color) == low,
{
    let wide_high: u16 = high as u16;
    let wide_low: u16 = low as u16;
    wide_high * 256 + wide_low
}

/// The two bytes of a pixel slot holding `color`, in storage order.
pub fn encode_color(order: ByteOrder, color: u16) -> (bytes: (u8, u8))
    ensures
        bytes.0 == stored_byte(order, color, 0),
        bytes.1 == stored_byte(order, color, 1),
        stored_color(order, bytes.0, bytes.1) == color,
{
    let (high, low) = split_color(color);
    match order {
        ByteOrder::BigEndian => (high, low),
        ByteOrder::LittleEndian => (low, high),
    }
}

/// The colour held by a pixel slot whose bytes are `first`, `second`.
pub fn decode_color(order: ByteOrder, first: u8, second: u8) -> (color: u16)
    ensures
        color == stored_color(order, first, second),
        stored_byte(order, color, 0) == first,
        stored_byte(order, color, 1) == second,
{
    match order {
        ByteOrder::BigEndian => join_color(first, second),
        ByteOrder::LittleEndian => join_color(second, first),
    }
}

/// Storing a colour and reading the slot back gives the colour again, in
/// either byte order.
pub proof fn lemma_store_then_read(order: ByteOrder, color: u16)
    ensures
        stored_color(order, stored_byte(order, color, 0), stored_byte(order, color, 1)) == color,
{
}

} // verus!
