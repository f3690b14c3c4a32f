//! Display support for RP2040 boards: an off-screen 16-bit raster, the
//! bookkeeping of the rectangles that changed since the last refresh, the
//! command framing that carries them to the display controller, and the
//! byte transport over an 8-bit parallel bus.

pub mod board;
pub mod display;
pub mod framebuffer;
pub mod laws;
pub mod pixel;
pub mod region;
pub mod transport;
