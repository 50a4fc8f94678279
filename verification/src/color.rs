//! Packed ARGB color values.

use vstd::prelude::*;

verus! {

/// A color packed into one 32-bit word: alpha in the highest byte, then
/// red, green and blue.
#[derive(Debug, Clone, Copy, PartialEq, Eq, Structural)]
pub struct Color {
    pub value: u32,
}

impl Color {
    pub fn new(value: u32) -> (r: Color)
        ensures
            r.value == value,
    {
        Color { value }
    }

    pub fn from_argb(alpha: u8, red: u8, green: u8, blue: u8) -> (r: Color)
        ensures
            r.value == ((0xFFu32 & (alpha as u32)) << 24u32 | (0xFFu32 & (red as u32)) << 16u32 | (
            0xFFu32 & (green as u32)) << 8u32 | (blue as u32)),
    {
        Color {
            value: (0xFFu32 & (alpha as u32)) << 24u32 | (0xFFu32 & (red as u32)) << 16u32 | (
            0xFFu32 & (green as u32)) << 8u32 | (blue as u32),
        }
    }

    pub fn from_rgb(red: u8, green: u8, blue: u8) -> (r: Color)
        ensures
            r.value == ((0xFFu32 & 255u32) << 24u32 | (0xFFu32 & (red as u32)) << 16u32 | (0xFFu32
                & (green as u32)) << 8u32 | (blue as u32)),
    {
        Color::from_argb(255, red, green, blue)
    }

    pub fn alpha(&self) -> (r: u8)
        ensures
            r == ((self.value >> 24u32) & 0xFFu32) as u8,
    {
        ((self.value >> 24u32) & 0xFFu32) as u8
    }

    pub fn red(&self) -> (r: u8)
        ensures
            r == ((self.value >> 16u32) & 0xFFu32) as u8,
    {
        ((self.value >> 16u32) & 0xFFu32) as u8
    }

    pub fn green(&self) -> (r: u8)
        ensures
            r == ((self.value >> 8u32) & 0xFFu32) as u8,
    {
        ((self.value >> 8u32) & 0xFFu32) as u8
    }

    pub fn blue(&self) -> (r: u8)
        ensures
            r == (self.value & 0xFFu32) as u8,
    {
        (self.value & 0xFFu32) as u8
    }
}

} // verus!
