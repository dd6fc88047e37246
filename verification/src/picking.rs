//! Picking identifiers for rendered objects: a wrapping counter and the
//! color a picking pass encodes an identifier with.

use vstd::prelude::*;

verus! {

/// Largest identifier the three color channels can carry.
pub const MAX_ID: u32 = 255 * 255 * 255;

/// Hands out the next picking identifier, wrapping to zero past the largest
/// value the color channels can carry.
pub fn next_id(counter: &mut u32) -> (id: u32)
    ensures
        id == *old(counter),
        *final(counter) == (if *old(counter) >= MAX_ID {
            0u32
        } else {
            (*old(counter) + 1) as u32
        }),
{
    let id = *counter;
    if *counter >= MAX_ID {
        *counter = 0;
    } else {
        *counter = *counter + 1;
    }
    id
}

/// One color, a byte per channel.
#[derive(Clone, Copy, Debug, PartialEq, Eq, Structural)]
pub struct Color {
    pub r: u8,
    pub g: u8,
    pub b: u8,
    pub a: u8,
}

/// Encodes an identifier in the red, green and blue channels, one byte
/// each, fully opaque: up to 256 cubed objects.
pub fn id_to_color(id: usize) -> (c: Color)
    ensures
        c.r as int == (id as int / 65_536) % 256,
        c.g as int == (id as int / 256) % 256,
        c.b as int == id as int % 256,
        c.a == 255,
{
    let r = ((id / 65_536) % 256) as u8;
    let g = ((id / 256) % 256) as u8;
    let b = (id % 256) as u8;
    Color { r, g, b, a: 255 }
}

} // verus!
