//! Numbers that the editor measures with.
use vstd::prelude::*;

verus! {

/// A length in points of the document, a whole number of [`POINT`]ths.
///
/// A step is a power of two, so every single-precision length of at least half
/// a point is one of these numbers exactly.
pub type Points = i64;

/// One point.
pub const POINT: i64 = 0x100_0000;

/// A colour as three channels.
///
/// A channel is a single-precision number, held by the bits of its magnitude
/// with its sign before them. So both zeros are one channel, and two channels
/// are equal just where their numbers are.
#[derive(Clone, Copy, Debug, PartialEq, Eq, Structural)]
pub struct Color {
    pub red: i32,
    pub green: i32,
    pub blue: i32,
}

/// The bit of the sign.
pub const SIGN: u32 = 0x8000_0000;

/// The bits of the greatest magnitude that is a number.
pub const GREATEST_MAGNITUDE: u32 = 0x7f80_0000;

/// The magnitude of what bits stand for, as bits.
pub open spec fn magnitude(bits: u32) -> u32 {
    if bits < SIGN {
        bits
    } else {
        (bits - SIGN) as u32
    }
}

/// Whether bits stand for a number at all.
pub open spec fn is_number(bits: u32) -> bool {
    magnitude(bits) <= GREATEST_MAGNITUDE
}

/// Whether bits stand for the same number: they are the same, or those of the
/// two zeros. What is no number is the same as nothing.
pub open spec fn same_number(a: u32, b: u32) -> bool {
    is_number(a) && is_number(b) && (a == b || (magnitude(a) == 0 && magnitude(b) == 0))
}

/// The channel of the number that bits stand for, zero where they stand for
/// none.
pub open spec fn channel_of(bits: u32) -> i32 {
    if !is_number(bits) {
        0
    } else if bits < SIGN {
        bits as i32
    } else {
        (SIGN - bits) as i32
    }
}

/// The bits of a channel.
pub open spec fn bits_of(channel: i32) -> u32 {
    if channel >= 0 {
        channel as u32
    } else {
        (SIGN - channel) as u32
    }
}

/// The channel of a number.
pub fn channel(bits: u32) -> (r: i32)
    ensures
        r == channel_of(bits),
        r > i32::MIN,
{
    let size: u32 = if bits < SIGN {
        bits
    } else {
        bits - SIGN
    };
    if size > GREATEST_MAGNITUDE {
        0
    } else if bits < SIGN {
        size as i32
    } else {
        -(size as i32)
    }
}

/// The number of a channel, as bits.
pub fn channel_bits(channel: i32) -> (r: u32)
    requires
        channel > i32::MIN,
    ensures
        r == bits_of(channel),
{
    if channel >= 0 {
        channel as u32
    } else {
        (-channel) as u32 + SIGN
    }
}

impl Color {
    /// The colour of three numbers.
    pub fn of_bits(red: u32, green: u32, blue: u32) -> (r: Color)
        ensures
            r == (Color {
                red: channel_of(red),
                green: channel_of(green),
                blue: channel_of(blue),
            }),
    {
        Color { red: channel(red), green: channel(green), blue: channel(blue) }
    }
}

/// Channels are equal just where their numbers are.
pub proof fn equal_channels_are_equal_numbers(a: u32, b: u32)
    requires
        is_number(a),
        is_number(b),
    ensures
        channel_of(a) == channel_of(b) <==> same_number(a, b),
{
}

/// A channel keeps its number.
pub proof fn a_channel_keeps_its_number(bits: u32)
    requires
        is_number(bits),
    ensures
        same_number(bits_of(channel_of(bits)), bits),
{
}

} // verus!
