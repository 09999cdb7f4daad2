//! Pixel colours and their packed 32-bit form.

use vstd::prelude::*;

verus! {

/// Why a request for a dominant colour is refused.
#[derive(Clone, Copy, Debug, PartialEq, Eq, Structural)]
pub enum CoreError {
    /// No pixel was supplied.
    EmptyInput,
    /// A palette of zero colours was requested.
    DegenerateQuantization,
    /// Some pixel holds a channel above 255.
    InvalidColorComponent,
}

/// The largest value a colour channel may hold.
pub const CHANNEL_MAX: u32 = 255;

/// Alpha byte of a fully opaque colour, in place.
pub const OPAQUE: u32 = 0xFF00_0000;

/// One pixel as it arrives from a decoder: three channels, each meant to lie
/// in `0..=255`.
#[derive(Clone, Copy, Debug, PartialEq, Eq, Structural)]
pub struct Pixel {
    pub red: u32,
    pub green: u32,
    pub blue: u32,
}

impl Pixel {
    /// Every channel lies in `0..=255`.
    pub open spec fn in_range(self) -> bool {
        self.red <= CHANNEL_MAX && self.green <= CHANNEL_MAX && self.blue <= CHANNEL_MAX
    }

    /// The opaque packed form: alpha 255 in the top byte, then red, green
    /// and blue.
    pub open spec fn packed(self) -> u32
        recommends
            self.in_range(),
    {
        (OPAQUE + self.red * 0x1_0000 + self.green * 0x100 + self.blue) as u32
    }

    pub fn new(red: u32, green: u32, blue: u32) -> (p: Pixel)
        ensures
            p.red == red,
            p.green == green,
            p.blue == blue,
    {
        Pixel { red, green, blue }
    }

    pub fn is_valid(&self) -> (ok: bool)
        ensures
            ok == self.in_range(),
    {
        self.red <= CHANNEL_MAX && self.green <= CHANNEL_MAX && self.blue <= CHANNEL_MAX
    }

    /// Packs the pixel, or refuses it when a channel is out of range.
    pub fn pack(&self) -> (r: Result<u32, CoreError>)
        ensures
            self.in_range() ==> r == Ok::<u32, CoreError>(self.packed()),
            !self.in_range() ==> r == Err::<u32, CoreError>(CoreError::InvalidColorComponent),
    {
        if self.is_valid() {
            Ok(OPAQUE + self.red * 0x1_0000 + self.green * 0x100 + self.blue)
        } else {
            Err(CoreError::InvalidColorComponent)
        }
    }

    /// The channels of a packed colour; the alpha byte is dropped.
    pub fn from_packed(argb: u32) -> (p: Pixel)
        ensures
            p.in_range(),
            p.red == (argb / 0x1_0000) % 0x100,
            p.green == (argb / 0x100) % 0x100,
            p.blue == argb % 0x100,
            argb >= OPAQUE ==> p.packed() == argb,
    {
        Pixel {
            red: (argb / 0x1_0000) % 0x100,
            green: (argb / 0x100) % 0x100,
            blue: argb % 0x100,
        }
    }
}

} // verus!
