//! Hue, chroma and tone of a colour.
//!
//! The three numbers are real-valued. They are held here as the bit
//! patterns of IEEE 754 double-precision numbers, in `u64`: among numbers
//! that are not negative, the larger number has the larger pattern, so the
//! ranges below are ranges of the numbers themselves.

use material_colors::color::Argb;
use material_colors::hct::Hct as ModelHct;
use vstd::prelude::*;

verus! {

/// Pattern of 360: the first hue that is out of range.
pub const HUE_LIMIT: u64 = 0x4076_8000_0000_0000;

/// Pattern of 100: the tone of white.
pub const TONE_MAX: u64 = 0x4059_0000_0000_0000;

/// Pattern of positive infinity: the largest pattern of a number that is
/// not negative. Above it lie the patterns of not-a-number and of the
/// negative numbers.
pub const POSITIVE_MAX: u64 = 0x7FF0_0000_0000_0000;

/// A colour in hue, chroma and tone, each as the bit pattern of a double.
#[derive(Clone, Copy, Debug, PartialEq, Eq, Structural)]
pub struct Hct {
    /// Degrees, from 0 up to but not including 360.
    pub hue: u64,
    /// Colourfulness, 0 or more.
    pub chroma: u64,
    /// Lightness, from 0 to 100.
    pub tone: u64,
}

impl Hct {
    /// Hue lies in `[0, 360)`, chroma is `0` or more, tone lies in
    /// `[0, 100]`.
    pub open spec fn in_range(self) -> bool {
        self.hue < HUE_LIMIT && self.chroma <= POSITIVE_MAX && self.tone <= TONE_MAX
    }
}

/// Hue, chroma and tone as `material_colors` computes them for a packed
/// colour, each as the bit pattern of the double.
pub uninterp spec fn hct_components(argb: u32) -> (u64, u64, u64);

/// Calls `Hct::new` of `material_colors` and reads hue, chroma and tone.
///
/// Trusted: the three numbers depend on the colour alone.
#[verifier::external_body]
fn model_hct(argb: u32) -> (bits: (u64, u64, u64))
    ensures
        bits == hct_components(argb),
{
    let hct = ModelHct::new(Argb::from_u32(argb));
    (hct.get_hue().to_bits(), hct.get_chroma().to_bits(), hct.get_tone().to_bits())
}

/// A hue in range is kept; any other becomes 0, as 360 degrees is.
pub open spec fn normal_hue(bits: u64) -> u64 {
    if bits < HUE_LIMIT {
        bits
    } else {
        0
    }
}

/// A chroma of 0 or more is kept; a negative one or not-a-number becomes 0.
pub open spec fn normal_chroma(bits: u64) -> u64 {
    if bits <= POSITIVE_MAX {
        bits
    } else {
        0
    }
}

/// A tone is clamped to `[0, 100]`; not-a-number becomes 0.
pub open spec fn normal_tone(bits: u64) -> u64 {
    if bits <= TONE_MAX {
        bits
    } else if bits <= POSITIVE_MAX {
        TONE_MAX
    } else {
        0
    }
}

/// The three components, each brought into its range.
pub open spec fn normalized(bits: (u64, u64, u64)) -> Hct {
    Hct { hue: normal_hue(bits.0), chroma: normal_chroma(bits.1), tone: normal_tone(bits.2) }
}

/// Whatever the components, their normal form is in range.
pub proof fn lemma_normalized_in_range(bits: (u64, u64, u64))
    ensures
        normalized(bits).in_range(),
{
}

/// Brings raw components into range.
pub fn normalize(hue: u64, chroma: u64, tone: u64) -> (h: Hct)
    ensures
        h == normalized((hue, chroma, tone)),
        h.in_range(),
{
    Hct {
        hue: if hue < HUE_LIMIT {
            hue
        } else {
            0
        },
        chroma: if chroma <= POSITIVE_MAX {
            chroma
        } else {
            0
        },
        tone: if tone <= TONE_MAX {
            tone
        } else if tone <= POSITIVE_MAX {
            TONE_MAX
        } else {
            0
        },
    }
}

/// Hue, chroma and tone of a packed colour. The alpha byte plays no part.
pub fn to_hct(argb: u32) -> (h: Hct)
    ensures
        h == normalized(hct_components(argb)),
        h.in_range(),
{
    let bits = model_hct(argb);
    normalize(bits.0, bits.1, bits.2)
}

} // verus!
