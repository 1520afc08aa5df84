//! Truecolor pixels and their reduction to 15-bit hardware colours.

use vstd::prelude::*;

verus! {

/// A decoded pixel: red, green, blue and alpha, eight bits each.
#[derive(PartialEq, Eq, Structural, Hash, Copy, Clone, Debug)]
pub struct TrueColor {
    pub r: u8,
    pub g: u8,
    pub b: u8,
    pub a: u8,
}

/// A 15-bit hardware colour in a 16-bit field: red in bits 0 to 4, green in
/// bits 5 to 9, blue in bits 10 to 14. Bit 15 is not used.
#[derive(PartialEq, Eq, Structural, Hash, Copy, Clone, Debug)]
pub struct GbaColor(pub u16);

/// The five bits that are kept of an 8-bit channel: the value divided by 8,
/// rounded down.
pub open spec fn channel_bits(chan: u8) -> nat {
    (chan / 8) as nat
}

/// The hardware colour of a truecolor pixel. Each of red, green and blue is
/// cut down to five bits and the three are laid side by side; alpha plays no
/// part.
pub open spec fn quantized(color: TrueColor) -> GbaColor {
    GbaColor(
        (channel_bits(color.r) + 32 * channel_bits(color.g) + 1024 * channel_bits(color.b)) as u16,
    )
}

impl GbaColor {
    /// The red field, bits 0 to 4.
    pub open spec fn red(self) -> nat {
        (self.0 % 32) as nat
    }

    /// The green field, bits 5 to 9.
    pub open spec fn green(self) -> nat {
        ((self.0 / 32) % 32) as nat
    }

    /// The blue field, bits 10 to 14.
    pub open spec fn blue(self) -> nat {
        ((self.0 / 1024) % 32) as nat
    }
}

/// Cuts an 8-bit channel down to its five high bits.
pub fn map_channel(chan: u8) -> (bits: u16)
    ensures
        bits == channel_bits(chan),
        bits == chan >> 3,
        bits < 32,
{
    let mask: u8 = 0b1_1111;
    let kept: u8 = (chan >> 3) & mask;
    assert(kept == chan >> 3 && kept == chan / 8 && kept < 32) by (bit_vector)
        requires
            kept == (chan >> 3) & 0b1_1111u8,
    ;
    kept as u16
}

/// Builds a truecolor pixel from its four channels.
pub fn rgba(r: u8, g: u8, b: u8, a: u8) -> (color: TrueColor)
    ensures
        color == (TrueColor { r, g, b, a }),
{
    TrueColor { r, g, b, a }
}

impl vstd::std_specs::convert::FromSpecImpl<TrueColor> for GbaColor {
    open spec fn obeys_from_spec() -> bool {
        true
    }

    open spec fn from_spec(color: TrueColor) -> GbaColor {
        quantized(color)
    }
}

impl From<TrueColor> for GbaColor {
    /// Quantizes a truecolor pixel.
    fn from(color: TrueColor) -> (hw: GbaColor)
        ensures
            hw == quantized(color),
    {
        let r: u16 = map_channel(color.r);
        let g: u16 = map_channel(color.g);
        let b: u16 = map_channel(color.b);
        let packed: u16 = r | (g << 5) | (b << 10);
        assert(packed == r + 32 * g + 1024 * b) by (bit_vector)
            requires
                r < 32,
                g < 32,
                b < 32,
                packed == r | (g << 5) | (b << 10),
        ;
        GbaColor(packed)
    }
}

/// Each field of a quantized colour is the matching channel shifted right by
/// three bits, and bit 15 is clear.
pub proof fn lemma_quantized_channels(color: TrueColor)
    ensures
        quantized(color).red() == color.r >> 3,
        quantized(color).green() == color.g >> 3,
        quantized(color).blue() == color.b >> 3,
        quantized(color).0 < 0x8000,
        quantized(color).0 == (color.r >> 3) as u16 | ((color.g >> 3) as u16) << 5 | ((color.b >> 3) as u16) << 10,
{
    let r = color.r;
    let g = color.g;
    let b = color.b;
    assert(r >> 3 == r / 8 && g >> 3 == g / 8 && b >> 3 == b / 8) by (bit_vector);
    let r5: u16 = (r >> 3) as u16;
    let g5: u16 = (g >> 3) as u16;
    let b5: u16 = (b >> 3) as u16;
    assert(r5 | (g5 << 5) | (b5 << 10) == r5 + 32 * g5 + 1024 * b5) by (bit_vector)
        requires
            r5 < 32,
            g5 < 32,
            b5 < 32,
    ;
}

/// Two pixels whose red, green and blue agree above the low three bits have
/// the same hardware colour, whatever their alpha; and only such pixels do.
pub proof fn lemma_quantized_collapses(c1: TrueColor, c2: TrueColor)
    ensures
        quantized(c1) == quantized(c2) <==> (c1.r >> 3 == c2.r >> 3 && c1.g >> 3 == c2.g >> 3
            && c1.b >> 3 == c2.b >> 3),
{
    lemma_quantized_channels(c1);
    lemma_quantized_channels(c2);
}

} // verus!
