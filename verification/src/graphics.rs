//! Colours and how they are laid out in a pixel.

use crate::mailbox::tags::PixelOrder;
use vstd::prelude::*;

verus! {

#[derive(Clone, Copy, Debug, PartialEq, Eq, Structural)]
pub struct Color {
    pub r: u8,
    pub g: u8,
    pub b: u8,
}

impl Color {
    #[verifier::allow_in_spec]
    pub fn black() -> Self
        returns
            (Color { r: 0, g: 0, b: 0 }),
    {
        Color::rgb(0, 0, 0)
    }

    #[verifier::allow_in_spec]
    pub fn white() -> Self
        returns
            (Color { r: 255, g: 255, b: 255 }),
    {
        Color::rgb(255, 255, 255)
    }

    #[verifier::allow_in_spec]
    pub fn red() -> Self
        returns
            (Color { r: 255, g: 0, b: 0 }),
    {
        Color::rgb(255, 0, 0)
    }

    #[verifier::allow_in_spec]
    pub fn green() -> Self
        returns
            (Color { r: 0, g: 255, b: 0 }),
    {
        Color::rgb(0, 255, 0)
    }

    #[verifier::allow_in_spec]
    pub fn blue() -> Self
        returns
            (Color { r: 0, g: 0, b: 255 }),
    {
        Color::rgb(0, 0, 255)
    }

    #[verifier::allow_in_spec]
    pub fn light_gray() -> Self
        returns
            (Color { r: 200, g: 200, b: 200 }),
    {
        Color::rgb(200, 200, 200)
    }

    #[verifier::allow_in_spec]
    pub fn rgb(r: u8, g: u8, b: u8) -> Self
        returns
            (Color { r, g, b }),
    {
        Color { r, g, b }
    }

    /// From a `0x00RRGGBB` word, the layout programs draw with. The top byte is ignored.
    #[verifier::allow_in_spec]
    pub fn from_rgb(word: u32) -> Self
        returns
            (Color {
                r: (word / 0x1_0000 % 0x100) as u8,
                g: (word / 0x100 % 0x100) as u8,
                b: (word % 0x100) as u8,
            }),
    {
        Color {
            r: (word / 0x1_0000 % 0x100) as u8,
            g: (word / 0x100 % 0x100) as u8,
            b: (word % 0x100) as u8,
        }
    }

    /// The 32-bit pixel for this colour. `RGB` puts red in the lowest byte, `BGR` blue; the
    /// top byte (alpha) is opaque.
    pub open spec fn pixel(self, order: PixelOrder) -> u32 {
        let (low, high) = if order == PixelOrder::rgb() {
            (self.r, self.b)
        } else {
            (self.b, self.r)
        };
        (0xFF00_0000 + high * 0x1_0000 + self.g * 0x100 + low) as u32
    }

    /// The 32-bit pixel for this colour. `RGB` puts red in the lowest byte, `BGR` blue; the
    /// top byte (alpha) is opaque.
    pub fn encode(self, order: PixelOrder) -> (r: u32)
        ensures
            r == self.pixel(order),
    {
        let (low, high) = if order == PixelOrder::rgb() {
            (self.r, self.b)
        } else {
            (self.b, self.r)
        };
        0xFF00_0000 + high as u32 * 0x1_0000 + self.g as u32 * 0x100 + low as u32
    }
}

/// A pixel in BGR order is the word that programs draw with, and gives the colour back.
pub proof fn bgr_pixels_are_rgb_words(color: Color)
    ensures
        Color::from_rgb(color.pixel(PixelOrder::bgr())) == color,
{
}

/// A pixel's bytes, the lowest first: red, green and blue in RGB order, the other way round in BGR
/// order, and then 255, which is opaque.
pub proof fn pixels_have_their_bytes(color: Color)
    ensures
        ({
            let rgb = color.pixel(PixelOrder(1));
            let bgr = color.pixel(PixelOrder(0));
            &&& rgb % 256 == color.r && rgb / 256 % 256 == color.g && rgb / 65536 % 256 == color.b
            &&& bgr % 256 == color.b && bgr / 256 % 256 == color.g && bgr / 65536 % 256 == color.r
            &&& rgb / 16777216 == 255 && bgr / 16777216 == 255
        }),
{
}

} // verus!
