//! Pixel samples and the color keys they are counted under.

use vstd::prelude::*;

verus! {

/// A color key: the red, green and blue channels of a sample.
#[derive(Clone, Copy, Debug, PartialEq, Eq, Structural)]
pub struct Rgb {
    pub red: u8,
    pub green: u8,
    pub blue: u8,
}

/// A decoded sample: three color channels and an opacity channel.
#[derive(Clone, Copy, Debug, PartialEq, Eq, Structural)]
pub struct Rgba {
    pub red: u8,
    pub green: u8,
    pub blue: u8,
    pub alpha: u8,
}

impl Rgb {
    /// The number that stands for this color in an index: `0xRRGGBB`.
    pub open spec fn code(self) -> u32 {
        (self.red * 65536 + self.green * 256 + self.blue) as u32
    }

    /// The color with these channels.
    pub fn new(red: u8, green: u8, blue: u8) -> (key: Rgb)
        ensures
            key == (Rgb { red, green, blue }),
    {
        Rgb { red, green, blue }
    }

    /// Computes [`Rgb::code`].
    pub fn packed(&self) -> (code: u32)
        ensures
            code == self.code(),
    {
        let red: u32 = self.red as u32;
        let green: u32 = self.green as u32;
        let blue: u32 = self.blue as u32;
        red * 65536 + green * 256 + blue
    }

    /// Two colors with the same code are the same color.
    pub proof fn lemma_code_injective(self, other: Rgb)
        requires
            self.code() == other.code(),
        ensures
            self == other,
    {
    }
}

impl Rgba {
    /// The color key of this sample: the sample without its opacity.
    pub open spec fn color(self) -> Rgb {
        Rgb { red: self.red, green: self.green, blue: self.blue }
    }

    /// The sample with these channels.
    pub fn new(red: u8, green: u8, blue: u8, alpha: u8) -> (sample: Rgba)
        ensures
            sample == (Rgba { red, green, blue, alpha }),
    {
        Rgba { red, green, blue, alpha }
    }

    /// Drops the opacity channel.
    pub fn to_rgb(&self) -> (key: Rgb)
        ensures
            key == self.color(),
    {
        Rgb { red: self.red, green: self.green, blue: self.blue }
    }
}

} // verus!
