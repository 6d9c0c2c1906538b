use vstd::prelude::*;

verus! {

/// Bit pattern of the sign of an IEEE-754 single-precision value.
pub const SIGN_BIT: u32 = 0x8000_0000;

/// Largest magnitude bit pattern that is not a NaN (positive infinity).
pub const INFINITY_BITS: u32 = 0x7F80_0000;

/// A year on the timeline, possibly fractional (2020.5 is the middle of
/// 2020), held exactly as the bit pattern of the single-precision value
/// that the user entered or that a project file stored.
#[derive(Clone, Copy, Debug, PartialEq, Eq, Structural)]
pub struct Year {
    pub bits: u32,
}

/// The bits of a value without its sign.
pub open spec fn magnitude(bits: u32) -> int {
    if bits >= SIGN_BIT {
        bits - SIGN_BIT
    } else {
        bits as int
    }
}

/// Whether the bit pattern is a NaN.
pub open spec fn is_nan_bits(bits: u32) -> bool {
    magnitude(bits) > INFINITY_BITS
}

/// The position of a value in IEEE-754 `totalOrder` (the order of
/// `f32::total_cmp`): positive patterns ascend with their bits, negative
/// ones descend, and `-0.0` comes just before `+0.0`.
pub open spec fn total_key(bits: u32) -> int {
    if bits >= SIGN_BIT {
        0x7FFF_FFFF - bits
    } else {
        bits as int
    }
}

/// IEEE-754 `a >= b` (the `>=` of `f32`): false when either side is a NaN,
/// true for `-0.0 >= +0.0`, and otherwise the order of the values.
pub open spec fn ieee_ge(a: u32, b: u32) -> bool {
    &&& !is_nan_bits(a)
    &&& !is_nan_bits(b)
    &&& ((magnitude(a) == 0 && magnitude(b) == 0) || total_key(a) >= total_key(b))
}

impl Year {
    pub open spec fn key(self) -> int {
        total_key(self.bits)
    }

    pub open spec fn spec_ge(self, other: Year) -> bool {
        ieee_ge(self.bits, other.bits)
    }

    /// The year whose single-precision bit pattern is `bits`.
    pub fn from_bits(bits: u32) -> (y: Year)
        ensures
            y.bits == bits,
    {
        Year { bits }
    }

    /// The bit pattern of this year.
    pub fn to_bits(&self) -> (bits: u32)
        ensures
            bits == self.bits,
    {
        self.bits
    }

    /// The position of this year in the total order of `f32::total_cmp`.
    pub fn total_key(&self) -> (k: i64)
        ensures
            k == self.key(),
    {
        if self.bits >= SIGN_BIT {
            0x7FFF_FFFFi64 - self.bits as i64
        } else {
            self.bits as i64
        }
    }

    /// Whether this is a NaN.
    pub fn is_nan(&self) -> (r: bool)
        ensures
            r == is_nan_bits(self.bits),
    {
        let mag = if self.bits >= SIGN_BIT { self.bits - SIGN_BIT } else { self.bits };
        mag > INFINITY_BITS
    }

    /// `self >= other` as `f32` compares: false if either is a NaN.
    pub fn ge(&self, other: &Year) -> (r: bool)
        ensures
            r == self.spec_ge(*other),
    {
        if self.is_nan() || other.is_nan() {
            return false;
        }
        let a = if self.bits >= SIGN_BIT { self.bits - SIGN_BIT } else { self.bits };
        let b = if other.bits >= SIGN_BIT { other.bits - SIGN_BIT } else { other.bits };
        if a == 0 && b == 0 {
            true
        } else {
            self.total_key() >= other.total_key()
        }
    }
}

/// A colour as the four bytes (red, green, blue, alpha) that the preview's
/// colour type stores; the colour channels are premultiplied by alpha.
#[derive(Clone, Copy, Debug, PartialEq, Eq, Structural)]
pub struct Color {
    pub r: u8,
    pub g: u8,
    pub b: u8,
    pub a: u8,
}

impl Color {
    pub open spec fn channels(self) -> (u8, u8, u8, u8) {
        (self.r, self.g, self.b, self.a)
    }

    /// An opaque colour.
    pub fn from_rgb(r: u8, g: u8, b: u8) -> (c: Color)
        ensures
            c == (Color { r, g, b, a: 255 }),
    {
        Color { r, g, b, a: 255 }
    }
}

/// One entry of the CV: a titled span of time drawn as a card beside the
/// axis.
#[derive(Clone, Debug)]
pub struct TimelineBlock {
    pub title: String,
    pub subtitle: Option<String>,
    pub start_year: Year,
    pub end_year: Year,
    pub color: Color,
}

/// The whole timeline: the range of years shown on the axis and its blocks.
#[derive(Clone, Debug)]
pub struct Timeline {
    pub start_year: Year,
    pub end_year: Year,
    pub blocks: Vec<TimelineBlock>,
}

/// Bit pattern of `2020.0`.
pub const YEAR_2020: u32 = 0x44FC_8000;

/// Bit pattern of `2021.0`.
pub const YEAR_2021: u32 = 0x44FC_A000;

/// Bit pattern of `2015.0`.
pub const YEAR_2015: u32 = 0x44FB_E000;

/// Bit pattern of `2026.0`.
pub const YEAR_2026: u32 = 0x44FD_4000;

impl Default for TimelineBlock {
    /// "New block", no subtitle, 2020.0 to 2021.0, in blue (66, 133, 244).
    fn default() -> (b: Self)
        ensures
            b.title@ == "New block"@,
            b.subtitle.is_none(),
            b.start_year.bits == YEAR_2020,
            b.end_year.bits == YEAR_2021,
            b.color == (Color { r: 66, g: 133, b: 244, a: 255 }),
    {
        TimelineBlock {
            title: String::from_str("New block"),
            subtitle: None,
            start_year: Year::from_bits(YEAR_2020),
            end_year: Year::from_bits(YEAR_2021),
            color: Color::from_rgb(66, 133, 244),
        }
    }
}

impl Default for Timeline {
    /// The years 2015.0 to 2026.0 and no blocks.
    fn default() -> (t: Self)
        ensures
            t.start_year.bits == YEAR_2015,
            t.end_year.bits == YEAR_2026,
            t.blocks@.len() == 0,
    {
        Timeline {
            start_year: Year::from_bits(YEAR_2015),
            end_year: Year::from_bits(YEAR_2026),
            blocks: Vec::new(),
        }
    }
}

} // verus!
