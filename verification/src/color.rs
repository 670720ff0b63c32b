use vstd::prelude::*;

verus! {

/// Largest value that denotes a colour in `0xRRGGBB` form.
pub const MAX_HEX_COLOR: u32 = 0xFF_FFFF;

/// Represents a color with red, green, and blue components.
pub struct Color {
    r: u8,
    g: u8,
    b: u8,
}

impl View for Color {
    type V = (u8, u8, u8);

    /// The red, green and blue components, in that order.
    closed spec fn view(&self) -> (u8, u8, u8) {
        (self.r, self.g, self.b)
    }
}

/// The components that `0xRRGGBB` denotes.
pub open spec fn hex_components(hex: int) -> (u8, u8, u8) {
    ((hex / 0x1_0000 % 0x100) as u8, (hex / 0x100 % 0x100) as u8, (hex % 0x100) as u8)
}

/// The `0xRRGGBB` value of the given components.
pub open spec fn components_hex(c: (u8, u8, u8)) -> int {
    c.0 * 0x1_0000 + c.1 * 0x100 + c.2
}

/// Reading a colour back from its `0xRRGGBB` value gives the same value:
/// `to_hex(from_hex(hex)) == hex` for every `hex` that `from_hex` accepts.
pub proof fn lemma_hex_round_trip(hex: u32)
    requires
        hex <= MAX_HEX_COLOR,
    ensures
        components_hex(hex_components(hex as int)) == hex,
{
    let h = hex as int;
    assert(h == (h / 0x1_0000 % 0x100) * 0x1_0000 + (h / 0x100 % 0x100) * 0x100 + h % 0x100)
        by (nonlinear_arith)
        requires
            0 <= h <= 0xFF_FFFF,
    ;
}

/// A colour's `0xRRGGBB` value is accepted by `from_hex` and gives back the
/// same components: `from_hex(c.to_hex()) == Some(c)`.
pub proof fn lemma_components_round_trip(c: (u8, u8, u8))
    ensures
        0 <= components_hex(c) <= MAX_HEX_COLOR,
        hex_components(components_hex(c)) == c,
{
    let (r, g, b) = (c.0 as int, c.1 as int, c.2 as int);
    let h = components_hex(c);
    assert(0 <= h <= 0xFF_FFFF && h / 0x1_0000 % 0x100 == r && h / 0x100 % 0x100 == g && h % 0x100
        == b) by (nonlinear_arith)
        requires
            0 <= r < 0x100,
            0 <= g < 0x100,
            0 <= b < 0x100,
            h == r * 0x1_0000 + g * 0x100 + b,
    ;
}

impl Color {
    /// Returns the red component of the color.
    pub fn r(&self) -> (res: u8)
        ensures
            res == self@.0,
    {
        self.r
    }

    /// Returns the green component of the color.
    pub fn g(&self) -> (res: u8)
        ensures
            res == self@.1,
    {
        self.g
    }

    /// Returns the blue component of the color.
    pub fn b(&self) -> (res: u8)
        ensures
            res == self@.2,
    {
        self.b
    }

    /// Creates a `Color` from a value in `0xRRGGBB` form; `None` when the value
    /// exceeds `0xFFFFFF`.
    pub fn from_hex(hex: u32) -> (res: Option<Color>)
        ensures
            res is Some <==> hex <= MAX_HEX_COLOR,
            res matches Some(c) ==> c@ == hex_components(hex as int),
            res matches Some(c) ==> c@.0 * 0x1_0000 + c@.1 * 0x100 + c@.2 == hex,
    {
        if hex > MAX_HEX_COLOR {
            return None;
        }
        let r = ((hex >> 16) & 0xFF) as u8;
        let g = ((hex >> 8) & 0xFF) as u8;
        let b = (hex & 0xFF) as u8;
        assert(((hex >> 16) & 0xFF) == hex / 0x1_0000 % 0x100) by (bit_vector);
        assert(((hex >> 8) & 0xFF) == hex / 0x100 % 0x100) by (bit_vector);
        assert((hex & 0xFF) == hex % 0x100) by (bit_vector);
        proof {
            lemma_hex_round_trip(hex);
        }
        Some(Color { r, g, b })
    }

    /// Converts the color to its `0xRRGGBB` value.
    pub fn to_hex(&self) -> (res: i32)
        ensures
            res == components_hex(self@),
            res == self@.0 * 0x1_0000 + self@.1 * 0x100 + self@.2,
    {
        let r = self.r as i32;
        let g = self.g as i32;
        let b = self.b as i32;
        assert(r << 16 == r * 0x1_0000 && g << 8 == g * 0x100) by (bit_vector)
            requires
                0 <= r < 0x100,
                0 <= g < 0x100,
        ;
        (r << 16) + (g << 8) + b
    }
}

} // verus!
