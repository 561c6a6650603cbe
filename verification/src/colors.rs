use vstd::prelude::*;

verus! {

/// An RGB colour, as the terminal renders it.
#[derive(Clone, Copy, Debug, PartialEq, Eq, Structural)]
pub struct Color {
    pub r: u8,
    pub g: u8,
    pub b: u8,
}

/// Black, as the terminal's palette defines it.
#[verifier::allow_in_spec]
pub fn black() -> Color
    returns
        (Color { r: 0, g: 0, b: 0 }),
{
    Color { r: 0, g: 0, b: 0 }
}

/// White, as the terminal's palette defines it.
#[verifier::allow_in_spec]
pub fn white() -> Color
    returns
        (Color { r: 255, g: 255, b: 255 }),
{
    Color { r: 255, g: 255, b: 255 }
}

/// Red, as the terminal's palette defines it.
#[verifier::allow_in_spec]
pub fn red() -> Color
    returns
        (Color { r: 255, g: 0, b: 0 }),
{
    Color { r: 255, g: 0, b: 0 }
}

/// Dark red, as the terminal's palette defines it.
#[verifier::allow_in_spec]
pub fn dark_red() -> Color
    returns
        (Color { r: 191, g: 0, b: 0 }),
{
    Color { r: 191, g: 0, b: 0 }
}

/// Yellow, as the terminal's palette defines it.
#[verifier::allow_in_spec]
pub fn yellow() -> Color
    returns
        (Color { r: 255, g: 255, b: 0 }),
{
    Color { r: 255, g: 255, b: 0 }
}

/// Orange, as the terminal's palette defines it.
#[verifier::allow_in_spec]
pub fn orange() -> Color
    returns
        (Color { r: 255, g: 127, b: 0 }),
{
    Color { r: 255, g: 127, b: 0 }
}

/// Azure, as the terminal's palette defines it.
#[verifier::allow_in_spec]
pub fn azure() -> Color
    returns
        (Color { r: 0, g: 127, b: 255 }),
{
    Color { r: 0, g: 127, b: 255 }
}

/// Light grey, as the terminal's palette defines it.
#[verifier::allow_in_spec]
pub fn light_grey() -> Color
    returns
        (Color { r: 159, g: 159, b: 159 }),
{
    Color { r: 159, g: 159, b: 159 }
}

/// Darker amber, as the terminal's palette defines it.
#[verifier::allow_in_spec]
pub fn darker_amber() -> Color
    returns
        (Color { r: 127, g: 95, b: 0 }),
{
    Color { r: 127, g: 95, b: 0 }
}

} // verus!
