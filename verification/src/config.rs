//! Settings that persist between runs.

use vstd::prelude::*;

verus! {

/// Colour representation used for automatic copies (`copy_on_select`).
#[derive(Debug, Clone, Copy, PartialEq, Eq, Structural)]
pub enum ColorFormat {
    Hex,
    Rgb,
    Hsl,
}

impl Default for ColorFormat {
    fn default() -> (r: Self)
        ensures
            r == ColorFormat::Hex,
    {
        ColorFormat::Hex
    }
}

impl ColorFormat {
    /// The place of a format among the choices that are offered.
    pub open spec fn place(self) -> int {
        match self {
            ColorFormat::Hex => 0,
            ColorFormat::Rgb => 1,
            ColorFormat::Hsl => 2,
        }
    }

    /// The place of the format among the choices that are offered.
    pub fn position(self) -> (r: usize)
        ensures
            r == self.place(),
    {
        match self {
            ColorFormat::Hex => 0,
            ColorFormat::Rgb => 1,
            ColorFormat::Hsl => 2,
        }
    }

    /// The format at a place, if there is one.
    pub fn at_position(position: usize) -> (r: Option<ColorFormat>)
        ensures
            r == format_at(position as int),
    {
        match position {
            0 => Some(ColorFormat::Hex),
            1 => Some(ColorFormat::Rgb),
            2 => Some(ColorFormat::Hsl),
            _ => None,
        }
    }
}

/// The format at a place, if there is one.
pub open spec fn format_at(place: int) -> Option<ColorFormat> {
    if place == 0 {
        Some(ColorFormat::Hex)
    } else if place == 1 {
        Some(ColorFormat::Rgb)
    } else if place == 2 {
        Some(ColorFormat::Hsl)
    } else {
        None
    }
}

/// The settings.
#[derive(Debug, Clone, PartialEq, Eq)]
pub struct Config {
    /// A token kept from an earlier capture session.
    pub restore_token: Option<String>,
    /// Automatically copy the picked colour to the clipboard.
    pub copy_on_select: bool,
    /// Colour format used for automatic copies.
    pub default_color_format: ColorFormat,
}

impl Default for Config {
    fn default() -> (r: Self)
        ensures
            r.restore_token is None,
            !r.copy_on_select,
            r.default_color_format == ColorFormat::Hex,
    {
        Config {
            restore_token: None,
            copy_on_select: false,
            default_color_format: ColorFormat::Hex,
        }
    }
}

} // verus!
