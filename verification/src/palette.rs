//! The colours of the window.

use vstd::prelude::*;

verus! {

/// A colour: red, green and blue.
#[derive(Clone, Copy, Debug, PartialEq, Eq, Structural)]
pub struct Rgb {
    pub r: u8,
    pub g: u8,
    pub b: u8,
}

/// The colours of a theme.
#[derive(Clone, Copy, Debug, PartialEq, Eq, Structural)]
pub struct Palette {
    pub accent: Rgb,
    pub accent_soft: Rgb,
    pub good: Rgb,
    pub good_bg: Rgb,
    pub warn: Rgb,
    pub bad: Rgb,
    pub bad_bg: Rgb,
    pub ink: Rgb,
    pub ink_dim: Rgb,
    pub kind_file: Rgb,
    pub kind_dir: Rgb,
    pub main_bg: Rgb,
    pub sidebar_bg: Rgb,
    pub card_bg: Rgb,
    pub nav_bg: Rgb,
    pub widget_bg: Rgb,
    pub widget_hover: Rgb,
}

/// The colours of the dark theme.
pub open spec fn dark_colors() -> Palette {
    Palette {
        accent: Rgb { r: 47, g: 129, b: 247 },
        accent_soft: Rgb { r: 31, g: 72, b: 133 },
        good: Rgb { r: 63, g: 185, b: 80 },
        good_bg: Rgb { r: 24, g: 64, b: 36 },
        warn: Rgb { r: 210, g: 153, b: 34 },
        bad: Rgb { r: 248, g: 81, b: 73 },
        bad_bg: Rgb { r: 76, g: 28, b: 30 },
        ink: Rgb { r: 230, g: 237, b: 243 },
        ink_dim: Rgb { r: 139, g: 148, b: 158 },
        kind_file: Rgb { r: 121, g: 192, b: 255 },
        kind_dir: Rgb { r: 227, g: 179, b: 65 },
        main_bg: Rgb { r: 13, g: 17, b: 23 },
        sidebar_bg: Rgb { r: 7, g: 10, b: 16 },
        card_bg: Rgb { r: 19, g: 25, b: 34 },
        nav_bg: Rgb { r: 15, g: 20, b: 29 },
        widget_bg: Rgb { r: 30, g: 36, b: 46 },
        widget_hover: Rgb { r: 38, g: 45, b: 58 },
    }
}

/// The colours of the light theme.
pub open spec fn light_colors() -> Palette {
    Palette {
        accent: Rgb { r: 9, g: 105, b: 218 },
        accent_soft: Rgb { r: 208, g: 228, b: 252 },
        good: Rgb { r: 40, g: 158, b: 74 },
        good_bg: Rgb { r: 218, g: 245, b: 225 },
        warn: Rgb { r: 154, g: 103, b: 0 },
        bad: Rgb { r: 207, g: 34, b: 46 },
        bad_bg: Rgb { r: 255, g: 222, b: 222 },
        ink: Rgb { r: 26, g: 29, b: 35 },
        ink_dim: Rgb { r: 99, g: 108, b: 120 },
        kind_file: Rgb { r: 9, g: 105, b: 218 },
        kind_dir: Rgb { r: 154, g: 103, b: 0 },
        main_bg: Rgb { r: 242, g: 244, b: 247 },
        sidebar_bg: Rgb { r: 226, g: 230, b: 235 },
        card_bg: Rgb { r: 255, g: 255, b: 255 },
        nav_bg: Rgb { r: 255, g: 255, b: 255 },
        widget_bg: Rgb { r: 228, g: 232, b: 237 },
        widget_hover: Rgb { r: 210, g: 216, b: 224 },
    }
}

impl Palette {
    /// The colours of the dark theme.
    pub fn dark() -> (r: Palette)
        ensures
            r == dark_colors(),
    {
        Palette {
            accent: Rgb { r: 47, g: 129, b: 247 },
            accent_soft: Rgb { r: 31, g: 72, b: 133 },
            good: Rgb { r: 63, g: 185, b: 80 },
            good_bg: Rgb { r: 24, g: 64, b: 36 },
            warn: Rgb { r: 210, g: 153, b: 34 },
            bad: Rgb { r: 248, g: 81, b: 73 },
            bad_bg: Rgb { r: 76, g: 28, b: 30 },
            ink: Rgb { r: 230, g: 237, b: 243 },
            ink_dim: Rgb { r: 139, g: 148, b: 158 },
            kind_file: Rgb { r: 121, g: 192, b: 255 },
            kind_dir: Rgb { r: 227, g: 179, b: 65 },
            main_bg: Rgb { r: 13, g: 17, b: 23 },
            sidebar_bg: Rgb { r: 7, g: 10, b: 16 },
            card_bg: Rgb { r: 19, g: 25, b: 34 },
            nav_bg: Rgb { r: 15, g: 20, b: 29 },
            widget_bg: Rgb { r: 30, g: 36, b: 46 },
            widget_hover: Rgb { r: 38, g: 45, b: 58 },
        }
    }

    /// The colours of the light theme.
    pub fn light() -> (r: Palette)
        ensures
            r == light_colors(),
    {
        Palette {
            accent: Rgb { r: 9, g: 105, b: 218 },
            accent_soft: Rgb { r: 208, g: 228, b: 252 },
            good: Rgb { r: 40, g: 158, b: 74 },
            good_bg: Rgb { r: 218, g: 245, b: 225 },
            warn: Rgb { r: 154, g: 103, b: 0 },
            bad: Rgb { r: 207, g: 34, b: 46 },
            bad_bg: Rgb { r: 255, g: 222, b: 222 },
            ink: Rgb { r: 26, g: 29, b: 35 },
            ink_dim: Rgb { r: 99, g: 108, b: 120 },
            kind_file: Rgb { r: 9, g: 105, b: 218 },
            kind_dir: Rgb { r: 154, g: 103, b: 0 },
            main_bg: Rgb { r: 242, g: 244, b: 247 },
            sidebar_bg: Rgb { r: 226, g: 230, b: 235 },
            card_bg: Rgb { r: 255, g: 255, b: 255 },
            nav_bg: Rgb { r: 255, g: 255, b: 255 },
            widget_bg: Rgb { r: 228, g: 232, b: 237 },
            widget_hover: Rgb { r: 210, g: 216, b: 224 },
        }
    }
}

/// The colours that the window takes on.
pub fn set_palette(dark: bool) -> (r: Palette)
    ensures
        r == if dark {
            dark_colors()
        } else {
            light_colors()
        },
{
    if dark {
        Palette::dark()
    } else {
        Palette::light()
    }
}

} // verus!
