//! The colour palettes of the app, GitHub light and GitHub dark, each colour
//! a `0xRRGGBB` value, and the choice between them.

use vstd::prelude::*;
use crate::settings::{exact_scheme, opt_chars, theme_exact};

verus! {

/// The colours of one scheme.
#[derive(Clone, Copy, Debug, PartialEq, Eq, Structural)]
pub struct Palette {
    pub dark: bool,
    pub bg: u32,
    pub panel: u32,
    pub border: u32,
    pub text: u32,
    pub muted: u32,
    pub accent: u32,
    pub sel: u32,
    pub add_bg: u32,
    pub add_mark: u32,
    pub del_bg: u32,
    pub del_mark: u32,
    pub add_fg: u32,
    pub del_fg: u32,
    pub hunk_bg: u32,
}

/// GitHub light.
pub open spec fn light_spec() -> Palette {
    Palette {
        dark: false,
        bg: 0xffffff,
        panel: 0xf6f8fa,
        border: 0xd0d7de,
        text: 0x1f2328,
        muted: 0x656d76,
        accent: 0x0969da,
        sel: 0xddf4ff,
        add_bg: 0xe6ffec,
        add_mark: 0xabf2bc,
        del_bg: 0xffebe9,
        del_mark: 0xff8182,
        add_fg: 0x1a7f37,
        del_fg: 0xcf222e,
        hunk_bg: 0xddf4ff,
    }
}

/// GitHub dark.
pub open spec fn dark_spec() -> Palette {
    Palette {
        dark: true,
        bg: 0x0d1117,
        panel: 0x161b22,
        border: 0x30363d,
        text: 0xe6edf3,
        muted: 0x8b949e,
        accent: 0x2f81f7,
        sel: 0x1f6feb,
        add_bg: 0x12261e,
        add_mark: 0x2ea043,
        del_bg: 0x25171c,
        del_mark: 0xf85149,
        add_fg: 0x3fb950,
        del_fg: 0xf85149,
        hunk_bg: 0x132e4d,
    }
}

impl Palette {
    /// The light palette.
    pub fn light() -> (t: Palette)
        ensures
            t == light_spec(),
    {
        Palette {
            dark: false,
            bg: 0xffffff,
            panel: 0xf6f8fa,
            border: 0xd0d7de,
            text: 0x1f2328,
            muted: 0x656d76,
            accent: 0x0969da,
            sel: 0xddf4ff,
            add_bg: 0xe6ffec,
            add_mark: 0xabf2bc,
            del_bg: 0xffebe9,
            del_mark: 0xff8182,
            add_fg: 0x1a7f37,
            del_fg: 0xcf222e,
            hunk_bg: 0xddf4ff,
        }
    }

    /// The dark palette.
    pub fn dark() -> (t: Palette)
        ensures
            t == dark_spec(),
    {
        Palette {
            dark: true,
            bg: 0x0d1117,
            panel: 0x161b22,
            border: 0x30363d,
            text: 0xe6edf3,
            muted: 0x8b949e,
            accent: 0x2f81f7,
            sel: 0x1f6feb,
            add_bg: 0x12261e,
            add_mark: 0x2ea043,
            del_bg: 0x25171c,
            del_mark: 0xf85149,
            add_fg: 0x3fb950,
            del_fg: 0xf85149,
            hunk_bg: 0x132e4d,
        }
    }

    /// The palette for the scheme: the override variable wins when it is
    /// exactly `dark` or `light`; otherwise the desktop decides, where no
    /// answer (a headless session) means light.
    pub fn detect(override_value: Option<&str>, desktop_dark: Option<bool>) -> (t: Palette)
        ensures
            t == (if t.dark { dark_spec() } else { light_spec() }),
            t.dark == match exact_scheme(opt_chars(override_value)) {
                Some(d) => d,
                None => desktop_dark == Some(true),
            },
    {
        match theme_exact(override_value) {
            Some(true) => Palette::dark(),
            Some(false) => Palette::light(),
            None => match desktop_dark {
                Some(true) => Palette::dark(),
                _ => Palette::light(),
            },
        }
    }
}

/// The red, green and blue bytes of a `0xRRGGBB` colour; higher bits are
/// ignored.
pub fn channels(hex: u32) -> (c: (u8, u8, u8))
    ensures
        c.0 == (hex / 0x10000) % 0x100,
        c.1 == (hex / 0x100) % 0x100,
        c.2 == hex % 0x100,
{
    let r = (hex >> 16) as u8;
    let g = (hex >> 8) as u8;
    let b = hex as u8;
    assert(r == (hex / 0x10000) % 0x100) by (bit_vector)
        requires
            r == (hex >> 16) as u8,
    ;
    assert(g == (hex / 0x100) % 0x100) by (bit_vector)
        requires
            g == (hex >> 8) as u8,
    ;
    assert(b == hex % 0x100) by (bit_vector)
        requires
            b == hex as u8,
    ;
    (r, g, b)
}

/// The sum of a `0xRRGGBB` colour's three channels: how light it is.
pub open spec fn lightness(hex: u32) -> int {
    (hex / 0x10000) % 0x100 + (hex / 0x100) % 0x100 + hex % 0x100
}

/// The light palette draws dark text on a light background and the dark
/// palette light text on a dark one; in both, added lines are marked and
/// written in a green (more green than red) and removed lines in a red (more
/// red than green), and each palette says which scheme it is.
pub proof fn law_palettes_read_as_their_scheme()
    ensures
        !light_spec().dark && dark_spec().dark,
        lightness(light_spec().bg) > lightness(light_spec().text),
        lightness(dark_spec().bg) < lightness(dark_spec().text),
        forall|p: Palette|
            p == light_spec() || p == dark_spec() ==> {
                &&& (p.add_fg / 0x100) % 0x100 > (p.add_fg / 0x10000) % 0x100
                &&& (p.add_mark / 0x100) % 0x100 > (p.add_mark / 0x10000) % 0x100
                &&& (p.del_fg / 0x10000) % 0x100 > (p.del_fg / 0x100) % 0x100
                &&& (p.del_mark / 0x10000) % 0x100 > (p.del_mark / 0x100) % 0x100
            },
{
}

} // verus!
