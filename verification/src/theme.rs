//! Colours.
//!
//! Only tones are coloured; the rest is ink and grey. Whether there is colour at all tells a
//! Chinese entry from an English one.
use vstd::prelude::*;

verus! {

/// A colour.
#[derive(Clone, Copy, Debug, PartialEq, Eq, Structural)]
pub struct Rgb {
    pub r: u8,
    pub g: u8,
    pub b: u8,
}

/// The colour that a number such as `0xB03A48` writes.
pub open spec fn rgb_spec(hex: u32) -> Rgb {
    Rgb {
        r: (hex / 0x1_0000 % 0x100) as u8,
        g: (hex / 0x100 % 0x100) as u8,
        b: (hex % 0x100) as u8,
    }
}

pub fn rgb(hex: u32) -> (r: Rgb)
    ensures
        r == rgb_spec(hex),
{
    Rgb {
        r: (hex / 0x1_0000 % 0x100) as u8,
        g: (hex / 0x100 % 0x100) as u8,
        b: (hex % 0x100) as u8,
    }
}

#[derive(Clone, Copy, Debug)]
pub struct Palette {
    pub ground: Rgb,
    pub ink: Rgb,
    pub ink_soft: Rgb,
    pub muted: Rgb,
    pub faint: Rgb,
    /// Fainter still, for the hint in the empty input field, which must not look like input.
    pub hint: Rgb,
    pub rule: Rgb,
    pub hit: Rgb,
    /// Tone 0 to 4: grey, rose, amber, moss, indigo.
    pub tone: [Rgb; 5],
}

/// The colours of a palette, tones last.
pub open spec fn palette_is(p: Palette, c: Seq<u32>) -> bool {
    &&& p.ground == rgb_spec(c[0])
    &&& p.ink == rgb_spec(c[1])
    &&& p.ink_soft == rgb_spec(c[2])
    &&& p.muted == rgb_spec(c[3])
    &&& p.faint == rgb_spec(c[4])
    &&& p.hint == rgb_spec(c[5])
    &&& p.rule == rgb_spec(c[6])
    &&& p.hit == rgb_spec(c[7])
    &&& forall|i: int| 0 <= i < 5 ==> #[trigger] p.tone@[i] == rgb_spec(c[8 + i])
}

pub open spec fn light_colours() -> Seq<u32> {
    seq![
        0xFBFAF8u32,
        0x1A1A19u32,
        0x4A4844u32,
        0x8A8781u32,
        0xB5B2ABu32,
        0xD6D3CCu32,
        0xE4E1DBu32,
        0xEFEDE7u32,
        0x9A9793u32,
        0xB03A48u32,
        0xB4712Au32,
        0x4B7A3Fu32,
        0x3A5F9Eu32,
    ]
}

pub open spec fn dark_colours() -> Seq<u32> {
    seq![
        0x16161Au32,
        0xEDEBE7u32,
        0xC4C1BAu32,
        0x87847Eu32,
        0x5C5A56u32,
        0x3D3B38u32,
        0x2B2B31u32,
        0x232329u32,
        0x8A8782u32,
        0xE0757Fu32,
        0xDCA35Bu32,
        0x84B673u32,
        0x7CA0DCu32,
    ]
}

impl Palette {
    pub fn light() -> (r: Self)
        ensures
            palette_is(r, light_colours()),
    {
        Palette {
            ground: rgb(0xFBFAF8),
            ink: rgb(0x1A1A19),
            ink_soft: rgb(0x4A4844),
            muted: rgb(0x8A8781),
            faint: rgb(0xB5B2AB),
            hint: rgb(0xD6D3CC),
            rule: rgb(0xE4E1DB),
            hit: rgb(0xEFEDE7),
            tone: [rgb(0x9A9793), rgb(0xB03A48), rgb(0xB4712A), rgb(0x4B7A3F), rgb(0x3A5F9E)],
        }
    }

    pub fn dark() -> (r: Self)
        ensures
            palette_is(r, dark_colours()),
    {
        Palette {
            ground: rgb(0x16161A),
            ink: rgb(0xEDEBE7),
            ink_soft: rgb(0xC4C1BA),
            muted: rgb(0x87847E),
            faint: rgb(0x5C5A56),
            hint: rgb(0x3D3B38),
            rule: rgb(0x2B2B31),
            hit: rgb(0x232329),
            tone: [rgb(0x8A8782), rgb(0xE0757F), rgb(0xDCA35B), rgb(0x84B673), rgb(0x7CA0DC)],
        }
    }

    pub fn of(dark: bool) -> (r: Self)
        ensures
            palette_is(
                r,
                if dark {
                    dark_colours()
                } else {
                    light_colours()
                },
            ),
    {
        if dark {
            Palette::dark()
        } else {
            Palette::light()
        }
    }

    /// The colour of a tone; anything but a tone is grey like the neutral one.
    pub fn tone_of(&self, t: u8) -> (r: Rgb)
        ensures
            r == if t < 5 {
                self.tone@[t as int]
            } else {
                self.tone@[0]
            },
    {
        if t < 5 {
            self.tone[t as usize]
        } else {
            self.tone[0]
        }
    }
}

} // verus!
