//! What the program remembers.
//!
//! A file that was damaged or edited by hand must not keep the dictionary from opening:
//! values out of range are brought back into it.
use crate::search::Params;
use crate::single::Single;
use crate::tray::{Hotkey, MOD_ALT};
use vstd::prelude::*;

verus! {

/// 458 by 632 points: narrow and high, as entries grow downwards.
pub const WINDOW_DEFAULT: [u32; 2] = [0x43E5_0000, 0x441E_0000];

/// 400 by 320 points: below that the two columns of an entry do not fit.
pub const WINDOW_MIN: [u32; 2] = [0x43C8_0000, 0x43A0_0000];

/// 4000 points.
pub const WINDOW_MAX: u32 = 0x457A_0000;

#[derive(Clone, Copy, PartialEq, Eq, Debug, Structural)]
pub enum Theme {
    /// As the system has it.
    Auto,
    Light,
    Dark,
}

impl Theme {
    pub open spec fn label_spec(self) -> Seq<char> {
        match self {
            Theme::Auto => "跟随系统"@,
            Theme::Light => "浅色"@,
            Theme::Dark => "深色"@,
        }
    }

    pub fn label(self) -> (r: &'static str)
        ensures
            r@ == self.label_spec(),
    {
        match self {
            Theme::Auto => "跟随系统",
            Theme::Light => "浅色",
            Theme::Dark => "深色",
        }
    }

    /// Whether the interface is dark, given whether the system is.
    pub fn is_dark(self, system: bool) -> (r: bool)
        ensures
            r == match self {
                Theme::Auto => system,
                Theme::Light => false,
                Theme::Dark => true,
            },
    {
        match self {
            Theme::Auto => system,
            Theme::Light => false,
            Theme::Dark => true,
        }
    }
}

#[derive(Clone, Copy, Debug)]
pub struct Settings {
    pub hotkey: Hotkey,
    /// The size of the window in points. It is noted on every change, save when maximized.
    pub window: [Single; 2],
    /// Stay on top.
    pub pinned: bool,
    /// Closing the window hides it in the tray.
    pub close_to_tray: bool,
    /// Start in the tray, without a window.
    pub start_hidden: bool,
    pub theme: Theme,
    pub speed: Single,
    /// Say a word in a sentence. Without it the word is said alone, to compare the two.
    pub carrier: bool,
    pub exact_bonus: Single,
    pub lambda: Single,
    pub secondary: Single,
    pub max_secondary: usize,
    pub stable_order: bool,
    pub show_scores: bool,
}

impl Default for Settings {
    fn default() -> (r: Self)
        ensures
            r.hotkey == (Hotkey { mods: MOD_ALT, vk: 0x31 }),
            r.window@ == seq![Single { bits: WINDOW_DEFAULT@[0] }, Single { bits: WINDOW_DEFAULT@[1] }],
            !r.pinned,
            r.close_to_tray,
            !r.start_hidden,
            r.theme == Theme::Auto,
            r.speed.bits == 0x3F80_0000,
            r.carrier,
            r.exact_bonus.bits == 0x40C0_0000,
            r.lambda.bits == 0x3EB3_3333,
            r.secondary.bits == 0x3F00_0000,
            r.max_secondary == 3,
            r.stable_order,
            !r.show_scores,
    {
        let p = Params::default();
        let window: [Single; 2] = [
            Single { bits: WINDOW_DEFAULT[0] },
            Single { bits: WINDOW_DEFAULT[1] },
        ];
        assert(window@ =~= seq![Single { bits: WINDOW_DEFAULT@[0] }, Single { bits: WINDOW_DEFAULT@[1] }]);
        Settings {
            hotkey: Hotkey::default(),
            window,
            pinned: false,
            close_to_tray: true,
            start_hidden: false,
            theme: Theme::Auto,
            speed: Single { bits: 0x3F80_0000 },
            carrier: true,
            exact_bonus: p.exact_bonus,
            lambda: p.lambda,
            secondary: p.secondary,
            max_secondary: p.max_secondary,
            stable_order: true,
            show_scores: false,
        }
    }
}

/// A side of the window as it is used: the default for a number that is none, infinite or too
/// small to work with, and never more than the greatest.
pub open spec fn usable_side(x: Single, least: Single, default: Single) -> Single {
    let y = if x.magnitude() >= 0x7f80_0000 || x.less_spec(least) {
        default
    } else {
        x
    };
    let top = Single { bits: WINDOW_MAX };
    if top.less_spec(y) {
        top
    } else {
        y
    }
}

fn side(x: Single, least: Single, default: Single) -> (r: Single)
    ensures
        r == usable_side(x, least, default),
{
    let y = if !x.is_finite() || x.less(least) {
        default
    } else {
        x
    };
    let top = Single { bits: WINDOW_MAX };
    if top.less(y) {
        top
    } else {
        y
    }
}

/// A value held between two bounds, given by their bits.
pub open spec fn held(x: Single, lo: u32, hi: u32) -> Single {
    x.clamp_spec(Single { bits: lo }, Single { bits: hi })
}

/// `r` is what settings `s` are brought to: a valid hotkey, a window one can open, a speed of
/// 0.5 to 2, a bonus of 0 to 24, λ of 0 to 4, a share of 0 to 1 and at most 8 hits of the
/// second class. All else stays.
pub open spec fn brought_into_range(s: Settings, r: Settings) -> bool {
    &&& r.hotkey == if s.hotkey.valid() {
            s.hotkey
        } else {
            Hotkey { mods: MOD_ALT, vk: 0x31 }
        }
    &&& r.window@[0] == usable_side(
            s.window@[0],
            Single { bits: WINDOW_MIN@[0] },
            Single { bits: WINDOW_DEFAULT@[0] },
        )
    &&& r.window@[1] == usable_side(
            s.window@[1],
            Single { bits: WINDOW_MIN@[1] },
            Single { bits: WINDOW_DEFAULT@[1] },
        )
    &&& r.speed == held(s.speed, 0x3F00_0000, 0x4000_0000)
    &&& r.exact_bonus == held(s.exact_bonus, 0, 0x41C0_0000)
    &&& r.lambda == held(s.lambda, 0, 0x4080_0000)
    &&& r.secondary == held(s.secondary, 0, 0x3F80_0000)
    &&& r.max_secondary == if s.max_secondary < 8 {
            s.max_secondary
        } else {
            8
        }
    &&& r.pinned == s.pinned
    &&& r.close_to_tray == s.close_to_tray
    &&& r.start_hidden == s.start_hidden
    &&& r.theme == s.theme
    &&& r.carrier == s.carrier
    &&& r.stable_order == s.stable_order
    &&& r.show_scores == s.show_scores
}

/// The parameters that settings give.
pub open spec fn params_of(s: Settings) -> Params {
    Params {
        scale: Single { bits: 0x4100_0000 },
        exact_bonus: s.exact_bonus,
        lambda: s.lambda,
        secondary: s.secondary,
        max_secondary: s.max_secondary,
        limit: 8,
        budget: 250_000,
    }
}

/// Settings that give these parameters.
pub open spec fn with_params(s: Settings, p: Params) -> Settings {
    Settings {
        exact_bonus: p.exact_bonus,
        lambda: p.lambda,
        secondary: p.secondary,
        max_secondary: p.max_secondary,
        ..s
    }
}

impl Settings {
    /// Brings values that were edited by hand back to where they can be used.
    pub fn sanitized(self) -> (r: Settings)
        ensures
            brought_into_range(self, r),
    {
        let w: Single = side(
            self.window[0],
            Single { bits: WINDOW_MIN[0] },
            Single { bits: WINDOW_DEFAULT[0] },
        );
        let h: Single = side(
            self.window[1],
            Single { bits: WINDOW_MIN[1] },
            Single { bits: WINDOW_DEFAULT[1] },
        );
        Settings {
            hotkey: if self.hotkey.is_valid() {
                self.hotkey
            } else {
                Hotkey::default()
            },
            window: [w, h],
            speed: self.speed.clamp(Single { bits: 0x3F00_0000 }, Single { bits: 0x4000_0000 }),
            exact_bonus: self.exact_bonus.clamp(Single { bits: 0 }, Single { bits: 0x41C0_0000 }),
            lambda: self.lambda.clamp(Single { bits: 0 }, Single { bits: 0x4080_0000 }),
            secondary: self.secondary.clamp(Single { bits: 0 }, Single { bits: 0x3F80_0000 }),
            max_secondary: if self.max_secondary < 8 {
                self.max_secondary
            } else {
                8
            },
            ..self
        }
    }

    /// The parameters of a lookup.
    pub fn params(&self) -> (r: Params)
        ensures
            r == params_of(*self),
    {
        let d = Params::default();
        Params {
            exact_bonus: self.exact_bonus,
            lambda: self.lambda,
            secondary: self.secondary,
            max_secondary: self.max_secondary,
            ..d
        }
    }

    /// Takes over the parameters of a lookup that can be set.
    pub fn apply_params(&mut self, p: &Params)
        ensures
            *final(self) == with_params(*old(self), *p),
    {
        self.exact_bonus = p.exact_bonus;
        self.lambda = p.lambda;
        self.secondary = p.secondary;
        self.max_secondary = p.max_secondary;
    }
}

impl Settings {
    /// Takes over how the window closes and starts. Returns whether anything changed.
    pub fn tick(&mut self, close_to_tray: bool, start_hidden: bool) -> (changed: bool)
        ensures
            *final(self) == (Settings { close_to_tray, start_hidden, ..*old(self) }),
            changed == (close_to_tray != old(self).close_to_tray || start_hidden != old(
                self,
            ).start_hidden),
    {
        let changed: bool = close_to_tray != self.close_to_tray || start_hidden
            != self.start_hidden;
        self.close_to_tray = close_to_tray;
        self.start_hidden = start_hidden;
        changed
    }

    /// Takes over a theme. Where it is another one, returns whether the interface is dark now.
    pub fn pick_theme(&mut self, theme: Theme, system_dark: bool) -> (r: Option<bool>)
        ensures
            *final(self) == (Settings { theme, ..*old(self) }),
            r == if theme == old(self).theme {
                None
            } else {
                Some(
                    match theme {
                        Theme::Auto => system_dark,
                        Theme::Light => false,
                        Theme::Dark => true,
                    },
                )
            },
    {
        if theme == self.theme {
            return None;
        }
        self.theme = theme;
        Some(theme.is_dark(system_dark))
    }
}

/// Settings that were brought into range stay as they are when it is done again.
pub proof fn law_sanitizing_twice_changes_nothing(a: Settings, b: Settings, c: Settings)
    requires
        brought_into_range(a, b),
        brought_into_range(b, c),
    ensures
        c.hotkey == b.hotkey,
        c.window@ == b.window@,
        c.pinned == b.pinned,
        c.close_to_tray == b.close_to_tray,
        c.start_hidden == b.start_hidden,
        c.theme == b.theme,
        c.speed == b.speed,
        c.carrier == b.carrier,
        c.exact_bonus == b.exact_bonus,
        c.lambda == b.lambda,
        c.secondary == b.secondary,
        c.max_secondary == b.max_secondary,
        c.stable_order == b.stable_order,
        c.show_scores == b.show_scores,
{
    assert(c.window@ =~= b.window@);
}

/// The parameters of a lookup survive a round trip through the settings, but for those that
/// cannot be set.
pub proof fn law_params_survive_a_round_trip(s: Settings, p: Params)
    ensures
        params_of(with_params(s, p)) == (Params {
            exact_bonus: p.exact_bonus,
            lambda: p.lambda,
            secondary: p.secondary,
            max_secondary: p.max_secondary,
            ..params_of(s)
        }),
{
}

/// Where the settings are kept.
#[derive(Clone, Copy, Debug, PartialEq, Eq, Structural)]
pub enum SettingsPlace {
    /// Below this root.
    Root(usize),
    /// In the current directory, for want of a root.
    Here,
}

/// The settings are below the first root that has a file, else below the first root.
/// `exists` says for each root whether it has one.
pub fn path(exists: &Vec<bool>) -> (r: SettingsPlace)
    ensures
        match r {
            SettingsPlace::Root(i) => i < exists.len() && (exists@[i as int] && (forall|j: int|
                0 <= j < i ==> !exists@[j]) || i == 0 && forall|j: int|
                0 <= j < exists.len() ==> !exists@[j]),
            SettingsPlace::Here => exists.len() == 0,
        },
{
    let mut i: usize = 0;
    while i < exists.len()
        invariant
            i <= exists.len(),
            forall|j: int| 0 <= j < i ==> !exists@[j],
        decreases exists.len() - i,
    {
        if exists[i] {
            return SettingsPlace::Root(i);
        }
        i = i + 1;
    }
    if exists.len() > 0 {
        SettingsPlace::Root(0)
    } else {
        SettingsPlace::Here
    }
}

} // verus!
