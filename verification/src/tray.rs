//! The tray icon and the global hotkey: what a message means, and what to do about it.
//!
//! The tray has a thread, a window and a message loop of its own, which run while the main
//! window sleeps. It asks the system for the state of the main window, decides here and acts
//! at once; the interface is told afterwards.
use crate::number::{decimal, push_decimal};
use crate::text::{chars_of, join, join_strs, lemma_texts_push, string_of, texts};
use vstd::prelude::*;
use vstd::slice::*;
use vstd::string::*;

verus! {

// ───────────────────────── hotkeys ─────────────────────────

pub const MOD_ALT: u32 = 0x0001;

pub const MOD_CONTROL: u32 = 0x0002;

pub const MOD_SHIFT: u32 = 0x0004;

pub const MOD_WIN: u32 = 0x0008;

/// Any of the four modifiers.
pub const MOD_ANY: u32 = 0x000F;

/// A global hotkey: the modifier bits of Win32 and a virtual key code.
#[derive(Clone, Copy, Debug, PartialEq, Eq, Structural)]
pub struct Hotkey {
    pub mods: u32,
    pub vk: u32,
}

impl Default for Hotkey {
    /// `Alt + 1`.
    fn default() -> (r: Self)
        ensures
            r == (Hotkey { mods: MOD_ALT, vk: 0x31 }),
    {
        Hotkey { mods: MOD_ALT, vk: 0x31 }
    }
}

/// What is tried in turn where the hotkey asked for is taken: `Alt + 1`, `Ctrl + Shift + D`,
/// `Ctrl + Alt + Z`, `Ctrl + Shift + Space`, `Alt + Shift + D`, `Ctrl + Alt + Q`. A taken
/// hotkey is common, and another one is better than none.
pub open spec fn fallback_list() -> Seq<Hotkey> {
    seq![
        Hotkey { mods: 0x0001, vk: 0x31 },
        Hotkey { mods: 0x0006, vk: 0x44 },
        Hotkey { mods: 0x0003, vk: 0x5A },
        Hotkey { mods: 0x0006, vk: 0x20 },
        Hotkey { mods: 0x0005, vk: 0x44 },
        Hotkey { mods: 0x0003, vk: 0x51 },
    ]
}

/// The fallback hotkeys in the order they are tried.
pub fn fallbacks() -> (r: Vec<Hotkey>)
    ensures
        r@ == fallback_list(),
{
    let r: Vec<Hotkey> = vec![
        Hotkey { mods: 0x0001, vk: 0x31 },
        Hotkey { mods: 0x0006, vk: 0x44 },
        Hotkey { mods: 0x0003, vk: 0x5A },
        Hotkey { mods: 0x0006, vk: 0x20 },
        Hotkey { mods: 0x0005, vk: 0x44 },
        Hotkey { mods: 0x0003, vk: 0x51 },
    ];
    assert(r@ =~= fallback_list());
    r
}

/// A hexadecimal digit in upper case.
pub open spec fn hex_char(d: nat) -> char {
    if d < 10 {
        (48 + d) as u8 as char
    } else {
        (55 + d) as u8 as char
    }
}

/// `n` in upper-case hexadecimal.
pub open spec fn hex(n: nat) -> Seq<char>
    decreases n,
{
    if n < 16 {
        seq![hex_char(n)]
    } else {
        hex(n / 16).push(hex_char(n % 16))
    }
}

/// The name of a key: `Space`, `Enter`, `Esc`, `F1` to `F12`, a digit or a letter, and for
/// any other its code in at least two digits.
pub open spec fn key_name(vk: u32) -> Seq<char> {
    if vk == 0x20 {
        "Space"@
    } else if vk == 0x0D {
        "Enter"@
    } else if vk == 0x1B {
        "Esc"@
    } else if 0x70 <= vk <= 0x7B {
        "F"@ + decimal((vk - 0x6F) as nat)
    } else if (0x30 <= vk <= 0x39) || (0x41 <= vk <= 0x5A) {
        seq![vk as u8 as char]
    } else if vk < 16 {
        "VK0x0"@ + hex(vk as nat)
    } else {
        "VK0x"@ + hex(vk as nat)
    }
}

fn push_hex(out: &mut Vec<char>, n: u32)
    ensures
        final(out)@ == old(out)@ + hex(n as nat),
    decreases n,
{
    let ghost before = out@;
    if n >= 16 {
        push_hex(out, n / 16);
    }
    let d: u32 = n % 16;
    let c: u8 = if d < 10 {
        (48 + d) as u8
    } else {
        (55 + d) as u8
    };
    out.push(c as char);
    assert(out@ =~= before + hex(n as nat));
}

pub fn vk_name(vk: u32) -> (r: String)
    ensures
        r@ == key_name(vk),
{
    let mut o: Vec<char> = Vec::new();
    if vk == 0x20 {
        o = chars_of("Space");
    } else if vk == 0x0D {
        o = chars_of("Enter");
    } else if vk == 0x1B {
        o = chars_of("Esc");
    } else if 0x70 <= vk && vk <= 0x7B {
        o = chars_of("F");
        push_decimal(&mut o, (vk - 0x6F) as u64);
    } else if (0x30 <= vk && vk <= 0x39) || (0x41 <= vk && vk <= 0x5A) {
        o.push(vk as u8 as char);
        assert(o@ =~= seq![vk as u8 as char]);
    } else if vk < 16 {
        o = chars_of("VK0x0");
        push_hex(&mut o, vk);
    } else {
        o = chars_of("VK0x");
        push_hex(&mut o, vk);
    }
    string_of(&o)
}

/// The parts of a hotkey's name: the modifiers in a fixed order, then the key.
pub open spec fn label_parts(h: Hotkey) -> Seq<Seq<char>> {
    let a = if h.mods & MOD_CONTROL != 0 {
        seq!["Ctrl"@]
    } else {
        Seq::empty()
    };
    let b = if h.mods & MOD_ALT != 0 {
        a.push("Alt"@)
    } else {
        a
    };
    let c = if h.mods & MOD_SHIFT != 0 {
        b.push("Shift"@)
    } else {
        b
    };
    let d = if h.mods & MOD_WIN != 0 {
        c.push("Win"@)
    } else {
        c
    };
    d.push(key_name(h.vk))
}

impl Hotkey {
    /// The name a person reads, such as `Ctrl + Alt + D`.
    pub fn label(&self) -> (r: String)
        ensures
            r@ == join(label_parts(*self), " + "@),
    {
        let mut p: Vec<String> = Vec::new();
        if self.mods & MOD_CONTROL != 0 {
            p.push("Ctrl".to_owned());
        }
        assert(texts(p@) =~= if self.mods & MOD_CONTROL != 0 {
            seq!["Ctrl"@]
        } else {
            Seq::empty()
        });
        if self.mods & MOD_ALT != 0 {
            let s = "Alt".to_owned();
            proof {
                lemma_texts_push(p@, s);
            }
            p.push(s);
        }
        if self.mods & MOD_SHIFT != 0 {
            let s = "Shift".to_owned();
            proof {
                lemma_texts_push(p@, s);
            }
            p.push(s);
        }
        if self.mods & MOD_WIN != 0 {
            let s = "Win".to_owned();
            proof {
                lemma_texts_push(p@, s);
            }
            p.push(s);
        }
        let k = vk_name(self.vk);
        proof {
            lemma_texts_push(p@, k);
        }
        p.push(k);
        join_strs(&p, " + ")
    }

    pub open spec fn valid(self) -> bool {
        self.mods & MOD_ANY != 0 && self.vk != 0
    }

    /// A hotkey needs a modifier, or it would swallow ordinary typing.
    pub fn is_valid(&self) -> (r: bool)
        ensures
            r == self.valid(),
    {
        self.mods & MOD_ANY != 0 && self.vk != 0
    }
}

/// The hotkeys of a list that are valid, each once, in order.
pub open spec fn worth_trying(s: Seq<Hotkey>) -> Seq<Hotkey>
    decreases s.len(),
{
    if s.len() == 0 {
        Seq::empty()
    } else {
        let a = worth_trying(s.drop_last());
        if !s.last().valid() || a.contains(s.last()) {
            a
        } else {
            a.push(s.last())
        }
    }
}

/// What is tried until one can be registered: the hotkey asked for, then the fallbacks.
pub open spec fn attempts_spec(want: Hotkey) -> Seq<Hotkey> {
    worth_trying(seq![want] + fallback_list())
}

fn lists(s: &Vec<Hotkey>, h: Hotkey) -> (r: bool)
    ensures
        r == s@.contains(h),
{
    let mut i: usize = 0;
    while i < s.len()
        invariant
            i <= s.len(),
            forall|j: int| 0 <= j < i ==> s@[j] != h,
        decreases s.len() - i,
    {
        if s[i] == h {
            assert(s@[i as int] == h);
            return true;
        }
        i = i + 1;
    }
    false
}

/// The hotkeys to try in turn. The first that the system accepts is taken.
pub fn attempts(want: Hotkey) -> (r: Vec<Hotkey>)
    ensures
        r@ == attempts_spec(want),
{
    let f = fallbacks();
    let ghost all = seq![want] + fallback_list();
    let mut r: Vec<Hotkey> = Vec::new();
    let mut i: usize = 0;
    assert(all.take(0) =~= Seq::<Hotkey>::empty());
    while i <= f.len()
        invariant
            i <= f.len() + 1,
            f@ == fallback_list(),
            f@.len() == 6,
            all == seq![want] + fallback_list(),
            r@ == worth_trying(all.take(i as int)),
        decreases f.len() + 1 - i,
    {
        let h = if i == 0 {
            want
        } else {
            f[i - 1]
        };
        proof {
            let t = all.take(i as int + 1);
            assert(t.drop_last() =~= all.take(i as int));
            assert(t.last() == h);
        }
        if h.is_valid() && !lists(&r, h) {
            r.push(h);
        }
        i = i + 1;
    }
    assert(all.take(i as int) =~= all);
    r
}

/// The default hotkey is valid and the first of the fallbacks, all of which are valid and
/// differ from each other.
pub proof fn law_fallbacks_are_valid_and_distinct()
    ensures
        (Hotkey { mods: MOD_ALT, vk: 0x31 }).valid(),
        fallback_list()[0] == (Hotkey { mods: MOD_ALT, vk: 0x31 }),
        forall|i: int| 0 <= i < fallback_list().len() ==> (#[trigger] fallback_list()[i]).valid(),
        forall|i: int, j: int|
            0 <= i < j < fallback_list().len() ==> (#[trigger] fallback_list()[i]) != (
            #[trigger] fallback_list()[j]),
{
    assert(0x0001u32 & 0x000Fu32 != 0) by (bit_vector);
    assert(0x0006u32 & 0x000Fu32 != 0) by (bit_vector);
    assert(0x0003u32 & 0x000Fu32 != 0) by (bit_vector);
    assert(0x0005u32 & 0x000Fu32 != 0) by (bit_vector);
}

/// Whatever is asked for, only valid hotkeys are tried, and none twice.
pub proof fn law_attempts_are_valid_and_distinct(s: Seq<Hotkey>)
    ensures
        forall|i: int| 0 <= i < worth_trying(s).len() ==> (#[trigger] worth_trying(s)[i]).valid(),
        forall|i: int, j: int|
            0 <= i < j < worth_trying(s).len() ==> (#[trigger] worth_trying(s)[i]) != (
            #[trigger] worth_trying(s)[j]),
    decreases s.len(),
{
    if s.len() > 0 {
        law_attempts_are_valid_and_distinct(s.drop_last());
        let a = worth_trying(s.drop_last());
        let b = worth_trying(s);
        assert forall|i: int| 0 <= i < b.len() implies (#[trigger] b[i]).valid() by {
            if i < a.len() {
                assert(a[i].valid());
            }
        }
        assert forall|i: int, j: int| 0 <= i < j < b.len() implies (#[trigger] b[i]) != (
        #[trigger] b[j]) by {
            if j < a.len() {
                assert(a[i] != a[j]);
            } else {
                assert(a.contains(a[i]));
            }
        }
    }
}

// ───────────────────────── events and decisions ─────────────────────────

/// What a person wants of the tray.
#[derive(Clone, Copy, Debug, PartialEq, Eq, Structural)]
pub enum TrayEvent {
    /// Hotkey or left click: hide what is shown, show what is hidden.
    Toggle,
    /// The menu's 「显示词典」.
    Show,
    Settings,
    Quit,
}

/// The main window as the tray sees it. A window out of sight is hidden in the tray or
/// minimized to the task bar, and the two are not the same.
#[derive(Clone, Copy, Debug, PartialEq, Eq, Structural)]
pub enum WinState {
    /// In sight.
    Front,
    /// Minimized. The window is there, but draws no frames.
    Minimized,
    /// Hidden in the tray.
    Hidden,
}

/// What to do.
#[derive(Clone, Copy, Debug, PartialEq, Eq, Structural)]
pub enum Act {
    /// Nothing.
    Keep,
    /// Bring the main window to the front, and give it the focus if asked to.
    Summon { focus: bool },
    /// Hide it in the tray.
    Dismiss,
    /// Open the settings, which never brings the main window on screen. `tuck` says to hide
    /// it in the tray first: minimized it draws no frames, and the settings are drawn with it.
    OpenSettings { tuck: bool },
    /// Quit for good.
    Quit,
}

/// What an event means in a state of the main window.
///
/// | window | toggle | show | settings | quit |
/// |---|---|---|---|---|
/// | in sight | hide | nothing | settings alone | quit |
/// | minimized | bring up | bring up | settings alone, the window goes to the tray | quit |
/// | in the tray | bring up | bring up | settings alone | quit |
pub open spec fn decision(ev: TrayEvent, st: WinState) -> Act {
    match ev {
        TrayEvent::Toggle => if st == WinState::Front {
            Act::Dismiss
        } else {
            Act::Summon { focus: true }
        },
        TrayEvent::Show => if st == WinState::Front {
            Act::Keep
        } else {
            Act::Summon { focus: true }
        },
        TrayEvent::Settings => Act::OpenSettings { tuck: st == WinState::Minimized },
        TrayEvent::Quit => Act::Quit,
    }
}

pub fn decide(ev: TrayEvent, st: WinState) -> (r: Act)
    ensures
        r == decision(ev, st),
{
    match ev {
        TrayEvent::Toggle => match st {
            WinState::Front => Act::Dismiss,
            _ => Act::Summon { focus: true },
        },
        TrayEvent::Show => match st {
            WinState::Front => Act::Keep,
            _ => Act::Summon { focus: true },
        },
        TrayEvent::Settings => Act::OpenSettings { tuck: st == WinState::Minimized },
        TrayEvent::Quit => Act::Quit,
    }
}

/// The state of a window from what the system says of it. Without a window handle nothing is
/// known, and the window counts as in sight. A minimized window is still visible to the system.
pub fn win_state(hwnd: usize, visible: bool, iconic: bool) -> (r: WinState)
    ensures
        r == if hwnd == 0 {
            WinState::Front
        } else if !visible {
            WinState::Hidden
        } else if iconic {
            WinState::Minimized
        } else {
            WinState::Front
        },
{
    if hwnd == 0 {
        WinState::Front
    } else if !visible {
        WinState::Hidden
    } else if iconic {
        WinState::Minimized
    } else {
        WinState::Front
    }
}

/// One thing to do to the main window.
#[derive(Clone, Copy, Debug, PartialEq, Eq, Structural)]
pub enum WinCall {
    /// Show and restore.
    Restore,
    /// Take the focus.
    Foreground,
    /// Hide a minimized window, out of sight.
    Tuck,
    Hide,
}

/// What an act does to the main window, in order; nothing without a window.
pub open spec fn window_calls(hwnd: usize, act: Act) -> Seq<WinCall> {
    if hwnd == 0 {
        Seq::empty()
    } else {
        match act {
            Act::Keep => Seq::empty(),
            Act::Quit => Seq::empty(),
            Act::Summon { focus } => if focus {
                seq![WinCall::Restore, WinCall::Foreground]
            } else {
                seq![WinCall::Restore]
            },
            Act::OpenSettings { tuck } => if tuck {
                seq![WinCall::Tuck]
            } else {
                Seq::empty()
            },
            Act::Dismiss => seq![WinCall::Hide],
        }
    }
}

pub fn calls_for(hwnd: usize, act: Act) -> (r: Vec<WinCall>)
    ensures
        r@ == window_calls(hwnd, act),
{
    let mut r: Vec<WinCall> = Vec::new();
    if hwnd != 0 {
        match act {
            Act::Keep => {},
            Act::Quit => {},
            Act::Summon { focus } => {
                r.push(WinCall::Restore);
                if focus {
                    r.push(WinCall::Foreground);
                }
            },
            Act::OpenSettings { tuck } => {
                if tuck {
                    r.push(WinCall::Tuck);
                }
            },
            Act::Dismiss => {
                r.push(WinCall::Hide);
            },
        }
    }
    assert(r@ =~= window_calls(hwnd, act));
    r
}

/// What follows an event: what the window undergoes, whether the interface is told, and
/// whether the window is asked to close. Quitting goes through the interface, which saves the
/// settings; a minimized window draws no frame but does get the message to close.
#[derive(Clone, Copy, Debug, PartialEq, Eq, Structural)]
pub struct Reaction {
    pub act: Act,
    pub tell: bool,
    pub close: bool,
}

pub fn react(ev: TrayEvent, st: WinState, hwnd: usize) -> (r: Reaction)
    ensures
        r.act == decision(ev, st),
        r.tell == (r.act != Act::Keep),
        r.close == (r.act == Act::Quit && hwnd != 0),
{
    let act = decide(ev, st);
    Reaction { act, tell: act != Act::Keep, close: act == Act::Quit && hwnd != 0 }
}

/// Quitting from the menu quits, whatever the state of the window.
pub proof fn law_quit_always_quits(st: WinState)
    ensures
        decision(TrayEvent::Quit, st) == Act::Quit,
{
}

/// Opening the settings never brings the dictionary on screen.
pub proof fn law_settings_never_summon(st: WinState, hwnd: usize)
    ensures
        decision(TrayEvent::Settings, st) is OpenSettings,
        !window_calls(hwnd, decision(TrayEvent::Settings, st)).contains(WinCall::Restore),
{
}

/// Only a window that is in sight is ever hidden by a click, and only one that is not is
/// brought up.
pub proof fn law_toggle_flips(st: WinState)
    ensures
        decision(TrayEvent::Toggle, st) == Act::Dismiss <==> st == WinState::Front,
        decision(TrayEvent::Toggle, st) is Summon <==> st != WinState::Front,
{
}

// ───────────────────────── messages ─────────────────────────

pub const WM_DESTROY: u32 = 0x0002;

pub const WM_LBUTTONUP: u32 = 0x0202;

pub const WM_LBUTTONDBLCLK: u32 = 0x0203;

pub const WM_RBUTTONUP: u32 = 0x0205;

pub const WM_HOTKEY: u32 = 0x0312;

/// What the tray icon sends.
pub const WM_TRAY: u32 = 0x8001;

/// The interface asks for another hotkey.
pub const WM_SET_HOTKEY: u32 = 0x8002;

/// The interface asks the tray to go.
pub const WM_QUIT_TRAY: u32 = 0x8003;

/// A menu item without the menu, for automated runs.
pub const WM_TRAY_ITEM: u32 = 0x8004;

pub const HOTKEY_ID: u32 = 0xD1C7;

pub const ID_SHOW: u32 = 1;

pub const ID_SETTINGS: u32 = 2;

pub const ID_QUIT: u32 = 3;

/// What a message to the tray window asks for.
#[derive(Clone, Copy, Debug, PartialEq, Eq, Structural)]
pub enum TrayCommand {
    /// Handled, with nothing to do.
    Nothing,
    Event(TrayEvent),
    /// Open the menu.
    Menu,
    /// Give the old hotkey up and take this one.
    Rebind(Hotkey),
    /// Destroy the window.
    Destroy,
    /// Leave the message loop.
    Leave,
    /// Not for the tray.
    Default,
}

/// The event of a menu item.
pub open spec fn item_event_spec(id: u32) -> Option<TrayEvent> {
    if id == ID_SHOW {
        Some(TrayEvent::Show)
    } else if id == ID_SETTINGS {
        Some(TrayEvent::Settings)
    } else if id == ID_QUIT {
        Some(TrayEvent::Quit)
    } else {
        None
    }
}

pub fn item_event(id: u32) -> (r: Option<TrayEvent>)
    ensures
        r == item_event_spec(id),
{
    if id == ID_SHOW {
        Some(TrayEvent::Show)
    } else if id == ID_SETTINGS {
        Some(TrayEvent::Settings)
    } else if id == ID_QUIT {
        Some(TrayEvent::Quit)
    } else {
        None
    }
}

/// What a message means. `w` and `l` are the low halves of its two parameters.
pub open spec fn command_of(msg: u32, w: u32, l: u32) -> TrayCommand {
    if msg == WM_TRAY {
        if l == WM_LBUTTONUP || l == WM_LBUTTONDBLCLK {
            TrayCommand::Event(TrayEvent::Toggle)
        } else if l == WM_RBUTTONUP {
            TrayCommand::Menu
        } else {
            TrayCommand::Nothing
        }
    } else if msg == WM_HOTKEY && w == HOTKEY_ID {
        TrayCommand::Event(TrayEvent::Toggle)
    } else if msg == WM_SET_HOTKEY {
        TrayCommand::Rebind(Hotkey { mods: w, vk: l })
    } else if msg == WM_TRAY_ITEM {
        match item_event_spec(l) {
            Some(ev) => TrayCommand::Event(ev),
            None => TrayCommand::Nothing,
        }
    } else if msg == WM_QUIT_TRAY {
        TrayCommand::Destroy
    } else if msg == WM_DESTROY {
        TrayCommand::Leave
    } else {
        TrayCommand::Default
    }
}

pub fn dispatch(msg: u32, w: u32, l: u32) -> (r: TrayCommand)
    ensures
        r == command_of(msg, w, l),
{
    if msg == WM_TRAY {
        if l == WM_LBUTTONUP || l == WM_LBUTTONDBLCLK {
            TrayCommand::Event(TrayEvent::Toggle)
        } else if l == WM_RBUTTONUP {
            TrayCommand::Menu
        } else {
            TrayCommand::Nothing
        }
    } else if msg == WM_HOTKEY && w == HOTKEY_ID {
        TrayCommand::Event(TrayEvent::Toggle)
    } else if msg == WM_SET_HOTKEY {
        TrayCommand::Rebind(Hotkey { mods: w, vk: l })
    } else if msg == WM_TRAY_ITEM {
        match item_event(l) {
            Some(ev) => TrayCommand::Event(ev),
            None => TrayCommand::Nothing,
        }
    } else if msg == WM_QUIT_TRAY {
        TrayCommand::Destroy
    } else if msg == WM_DESTROY {
        TrayCommand::Leave
    } else {
        TrayCommand::Default
    }
}

// ───────────────────────── geometry and pixels ─────────────────────────

/// A rectangle of the screen.
#[derive(Clone, Copy, Debug, PartialEq, Eq, Structural)]
pub struct Area {
    pub left: i32,
    pub top: i32,
    pub right: i32,
    pub bottom: i32,
}

/// Where a minimized window is unfolded before it is hidden: the same size, off the screen.
pub fn off_screen(keep: Area) -> (r: Area)
    requires
        i32::MIN <= keep.right - keep.left <= i32::MAX,
        i32::MIN <= keep.bottom - keep.top <= i32::MAX,
        i32::MIN <= keep.right - keep.left - 32000,
        i32::MIN <= keep.bottom - keep.top - 32000,
    ensures
        r.left == -32000,
        r.top == -32000,
        r.right - r.left == keep.right - keep.left,
        r.bottom - r.top == keep.bottom - keep.top,
{
    let w: i32 = keep.right - keep.left;
    let h: i32 = keep.bottom - keep.top;
    Area { left: -32000, top: -32000, right: -32000 + w, bottom: -32000 + h }
}

/// A colour channel times its opacity.
pub open spec fn dimmed(c: u8, a: u8) -> u8 {
    (c * a / 255) as u8
}

/// Byte `k` of the icon bitmap: blue, green and red, each times the opacity, and the opacity.
pub open spec fn bgra_byte(rgba: Seq<u8>, k: int) -> u8 {
    let p = k / 4 * 4;
    let a = rgba[p + 3];
    if k % 4 == 0 {
        dimmed(rgba[p + 2], a)
    } else if k % 4 == 1 {
        dimmed(rgba[p + 1], a)
    } else if k % 4 == 2 {
        dimmed(rgba[p], a)
    } else {
        a
    }
}

fn dim(c: u8, a: u8) -> (r: u8)
    ensures
        r == dimmed(c, a),
{
    let p: u32 = c as u32;
    let q: u32 = a as u32;
    assert(p * q <= 255 * 255) by (nonlinear_arith)
        requires
            p <= 255,
            q <= 255,
    ;
    (p * q / 255) as u8
}

/// The pixels of an icon as the system wants them: blue first, and premultiplied, or edges
/// would shine white.
pub fn premultiplied_bgra(rgba: &[u8]) -> (r: Vec<u8>)
    ensures
        r@ == Seq::new(rgba@.len() / 4 * 4, |k: int| bgra_byte(rgba@, k)),
{
    let n: usize = rgba.len() / 4;
    let ghost want = Seq::new(rgba@.len() / 4 * 4, |k: int| bgra_byte(rgba@, k));
    let mut r: Vec<u8> = Vec::new();
    let mut i: usize = 0;
    while i < n
        invariant
            n == rgba.len() / 4,
            i <= n,
            r.len() == 4 * i,
            want == Seq::new(rgba@.len() / 4 * 4, |k: int| bgra_byte(rgba@, k)),
            forall|k: int| 0 <= k < 4 * i ==> #[trigger] r@[k] == want[k],
        decreases n - i,
    {
        let a: u8 = rgba[4 * i + 3];
        r.push(dim(rgba[4 * i + 2], a));
        r.push(dim(rgba[4 * i + 1], a));
        r.push(dim(rgba[4 * i], a));
        r.push(a);
        i = i + 1;
    }
    assert(r@ =~= want);
    r
}

/// How many bytes the mask of an icon takes: one bit to a pixel, rows of whole words.
pub fn mask_len(size: u32) -> (r: u64)
    ensures
        r == (size as int + 31) / 32 * 4 * size,
{
    let rows: u64 = (size as u64 + 31) / 32;
    assert(rows <= 0x800_0000);
    assert(rows * 4 * size <= 0x2000_0000 * 0xffff_ffff) by (nonlinear_arith)
        requires
            rows <= 0x800_0000,
            size <= 0xffff_ffff,
    ;
    rows * 4 * (size as u64)
}

} // verus!
