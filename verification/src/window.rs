//! The main window: starting, hiding, closing, and catching a new hotkey.
use crate::single::Single;
use crate::text::{chars_of, extend_str, string_of, texts};
use crate::tray::{Act, Hotkey, MOD_ALT, MOD_CONTROL, MOD_SHIFT};
use vstd::prelude::*;
use vstd::string::*;

verus! {

/// What to do about a request to close.
#[derive(Clone, Copy, Debug, PartialEq, Eq, Structural)]
pub enum CloseAct {
    /// Hide in the tray instead.
    ToTray,
    /// Let the process end.
    Exit,
}

/// A request to close hides the window if it may, there is a tray, and nobody quit: quitting
/// from the tray asks the window to close as well.
pub fn decide_close(quitting: bool, close_to_tray: bool, has_tray: bool) -> (r: CloseAct)
    ensures
        r == if !quitting && close_to_tray && has_tray {
            CloseAct::ToTray
        } else {
            CloseAct::Exit
        },
{
    if !quitting && close_to_tray && has_tray {
        CloseAct::ToTray
    } else {
        CloseAct::Exit
    }
}

/// How the tray came up.
pub enum TrayStart {
    /// It runs, with this hotkey if one could be had.
    Up(Option<Hotkey>),
    /// It does not, for this reason.
    Down(String),
}

/// How the program starts.
pub struct Startup {
    /// The hotkey in use.
    pub hotkey: Hotkey,
    pub has_tray: bool,
    pub visible: bool,
    /// What the user is told.
    pub note: String,
}

/// What is said of a tray: the hotkey that stands in for a taken one, that none could be had,
/// or that there is no tray; else what there was to say before.
pub open spec fn tray_note(want: Hotkey, t: TrayStart, note: Seq<char>) -> Seq<char> {
    match t {
        TrayStart::Up(Some(hk)) => if hk == want {
            note
        } else {
            crate::text::join(crate::tray::label_parts(want), " + "@)
                + " 被别的软件占了，唤出快捷键改成 "@ + crate::text::join(
                crate::tray::label_parts(hk),
                " + "@,
            )
        },
        TrayStart::Up(None) => "所有候选快捷键都被占用，唤出快捷键未启用"@,
        TrayStart::Down(e) => "托盘不可用："@ + e@,
    }
}

/// Decides how to start: with the hotkey that could be had, and hidden only if that was asked
/// for and there is a tray to come back from.
pub fn startup(want: Hotkey, t: &TrayStart, start_hidden: bool, note: &str) -> (r: Startup)
    ensures
        r.hotkey == match *t {
            TrayStart::Up(Some(hk)) => hk,
            _ => want,
        },
        r.has_tray == (*t is Up),
        r.visible == !(start_hidden && *t is Up),
        r.note@ == if start_hidden && !(*t is Up) {
            "设置里要求启动时隐藏，但托盘不可用，仍然显示窗口"@
        } else {
            tray_note(want, *t, note@)
        },
{
    let mut hotkey = want;
    let mut has_tray: bool = true;
    let mut said = chars_of(note);
    match t {
        TrayStart::Up(Some(hk)) => {
            if *hk != want {
                said = chars_of(want.label().as_str());
                extend_str(&mut said, " 被别的软件占了，唤出快捷键改成 ");
                extend_str(&mut said, hk.label().as_str());
            }
            hotkey = *hk;
        },
        TrayStart::Up(None) => {
            said = chars_of("所有候选快捷键都被占用，唤出快捷键未启用");
        },
        TrayStart::Down(e) => {
            has_tray = false;
            said = chars_of("托盘不可用：");
            extend_str(&mut said, e.as_str());
        },
    }
    if start_hidden && !has_tray {
        said = chars_of("设置里要求启动时隐藏，但托盘不可用，仍然显示窗口");
    }
    Startup { hotkey, has_tray, visible: !(start_hidden && has_tray), note: string_of(&said) }
}

/// What the interface keeps of the window.
#[derive(Clone, Copy, Debug, PartialEq, Eq, Structural)]
pub struct WindowState {
    pub visible: bool,
    /// The input field is to get the focus.
    pub focus_pending: bool,
    pub settings_open: bool,
    pub settings_focus_pending: bool,
    /// The settings are to open once this many frames were drawn.
    pub settings_after: Option<u64>,
    pub frames: u64,
    pub quitting: bool,
}

/// What the windowing system is told.
#[derive(Clone, Copy, Debug, PartialEq, Eq, Structural)]
pub enum Tell {
    Nothing,
    /// The window is visible, and has the focus if so.
    Visible { focus: bool },
    Hidden,
    /// The settings were asked for: draw another frame.
    Again,
    /// Save the settings and close.
    Close,
}

/// The state after the tray acted, and what the windowing system is told. The tray has moved
/// the window itself; the interface only follows. The settings are drawn with the main window
/// and open one frame later.
pub open spec fn after_act(w: WindowState, act: Act) -> (WindowState, Tell) {
    match act {
        Act::Keep => (w, Tell::Nothing),
        Act::Summon { focus } => (
            WindowState { visible: true, focus_pending: w.focus_pending || focus, ..w },
            Tell::Visible { focus },
        ),
        Act::Dismiss => (WindowState { visible: false, ..w }, Tell::Hidden),
        Act::OpenSettings { tuck } => (
            WindowState {
                visible: w.visible && !tuck,
                settings_after: Some((w.frames + 1) as u64),
                ..w
            },
            Tell::Again,
        ),
        Act::Quit => (WindowState { quitting: true, ..w }, Tell::Close),
    }
}

impl WindowState {
    pub fn on_act(&mut self, act: Act) -> (r: Tell)
        requires
            old(self).frames < u64::MAX,
        ensures
            (*final(self), r) == after_act(*old(self), act),
    {
        match act {
            Act::Keep => Tell::Nothing,
            Act::Summon { focus } => {
                self.visible = true;
                self.focus_pending = self.focus_pending || focus;
                Tell::Visible { focus }
            },
            Act::Dismiss => {
                self.visible = false;
                Tell::Hidden
            },
            Act::OpenSettings { tuck } => {
                self.visible = self.visible && !tuck;
                self.settings_after = Some(self.frames + 1);
                Tell::Again
            },
            Act::Quit => {
                self.quitting = true;
                Tell::Close
            },
        }
    }

    /// Opens the settings if they are due. Returns whether to draw another frame for them.
    pub fn open_due_settings(&mut self) -> (again: bool)
        ensures
            match old(self).settings_after {
                Some(n) => if old(self).frames >= n {
                    *final(self) == (WindowState {
                        settings_after: None,
                        settings_open: true,
                        settings_focus_pending: true,
                        ..*old(self)
                    }) && !again
                } else {
                    *final(self) == *old(self) && again
                },
                None => *final(self) == *old(self) && !again,
            },
    {
        match self.settings_after {
            Some(n) => {
                if self.frames >= n {
                    self.settings_after = None;
                    self.settings_open = true;
                    self.settings_focus_pending = true;
                    false
                } else {
                    true
                }
            },
            None => false,
        }
    }

    /// Whether the input field takes the focus: while the settings are closed, if it was asked
    /// to, or if neither it nor another control has it.
    pub fn take_focus(&mut self, has_focus: bool, elsewhere: bool) -> (r: bool)
        ensures
            r == (!old(self).settings_open && (old(self).focus_pending || (!has_focus
                && !elsewhere))),
            *final(self) == (WindowState {
                focus_pending: old(self).focus_pending && !r,
                ..*old(self)
            }),
    {
        let r: bool = !self.settings_open && (self.focus_pending || (!has_focus && !elsewhere));
        if r {
            self.focus_pending = false;
        }
        r
    }

    /// Whether what was put off at the start may begin: once a frame was drawn, or at once if
    /// there is no window to wait for.
    pub fn may_start_deferred(&self, painted: bool) -> (r: bool)
        ensures
            r == (painted || !self.visible),
    {
        painted || !self.visible
    }
}

/// Asking for the settings from the tray never makes a hidden window visible.
pub proof fn law_settings_do_not_reveal(w: WindowState, tuck: bool)
    ensures
        after_act(w, Act::OpenSettings { tuck }).0.visible ==> w.visible,
{
}

/// Whether the size of the window is worth noting: not while it is maximized, and not below
/// the least, as a window reports while it is being minimized.
pub fn worth_noting(maximized: bool, width: Single, height: Single) -> (r: bool)
    ensures
        r == (!maximized && !width.less_spec(
            Single { bits: crate::settings::WINDOW_MIN@[0] },
        ) && !height.less_spec(Single { bits: crate::settings::WINDOW_MIN@[1] })),
{
    !maximized && !width.less(Single { bits: crate::settings::WINDOW_MIN[0] }) && !height.less(
        Single { bits: crate::settings::WINDOW_MIN[1] },
    )
}

// ───────────────────────── catching a hotkey ─────────────────────────

/// The virtual key code of a key by its name: `Space`, a letter, a digit, `F1` to `F12`.
pub open spec fn vk_spec(name: Seq<char>) -> Option<u32> {
    if name == "Space"@ {
        Some(0x20)
    } else if name.len() == 1 && ('A' <= name[0] <= 'Z' || '0' <= name[0] <= '9') {
        Some(name[0] as u32)
    } else if name.len() == 2 && name[0] == 'F' && '1' <= name[1] <= '9' {
        Some((0x6F + (name[1] as u32 - '0' as u32)) as u32)
    } else if name.len() == 3 && name[0] == 'F' && name[1] == '1' && '0' <= name[2] <= '2' {
        Some((0x79 + (name[2] as u32 - '0' as u32)) as u32)
    } else {
        None
    }
}

pub fn vk_of(name: &str) -> (r: Option<u32>)
    ensures
        r == vk_spec(name@),
{
    let c = chars_of(name);
    let space = chars_of("Space");
    if crate::text::same(&c, &space) {
        return Some(0x20);
    }
    if c.len() == 1 && (('A' <= c[0] && c[0] <= 'Z') || ('0' <= c[0] && c[0] <= '9')) {
        return Some(c[0] as u32);
    }
    if c.len() == 2 && c[0] == 'F' && '1' <= c[1] && c[1] <= '9' {
        return Some(0x6F + (c[1] as u32 - 48));
    }
    if c.len() == 3 && c[0] == 'F' && c[1] == '1' && '0' <= c[2] && c[2] <= '2' {
        return Some(0x79 + (c[2] as u32 - 48));
    }
    None
}

/// What catching a hotkey came to.
#[derive(Clone, Copy, Debug, PartialEq, Eq, Structural)]
pub enum Caught {
    /// No key that a hotkey can have was pressed yet.
    Waiting,
    /// A key without a modifier.
    NoModifier,
    Taken(Hotkey),
}

/// The modifier bits of the keys held.
pub open spec fn held_mods(ctrl: bool, alt: bool, shift: bool) -> u32 {
    ((if ctrl {
        MOD_CONTROL
    } else {
        0
    }) + (if alt {
        MOD_ALT
    } else {
        0
    }) + (if shift {
        MOD_SHIFT
    } else {
        0
    })) as u32
}

/// The code of the first key that a hotkey can have.
pub open spec fn first_vk(keys: Seq<Seq<char>>) -> Option<u32>
    decreases keys.len(),
{
    if keys.len() == 0 {
        None
    } else {
        match first_vk(keys.drop_last()) {
            Some(vk) => Some(vk),
            None => vk_spec(keys.last()),
        }
    }
}

/// The hotkey of the modifiers held and the first of the keys pressed that can be one.
pub fn catch_hotkey(ctrl: bool, alt: bool, shift: bool, keys: &Vec<String>) -> (r: Caught)
    ensures
        r == match first_vk(texts(keys@)) {
            None => Caught::Waiting,
            Some(vk) => {
                let hk = Hotkey { mods: held_mods(ctrl, alt, shift), vk };
                if hk.valid() {
                    Caught::Taken(hk)
                } else {
                    Caught::NoModifier
                }
            },
        },
{
    let ghost all = texts(keys@);
    let mut first: Option<u32> = None;
    let mut i: usize = 0;
    assert(all.take(0) =~= Seq::<Seq<char>>::empty());
    while i < keys.len()
        invariant
            i <= keys.len(),
            all == texts(keys@),
            first == first_vk(all.take(i as int)),
        decreases keys.len() - i,
    {
        proof {
            let t = all.take(i as int + 1);
            assert(t.drop_last() =~= all.take(i as int));
            assert(t.last() == keys@[i as int]@);
        }
        if first.is_none() {
            first = vk_of(keys[i].as_str());
        }
        i = i + 1;
    }
    assert(all.take(i as int) =~= all);
    let vk: u32 = match first {
        Some(vk) => vk,
        None => {
            return Caught::Waiting;
        },
    };
    let a: u32 = if ctrl {
        MOD_CONTROL
    } else {
        0
    };
    let b: u32 = if alt {
        MOD_ALT
    } else {
        0
    };
    let c: u32 = if shift {
        MOD_SHIFT
    } else {
        0
    };
    let hk = Hotkey { mods: a + b + c, vk };
    if hk.is_valid() {
        Caught::Taken(hk)
    } else {
        Caught::NoModifier
    }
}

/// A key held with a modifier makes a hotkey, and without one it makes none.
pub proof fn law_a_hotkey_needs_a_modifier(ctrl: bool, alt: bool, shift: bool, vk: u32)
    requires
        vk != 0,
    ensures
        (Hotkey { mods: held_mods(ctrl, alt, shift), vk }).valid() <==> (ctrl || alt || shift),
{
    assert(0u32 & 15u32 == 0) by (bit_vector);
    assert(forall|m: u32| 1 <= m <= 7 ==> #[trigger] (m & 15u32) != 0) by (bit_vector);
    let m = held_mods(ctrl, alt, shift);
    if ctrl || alt || shift {
        assert(1 <= m <= 7);
        assert(m & 15u32 != 0);
    }
}

} // verus!
