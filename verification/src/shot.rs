//! Screenshots by script: the program goes through its states, writes each as a bitmap and
//! ends. Windows drawn by the graphics card cannot be captured from outside.
use crate::bytes::{push_u16, push_u32, put16, put32};
use crate::text::chars_of;
use vstd::prelude::*;
use vstd::slice::*;
use vstd::string::*;

verus! {

/// One step of the script.
#[derive(Clone, Copy, Debug)]
pub struct Step {
    /// What the input field is set to, if anything.
    pub query: Option<&'static str>,
    /// Open the selected candidate.
    pub open_entry: bool,
    /// Show the bar for tuning.
    pub bar: bool,
    /// What is typed character by character, as a person would.
    pub typed: Option<&'static str>,
    /// What is pressed: `d` down, `u` up, `e` Enter, `x` Escape.
    pub keys: Option<&'static str>,
    /// Show the settings.
    pub settings: bool,
    pub name: &'static str,
}

/// What a step holds.
#[verifier::ext_equal]
pub struct StepView {
    pub query: Option<Seq<char>>,
    pub open_entry: bool,
    pub bar: bool,
    pub typed: Option<Seq<char>>,
    pub keys: Option<Seq<char>>,
    pub settings: bool,
    pub name: Seq<char>,
}

pub open spec fn opt_text(s: Option<&str>) -> Option<Seq<char>> {
    match s {
        Some(x) => Some(x@),
        None => None,
    }
}

impl View for Step {
    type V = StepView;

    open spec fn view(&self) -> StepView {
        StepView {
            query: opt_text(self.query),
            open_entry: self.open_entry,
            bar: self.bar,
            typed: opt_text(self.typed),
            keys: opt_text(self.keys),
            settings: self.settings,
            name: self.name@,
        }
    }
}

/// The script: an empty panel, candidates and entries of both languages, the bar for tuning,
/// typing, the arrow keys there and back, and the settings.
pub open spec fn script() -> Seq<StepView> {
    seq![
        StepView {
            query: None,
            open_entry: false,
            bar: false,
            typed: None,
            keys: None,
            settings: false,
            name: "1-空"@,
        },
        StepView {
            query: Some("中国"@),
            open_entry: false,
            bar: false,
            typed: None,
            keys: None,
            settings: false,
            name: "2-中文候选"@,
        },
        StepView {
            query: Some("中国"@),
            open_entry: true,
            bar: false,
            typed: None,
            keys: None,
            settings: false,
            name: "3-中文词条"@,
        },
        StepView {
            query: Some("zhonggu"@),
            open_entry: false,
            bar: false,
            typed: None,
            keys: None,
            settings: false,
            name: "4-拼音候选"@,
        },
        StepView {
            query: Some("compile"@),
            open_entry: false,
            bar: false,
            typed: None,
            keys: None,
            settings: false,
            name: "5-英文候选"@,
        },
        StepView {
            query: Some("compile"@),
            open_entry: true,
            bar: false,
            typed: None,
            keys: None,
            settings: false,
            name: "6-英文词条"@,
        },
        StepView {
            query: Some("意思"@),
            open_entry: true,
            bar: false,
            typed: None,
            keys: None,
            settings: false,
            name: "7-已重组词条"@,
        },
        StepView {
            query: Some("man"@),
            open_entry: false,
            bar: true,
            typed: None,
            keys: None,
            settings: false,
            name: "8-调参条与打分"@,
        },
        StepView {
            query: Some(""@),
            open_entry: false,
            bar: false,
            typed: Some("zhongwen"@),
            keys: None,
            settings: false,
            name: "9-逐字符输入"@,
        },
        StepView {
            query: Some("中国"@),
            open_entry: false,
            bar: false,
            typed: None,
            keys: Some("dd"@),
            settings: false,
            name: "10-方向键选中第3项"@,
        },
        StepView {
            query: None,
            open_entry: false,
            bar: false,
            typed: None,
            keys: Some("e"@),
            settings: false,
            name: "11-回车进词条"@,
        },
        StepView {
            query: None,
            open_entry: false,
            bar: false,
            typed: None,
            keys: Some("d"@),
            settings: false,
            name: "12-方向键退回并保留选中"@,
        },
        StepView {
            query: Some(""@),
            open_entry: false,
            bar: false,
            typed: None,
            keys: None,
            settings: true,
            name: "13-设置页"@,
        },
    ]
}

fn step(
    query: Option<&'static str>,
    open_entry: bool,
    bar: bool,
    typed: Option<&'static str>,
    keys: Option<&'static str>,
    settings: bool,
    name: &'static str,
) -> (r: Step)
    ensures
        r@ == (StepView {
            query: opt_text(query),
            open_entry,
            bar,
            typed: opt_text(typed),
            keys: opt_text(keys),
            settings,
            name: name@,
        }),
{
    Step { query, open_entry, bar, typed, keys, settings, name }
}

/// A key of the script.
#[derive(Clone, Copy, Debug, PartialEq, Eq, Structural)]
pub enum Press {
    Down,
    Up,
    Enter,
    Escape,
}

/// What a step sends at one place.
#[derive(Clone, Copy, Debug, PartialEq, Eq, Structural)]
pub enum Sent {
    Nothing,
    /// A character through the input field.
    Text(char),
    /// A key past it.
    Key(Press),
}

/// The key that a letter of the script stands for.
pub open spec fn press_of(c: char) -> Sent {
    if c == 'd' {
        Sent::Key(Press::Down)
    } else if c == 'u' {
        Sent::Key(Press::Up)
    } else if c == 'e' {
        Sent::Key(Press::Enter)
    } else if c == 'x' {
        Sent::Key(Press::Escape)
    } else {
        Sent::Nothing
    }
}

/// How much a step types and presses.
pub open spec fn typing_of(s: StepView) -> nat {
    s.typed.unwrap_or(Seq::empty()).len() + s.keys.unwrap_or(Seq::empty()).len()
}

/// What a step sends at place `i`: text where it types any, else keys.
pub open spec fn sent_at(s: StepView, i: int) -> Sent {
    match (s.typed, s.keys) {
        (Some(t), _) => if i < t.len() {
            Sent::Text(t[i])
        } else {
            Sent::Nothing
        },
        (None, Some(k)) => if i < k.len() {
            press_of(k[i])
        } else {
            Sent::Nothing
        },
        (None, None) => Sent::Nothing,
    }
}

impl Step {
    /// How much the step types and presses.
    pub fn typing(&self) -> (r: usize)
        requires
            typing_of(self@) <= usize::MAX,
        ensures
            r == typing_of(self@),
    {
        let a: usize = match self.typed {
            Some(t) => t.unicode_len(),
            None => 0,
        };
        let b: usize = match self.keys {
            Some(k) => k.unicode_len(),
            None => 0,
        };
        a + b
    }

    /// What the step sends at a place.
    pub fn sent(&self, i: usize) -> (r: Sent)
        ensures
            r == sent_at(self@, i as int),
    {
        match (self.typed, self.keys) {
            (Some(t), _) => {
                let c = chars_of(t);
                if i < c.len() {
                    Sent::Text(c[i])
                } else {
                    Sent::Nothing
                }
            },
            (None, Some(k)) => {
                let c = chars_of(k);
                if i >= c.len() {
                    return Sent::Nothing;
                }
                let x: char = c[i];
                if x == 'd' {
                    Sent::Key(Press::Down)
                } else if x == 'u' {
                    Sent::Key(Press::Up)
                } else if x == 'e' {
                    Sent::Key(Press::Enter)
                } else if x == 'x' {
                    Sent::Key(Press::Escape)
                } else {
                    Sent::Nothing
                }
            },
            (None, None) => Sent::Nothing,
        }
    }
}

/// Where the script stands.
#[derive(Clone, Copy, Debug, PartialEq, Eq, Structural)]
pub struct Plan {
    pub step: usize,
    /// How many characters or keys of the step were sent.
    pub typed_at: usize,
    /// How many frames the step has waited.
    pub waited: u32,
    /// The picture was asked for.
    pub requested: bool,
}

/// What one frame of the script does.
#[derive(Clone, Copy, Debug, PartialEq, Eq, Structural)]
pub enum Move {
    Wait,
    /// Bring the interface into the state of the step.
    SetUp,
    /// Send the character or key at this place.
    Send(usize),
    /// Ask for the picture.
    Request,
}

/// How many frames a step takes before its picture: the first one waits for the fonts, the
/// others for the animation and for what is typed, two frames each.
pub open spec fn frames_needed(step: usize, typing: usize) -> int {
    if step == 0 {
        30
    } else {
        14 + typing * 2
    }
}

/// The script after one more frame. `typing` is how much the step types or presses; `held`
/// says that its picture is taken by another window.
pub open spec fn advanced(p: Plan, typing: usize, held: bool) -> (Plan, Move) {
    let w = (p.waited + 1) as u32;
    let q = Plan { waited: w, ..p };
    if w == 2 {
        (q, Move::SetUp)
    } else if w > 2 && p.typed_at < typing {
        if w % 2 == 0 {
            (Plan { typed_at: (p.typed_at + 1) as usize, ..q }, Move::Send(p.typed_at))
        } else {
            (q, Move::Wait)
        }
    } else if w >= frames_needed(p.step, typing) && !p.requested && !held {
        (Plan { requested: true, ..q }, Move::Request)
    } else {
        (q, Move::Wait)
    }
}

impl Plan {
    pub fn new() -> (r: Self)
        ensures
            r == (Plan { step: 0, typed_at: 0, waited: 0, requested: false }),
    {
        Plan { step: 0, typed_at: 0, waited: 0, requested: false }
    }

    /// The step the script stands at; nothing once it is through.
    pub fn current(&self) -> (r: Option<Step>)
        ensures
            match r {
                Some(x) => self.step < script().len() && x@ == script()[self.step as int],
                None => self.step >= script().len(),
            },
    {
        if self.step == 0 {
            Some(step(None, false, false, None, None, false, "1-空"))
        } else if self.step == 1 {
            Some(step(Some("中国"), false, false, None, None, false, "2-中文候选"))
        } else if self.step == 2 {
            Some(step(Some("中国"), true, false, None, None, false, "3-中文词条"))
        } else if self.step == 3 {
            Some(step(Some("zhonggu"), false, false, None, None, false, "4-拼音候选"))
        } else if self.step == 4 {
            Some(step(Some("compile"), false, false, None, None, false, "5-英文候选"))
        } else if self.step == 5 {
            Some(step(Some("compile"), true, false, None, None, false, "6-英文词条"))
        } else if self.step == 6 {
            Some(step(Some("意思"), true, false, None, None, false, "7-已重组词条"))
        } else if self.step == 7 {
            Some(step(Some("man"), false, true, None, None, false, "8-调参条与打分"))
        } else if self.step == 8 {
            Some(step(Some(""), false, false, Some("zhongwen"), None, false, "9-逐字符输入"))
        } else if self.step == 9 {
            Some(step(Some("中国"), false, false, None, Some("dd"), false, "10-方向键选中第3项"))
        } else if self.step == 10 {
            Some(step(None, false, false, None, Some("e"), false, "11-回车进词条"))
        } else if self.step == 11 {
            Some(step(None, false, false, None, Some("d"), false, "12-方向键退回并保留选中"))
        } else if self.step == 12 {
            Some(step(Some(""), false, false, None, None, true, "13-设置页"))
        } else {
            None
        }
    }

    /// One frame of the script.
    pub fn advance(&mut self, typing: usize, held: bool) -> (r: Move)
        requires
            old(self).waited < u32::MAX,
        ensures
            (*final(self), r) == advanced(*old(self), typing, held),
    {
        self.waited = self.waited + 1;
        let rested: bool = if self.step == 0 {
            self.waited >= 30
        } else {
            self.waited >= 14 && typing as u64 <= (self.waited as u64 - 14) / 2
        };
        if self.waited == 2 {
            Move::SetUp
        } else if self.waited > 2 && self.typed_at < typing {
            if self.waited % 2 == 0 {
                let at: usize = self.typed_at;
                self.typed_at = at + 1;
                Move::Send(at)
            } else {
                Move::Wait
            }
        } else if rested && !self.requested && !held {
            self.requested = true;
            Move::Request
        } else {
            Move::Wait
        }
    }

    /// Asks for the picture of a window of its own: once, when the step has waited for the
    /// animation.
    pub fn request_apart(&mut self) -> (r: bool)
        ensures
            r == (!old(self).requested && old(self).waited >= 14),
            *final(self) == (Plan { requested: old(self).requested || r, ..*old(self) }),
    {
        let r: bool = !self.requested && self.waited >= 14;
        if r {
            self.requested = true;
        }
        r
    }

    /// The picture of a step came in: on to the next.
    pub fn next(&mut self)
        requires
            old(self).step < usize::MAX,
        ensures
            *final(self) == (Plan {
                step: (old(self).step + 1) as usize,
                typed_at: 0,
                waited: 0,
                requested: false,
            }),
    {
        self.step = self.step + 1;
        self.waited = 0;
        self.typed_at = 0;
        self.requested = false;
    }
}

/// A step asks for one picture: once it was asked for, no frame asks again.
pub proof fn law_one_picture_to_a_step(p: Plan, typing: usize, held: bool)
    requires
        p.requested,
    ensures
        advanced(p, typing, held).1 != Move::Request,
        advanced(p, typing, held).0.requested,
{
}

// ───────────────────────── bitmaps ─────────────────────────

/// The number `-h` as its 32 bits: a height below zero says that rows go from the top down.
pub open spec fn negative32(h: usize) -> u32 {
    if h == 0 {
        0
    } else {
        (0x1_0000_0000 - h) as u32
    }
}

/// The header of a bitmap of `w` by `h` pixels, 32 bits each, from the top down.
pub open spec fn bmp_header(w: usize, h: usize) -> Seq<u8> {
    let pixels = w * 4 * h;
    seq![0x42u8, 0x4Du8] + put32((54 + pixels) as u32) + put16(0) + put16(0) + put32(54) + put32(40)
        + put32(w as u32) + put32(negative32(h)) + put16(1) + put16(32) + put32(0) + put32(
        pixels as u32,
    ) + put32(0) + put32(0) + put32(0) + put32(0)
}

/// Byte `k` of the pixels: red and blue change places.
pub open spec fn bgra_of(rgba: Seq<u8>, k: int) -> u8 {
    if k % 4 == 0 {
        rgba[k + 2]
    } else if k % 4 == 2 {
        rgba[k - 2]
    } else {
        rgba[k]
    }
}

/// A bitmap file of `w` by `h` pixels.
pub fn bmp(w: usize, h: usize, rgba: &[u8]) -> (r: Vec<u8>)
    requires
        rgba@.len() == w * 4 * h,
        w <= i32::MAX,
        h <= i32::MAX,
        54 + w * 4 * h <= usize::MAX,
    ensures
        r@ == bmp_header(w, h) + Seq::new(rgba@.len(), |k: int| bgra_of(rgba@, k)),
{
    let pixels: usize = rgba.len();
    let mut f: Vec<u8> = Vec::new();
    f.push(0x42);
    f.push(0x4D);
    assert(f@ =~= seq![0x42u8, 0x4Du8]);
    push_u32(&mut f, (54 + pixels) as u32);
    push_u16(&mut f, 0);
    push_u16(&mut f, 0);
    push_u32(&mut f, 54);
    push_u32(&mut f, 40);
    push_u32(&mut f, w as u32);
    let neg: u32 = if h == 0 {
        0
    } else {
        (0x1_0000_0000 - h as u64) as u32
    };
    push_u32(&mut f, neg);
    push_u16(&mut f, 1);
    push_u16(&mut f, 32);
    push_u32(&mut f, 0);
    push_u32(&mut f, pixels as u32);
    push_u32(&mut f, 0);
    push_u32(&mut f, 0);
    push_u32(&mut f, 0);
    push_u32(&mut f, 0);
    assert(f@ =~= bmp_header(w, h));
    let ghost want = Seq::new(rgba@.len(), |k: int| bgra_of(rgba@, k));
    let ghost head = f@;
    proof {
        assert(w * 4 * h == 4 * (w * h)) by (nonlinear_arith);
        let area = w * h;
        assert((4 * area) % 4 == 0);
    }
    let n: usize = pixels / 4;
    let mut i: usize = 0;
    while i < n
        invariant
            pixels == rgba@.len(),
            n == pixels / 4,
            i <= n,
            want == Seq::new(rgba@.len(), |k: int| bgra_of(rgba@, k)),
            f@ == head + want.take(4 * i),
        decreases n - i,
    {
        f.push(rgba[4 * i + 2]);
        f.push(rgba[4 * i + 1]);
        f.push(rgba[4 * i]);
        f.push(rgba[4 * i + 3]);
        assert(want.take(4 * i + 4) =~= want.take(4 * i).push(want[4 * i]).push(
            want[4 * i + 1],
        ).push(want[4 * i + 2]).push(want[4 * i + 3]));
        assert(f@ =~= head + want.take(4 * i + 4));
        i = i + 1;
    }
    assert(want.take(4 * n) =~= want);
    f
}

} // verus!
