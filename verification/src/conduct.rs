//! How the program behaves at the desktop: hotkeys, the tray, the window, the settings, and what
//! is spoken with which files.
use crate::bytes::{le32, lemma_le32_at, lemma_put32, put32};
use crate::engine::{
    backend_spec, first_kokoro, first_lib, is_library, load_order, load_rank_from, loadable,
    names_cuda, path_spec, pcm, rank_keys, unsigned16, wav_spec, Backend,
};
use crate::letters::{ascii_lower, lowercase};
use crate::number::decimal;
use crate::search::Params;
use crate::settings::{brought_into_range, held, params_of, with_params, Settings};
use crate::sorted::text_less;
use crate::text::{find, join, starts_with};
use crate::tray::{
    attempts_spec, bgra_byte, command_of, decision, fallback_list, item_event_spec, key_name,
    label_parts, window_calls, worth_trying, Act, Hotkey, TrayCommand, TrayEvent, WinCall,
    WinState,
};
use crate::voice::{
    extension, last_dot, last_play, least_onnx, model_file_spec, names_of, path_of, place_of,
    places, said, wanted, wanted_paths, Ask, CACHE_CAP, FileName, Wanted,
};
use crate::window::{
    after_act, first_vk, held_mods, tray_note, vk_spec, Tell, TrayStart, WindowState,
};
use vstd::prelude::*;
use vstd::string::*;

verus! {

// ───────────────────────── hotkeys ─────────────────────────

/// A hotkey is named by its modifiers, in the order Ctrl, Alt, Shift, Win, and its key.
pub proof fn law_a_hotkey_is_named_by_its_keys(h: Hotkey)
    ensures
        label_parts(h) == (if h.mods & 2 != 0 {
            seq![seq!['C', 't', 'r', 'l']]
        } else {
            Seq::<Seq<char>>::empty()
        }) + (if h.mods & 1 != 0 {
            seq![seq!['A', 'l', 't']]
        } else {
            Seq::<Seq<char>>::empty()
        }) + (if h.mods & 4 != 0 {
            seq![seq!['S', 'h', 'i', 'f', 't']]
        } else {
            Seq::<Seq<char>>::empty()
        }) + (if h.mods & 8 != 0 {
            seq![seq!['W', 'i', 'n']]
        } else {
            Seq::<Seq<char>>::empty()
        }) + seq![key_name(h.vk)],
        h.valid() <==> h.mods & 15 != 0 && h.vk != 0,
{
    reveal_strlit("Ctrl");
    reveal_strlit("Alt");
    reveal_strlit("Shift");
    reveal_strlit("Win");
    assert("Ctrl"@ =~= seq!['C', 't', 'r', 'l']);
    assert("Alt"@ =~= seq!['A', 'l', 't']);
    assert("Shift"@ =~= seq!['S', 'h', 'i', 'f', 't']);
    assert("Win"@ =~= seq!['W', 'i', 'n']);
    let e = Seq::<Seq<char>>::empty();
    let a = if h.mods & 2 != 0 {
        seq!["Ctrl"@]
    } else {
        e
    };
    let b = if h.mods & 1 != 0 {
        seq!["Alt"@]
    } else {
        e
    };
    let c = if h.mods & 4 != 0 {
        seq!["Shift"@]
    } else {
        e
    };
    let d = if h.mods & 8 != 0 {
        seq!["Win"@]
    } else {
        e
    };
    assert(label_parts(h) =~= a + b + c + d + seq![key_name(h.vk)]);
}

/// Letters, digits, the function keys and the space bar have the names that the interface knows
/// them by, and a name leads back to its key.
pub proof fn law_names_of_keys_lead_back(vk: u32)
    ensures
        0x30 <= vk <= 0x39 || 0x41 <= vk <= 0x5A ==> key_name(vk) == seq![vk as u8 as char]
            && vk_spec(key_name(vk)) == Some(vk),
        vk == 0x20 ==> key_name(vk) == seq!['S', 'p', 'a', 'c', 'e'] && vk_spec(key_name(vk))
            == Some(vk),
        0x70 <= vk <= 0x78 ==> key_name(vk) == seq!['F', ('1' as u32 + vk - 0x70) as u8 as char]
            && vk_spec(key_name(vk)) == Some(vk),
        0x79 <= vk <= 0x7B ==> key_name(vk) == seq![
            'F',
            '1',
            ('0' as u32 + vk - 0x79) as u8 as char,
        ] && vk_spec(key_name(vk)) == Some(vk),
{
    reveal_strlit("Space");
    reveal_strlit("F");
    assert("Space"@ =~= seq!['S', 'p', 'a', 'c', 'e']);
    assert("F"@ =~= seq!['F']);
    reveal_with_fuel(decimal, 3);
    if 0x70 <= vk <= 0x78 {
        let d = (vk - 0x6F) as nat;
        assert(decimal(d) =~= seq![('1' as u32 + vk - 0x70) as u8 as char]);
        assert(key_name(vk) =~= seq!['F', ('1' as u32 + vk - 0x70) as u8 as char]);
    } else if 0x79 <= vk <= 0x7B {
        let d = (vk - 0x6F) as nat;
        assert(d / 10 == 1);
        assert(decimal(d) =~= seq!['1', ('0' as u32 + vk - 0x79) as u8 as char]);
        assert(key_name(vk) =~= seq!['F', '1', ('0' as u32 + vk - 0x79) as u8 as char]);
    } else if 0x30 <= vk <= 0x39 || 0x41 <= vk <= 0x5A {
        assert(key_name(vk).len() == 1);
        assert("Space"@.len() == 5);
    }
}

proof fn lemma_worth(s: Seq<Hotkey>, h: Hotkey)
    requires
        s.contains(h),
        h.valid(),
    ensures
        worth_trying(s).contains(h),
    decreases s.len(),
{
    let u = s.drop_last();
    let a = worth_trying(u);
    let r = worth_trying(s);
    let i = choose|i: int| 0 <= i < s.len() && s[i] == h;
    if i < u.len() {
        assert(u[i] == h);
        lemma_worth(u, h);
        let j = choose|j: int| 0 <= j < a.len() && a[j] == h;
        assert(r[j] == h);
    } else if !a.contains(h) {
        assert(r[r.len() - 1] == h);
    }
}

proof fn lemma_worth_first(s: Seq<Hotkey>)
    requires
        s.len() > 0,
        s[0].valid(),
    ensures
        worth_trying(s).len() > 0,
        worth_trying(s)[0] == s[0],
    decreases s.len(),
{
    if s.len() > 1 {
        assert(s.drop_last()[0] == s[0]);
        lemma_worth_first(s.drop_last());
    } else {
        assert(worth_trying(s.drop_last()) =~= Seq::<Hotkey>::empty());
    }
}

/// The hotkey that is wanted is tried first, and after it Alt+1, Ctrl+Shift+D, Ctrl+Alt+Z,
/// Ctrl+Shift+Space, Alt+Shift+D and Ctrl+Alt+Q are tried too.
pub proof fn law_which_hotkeys_are_tried(want: Hotkey)
    ensures
        want.valid() ==> attempts_spec(want).len() > 0 && attempts_spec(want)[0] == want,
        attempts_spec(want).contains(Hotkey { mods: 1, vk: 0x31 }),
        attempts_spec(want).contains(Hotkey { mods: 6, vk: 0x44 }),
        attempts_spec(want).contains(Hotkey { mods: 3, vk: 0x5A }),
        attempts_spec(want).contains(Hotkey { mods: 6, vk: 0x20 }),
        attempts_spec(want).contains(Hotkey { mods: 5, vk: 0x44 }),
        attempts_spec(want).contains(Hotkey { mods: 3, vk: 0x51 }),
{
    let all = seq![want] + fallback_list();
    assert(1u32 & 15 != 0 && 6u32 & 15 != 0 && 3u32 & 15 != 0 && 5u32 & 15 != 0) by (bit_vector);
    if want.valid() {
        assert(all[0] == want);
        lemma_worth_first(all);
    }
    assert(all[1] == Hotkey { mods: 1, vk: 0x31 });
    assert(all[2] == Hotkey { mods: 6, vk: 0x44 });
    assert(all[3] == Hotkey { mods: 3, vk: 0x5A });
    assert(all[4] == Hotkey { mods: 6, vk: 0x20 });
    assert(all[5] == Hotkey { mods: 5, vk: 0x44 });
    assert(all[6] == Hotkey { mods: 3, vk: 0x51 });
    lemma_worth(all, Hotkey { mods: 1, vk: 0x31 });
    lemma_worth(all, Hotkey { mods: 6, vk: 0x44 });
    lemma_worth(all, Hotkey { mods: 3, vk: 0x5A });
    lemma_worth(all, Hotkey { mods: 6, vk: 0x20 });
    lemma_worth(all, Hotkey { mods: 5, vk: 0x44 });
    lemma_worth(all, Hotkey { mods: 3, vk: 0x51 });
}

/// The first key pressed that can be a hotkey counts, with the modifiers held: Alt is 1, Ctrl 2
/// and Shift 4.
pub proof fn law_the_first_key_pressed_counts(
    keys: Seq<Seq<char>>,
    k: int,
    ctrl: bool,
    alt: bool,
    shift: bool,
)
    requires
        0 <= k < keys.len(),
        vk_spec(keys[k]) is Some,
        forall|j: int| 0 <= j < k ==> vk_spec(#[trigger] keys[j]) is None,
    ensures
        first_vk(keys) == vk_spec(keys[k]),
        held_mods(ctrl, alt, shift) == (if alt {
            1int
        } else {
            0int
        }) + (if ctrl {
            2int
        } else {
            0int
        }) + (if shift {
            4int
        } else {
            0int
        }),
    decreases keys.len(),
{
    let u = keys.drop_last();
    if k < u.len() {
        assert(u[k] == keys[k]);
        assert forall|j: int| 0 <= j < k implies vk_spec(#[trigger] u[j]) is None by {
            assert(u[j] == keys[j]);
        }
        law_the_first_key_pressed_counts(u, k, ctrl, alt, shift);
    } else {
        lemma_no_vk(u, keys);
    }
}

proof fn lemma_no_vk(u: Seq<Seq<char>>, keys: Seq<Seq<char>>)
    requires
        u.len() <= keys.len(),
        forall|j: int| 0 <= j < u.len() ==> u[j] == keys[j],
        forall|j: int| 0 <= j < u.len() ==> vk_spec(#[trigger] keys[j]) is None,
    ensures
        first_vk(u) is None,
    decreases u.len(),
{
    if u.len() > 0 {
        assert(u[u.len() - 1] == keys[u.len() - 1]);
        lemma_no_vk(u.drop_last(), keys);
    }
}

// ───────────────────────── the tray ─────────────────────────

/// What the tray does: a click hides a window in sight and brings any other to the front, the
/// menu shows it, opens the settings without showing it, or quits.
pub proof fn law_what_the_tray_does(st: WinState)
    ensures
        decision(TrayEvent::Toggle, WinState::Front) == Act::Dismiss,
        st != WinState::Front ==> decision(TrayEvent::Toggle, st) == (Act::Summon { focus: true }),
        decision(TrayEvent::Show, WinState::Front) == Act::Keep,
        st != WinState::Front ==> decision(TrayEvent::Show, st) == (Act::Summon { focus: true }),
        decision(TrayEvent::Settings, WinState::Minimized) == (Act::OpenSettings { tuck: true }),
        st != WinState::Minimized ==> decision(TrayEvent::Settings, st) == (Act::OpenSettings {
            tuck: false,
        }),
        decision(TrayEvent::Quit, st) == Act::Quit,
{
}

/// How the window follows: it is restored and brought to the front, hidden, or tucked away; a
/// window that is not known is left alone.
pub proof fn law_how_the_window_follows(hwnd: usize, act: Act)
    ensures
        hwnd == 0 ==> window_calls(hwnd, act).len() == 0,
        hwnd != 0 ==> window_calls(hwnd, Act::Summon { focus: true }) == seq![
            WinCall::Restore,
            WinCall::Foreground,
        ],
        hwnd != 0 ==> window_calls(hwnd, Act::Summon { focus: false }) == seq![WinCall::Restore],
        hwnd != 0 ==> window_calls(hwnd, Act::Dismiss) == seq![WinCall::Hide],
        hwnd != 0 ==> window_calls(hwnd, Act::OpenSettings { tuck: true }) == seq![WinCall::Tuck],
        window_calls(hwnd, Act::OpenSettings { tuck: false }).len() == 0,
        window_calls(hwnd, Act::Keep).len() == 0,
        window_calls(hwnd, Act::Quit).len() == 0,
{
}

/// What a message to the tray's window means.
pub proof fn law_what_messages_mean(w: u32, l: u32)
    ensures
        command_of(0x8001, w, 0x0202) == TrayCommand::Event(TrayEvent::Toggle),
        command_of(0x8001, w, 0x0203) == TrayCommand::Event(TrayEvent::Toggle),
        command_of(0x8001, w, 0x0205) == TrayCommand::Menu,
        l != 0x0202 && l != 0x0203 && l != 0x0205 ==> command_of(0x8001, w, l)
            == TrayCommand::Nothing,
        command_of(0x0312, 0xD1C7, l) == TrayCommand::Event(TrayEvent::Toggle),
        w != 0xD1C7 ==> command_of(0x0312, w, l) == TrayCommand::Default,
        command_of(0x8002, w, l) == TrayCommand::Rebind(Hotkey { mods: w, vk: l }),
        command_of(0x8004, w, 1) == TrayCommand::Event(TrayEvent::Show),
        command_of(0x8004, w, 2) == TrayCommand::Event(TrayEvent::Settings),
        command_of(0x8004, w, 3) == TrayCommand::Event(TrayEvent::Quit),
        l == 0 || l > 3 ==> command_of(0x8004, w, l) == TrayCommand::Nothing,
        command_of(0x8003, w, l) == TrayCommand::Destroy,
        command_of(0x0002, w, l) == TrayCommand::Leave,
        item_event_spec(1) == Some(TrayEvent::Show),
        item_event_spec(2) == Some(TrayEvent::Settings),
        item_event_spec(3) == Some(TrayEvent::Quit),
{
}

/// A pixel of the tray icon is blue, green, red and opacity, each colour times the opacity.
pub proof fn law_pixels_of_the_tray_icon(rgba: Seq<u8>, p: int)
    requires
        0 <= p,
        4 * p + 3 < rgba.len(),
    ensures
        bgra_byte(rgba, 4 * p) == rgba[4 * p + 2] * rgba[4 * p + 3] / 255,
        bgra_byte(rgba, 4 * p + 1) == rgba[4 * p + 1] * rgba[4 * p + 3] / 255,
        bgra_byte(rgba, 4 * p + 2) == rgba[4 * p] * rgba[4 * p + 3] / 255,
        bgra_byte(rgba, 4 * p + 3) == rgba[4 * p + 3],
{
    let a = rgba[4 * p + 3];
    let b = rgba[4 * p + 2];
    let g = rgba[4 * p + 1];
    let r = rgba[4 * p];
    assert(b * a / 255 <= 255 && g * a / 255 <= 255 && r * a / 255 <= 255) by (nonlinear_arith)
        requires
            0 <= a <= 255,
            0 <= b <= 255,
            0 <= g <= 255,
            0 <= r <= 255,
    ;
    assert((4 * p + 1) / 4 * 4 == 4 * p && (4 * p + 2) / 4 * 4 == 4 * p && (4 * p + 3) / 4 * 4 == 4
        * p && 4 * p / 4 * 4 == 4 * p);
    assert(b * a >= 0 && g * a >= 0 && r * a >= 0) by (nonlinear_arith)
        requires
            0 <= a,
            0 <= b,
            0 <= g,
            0 <= r,
    ;
}

/// What the interface does of an act: the window comes with the focus if so, goes, or closes, and
/// the settings are put off by one frame.
pub proof fn law_the_interface_follows(w: WindowState, focus: bool, tuck: bool)
    requires
        w.frames < u64::MAX,
    ensures
        after_act(w, Act::Keep) == (w, Tell::Nothing),
        after_act(w, Act::Summon { focus }).0.visible,
        after_act(w, Act::Summon { focus }).0.focus_pending == (w.focus_pending || focus),
        after_act(w, Act::Summon { focus }).1 == (Tell::Visible { focus }),
        !after_act(w, Act::Dismiss).0.visible,
        after_act(w, Act::Dismiss).1 == Tell::Hidden,
        after_act(w, Act::OpenSettings { tuck }).0.visible == (w.visible && !tuck),
        after_act(w, Act::OpenSettings { tuck }).0.settings_after == Some((w.frames + 1) as u64),
        after_act(w, Act::OpenSettings { tuck }).1 == Tell::Again,
        after_act(w, Act::Quit).0.quitting,
        after_act(w, Act::Quit).1 == Tell::Close,
        !w.quitting ==> !after_act(w, Act::Summon { focus }).0.quitting && !after_act(
            w,
            Act::Dismiss,
        ).0.quitting && !after_act(w, Act::OpenSettings { tuck }).0.quitting,
{
}

/// What the user is told of the tray at the start.
pub proof fn law_what_is_told_of_the_tray(want: Hotkey, hk: Hotkey, note: Seq<char>, e: String)
    ensures
        tray_note(want, TrayStart::Up(Some(want)), note) == note,
        hk != want ==> tray_note(want, TrayStart::Up(Some(hk)), note) == join(
            label_parts(want),
            " + "@,
        ) + " 被别的软件占了，唤出快捷键改成 "@ + join(label_parts(hk), " + "@),
        tray_note(want, TrayStart::Up(None), note)
            == "所有候选快捷键都被占用，唤出快捷键未启用"@,
        tray_note(want, TrayStart::Down(e), note) == "托盘不可用："@ + e@,
{
}

// ───────────────────────── settings ─────────────────────────

/// What settings are brought to: a speed from 0.5 to 2, a bonus from 0 to 24, a penalty from 0
/// to 4, a share from 0 to 1, at most 8 hits of the second class, a window from 400 by 320 up to
/// 4000, and a hotkey that works; what is in range stays as it is.
pub proof fn law_settings_are_brought_into_range(s: Settings, r: Settings)
    requires
        brought_into_range(s, r),
        !s.speed.is_nan_spec(),
        !s.exact_bonus.is_nan_spec(),
        !s.lambda.is_nan_spec(),
        !s.secondary.is_nan_spec(),
    ensures
        0x3F00_0000 <= r.speed.order() <= 0x4000_0000,
        0 <= r.exact_bonus.order() <= 0x41C0_0000,
        0 <= r.lambda.order() <= 0x4080_0000,
        0 <= r.secondary.order() <= 0x3F80_0000,
        r.max_secondary <= 8,
        0x3F00_0000 <= s.speed.order() <= 0x4000_0000 ==> r.speed == s.speed,
        0 <= s.exact_bonus.order() <= 0x41C0_0000 ==> r.exact_bonus == s.exact_bonus,
        0 <= s.lambda.order() <= 0x4080_0000 ==> r.lambda == s.lambda,
        0 <= s.secondary.order() <= 0x3F80_0000 ==> r.secondary == s.secondary,
        s.max_secondary <= 8 ==> r.max_secondary == s.max_secondary,
        0x43C8_0000 <= r.window@[0].order() <= 0x457A_0000,
        0x43A0_0000 <= r.window@[1].order() <= 0x457A_0000,
        0x43C8_0000 <= s.window@[0].order() <= 0x457A_0000 ==> r.window@[0] == s.window@[0],
        0x43A0_0000 <= s.window@[1].order() <= 0x457A_0000 ==> r.window@[1] == s.window@[1],
        s.hotkey.mods & 15 != 0 && s.hotkey.vk != 0 ==> r.hotkey == s.hotkey,
        s.hotkey.mods & 15 == 0 || s.hotkey.vk == 0 ==> r.hotkey == (Hotkey { mods: 1, vk: 0x31 }),
        r.pinned == s.pinned && r.close_to_tray == s.close_to_tray,
        r.start_hidden == s.start_hidden && r.theme == s.theme && r.carrier == s.carrier,
        r.stable_order == s.stable_order && r.show_scores == s.show_scores,
{
}

/// The parameters of a lookup are those that the user set, and 8 hits of at most 250 000 keys at
/// a scale of 8; and setting them changes those four alone.
pub proof fn law_what_is_set_is_used(s: Settings, p: Params)
    ensures
        params_of(s).exact_bonus == s.exact_bonus,
        params_of(s).lambda == s.lambda,
        params_of(s).secondary == s.secondary,
        params_of(s).max_secondary == s.max_secondary,
        params_of(s).limit == 8,
        params_of(s).budget == 250_000,
        params_of(s).scale.bits == 0x4100_0000,
        with_params(s, p).exact_bonus == p.exact_bonus,
        with_params(s, p).lambda == p.lambda,
        with_params(s, p).secondary == p.secondary,
        with_params(s, p).max_secondary == p.max_secondary,
        with_params(s, p).hotkey == s.hotkey && with_params(s, p).window == s.window,
        with_params(s, p).pinned == s.pinned && with_params(s, p).close_to_tray == s.close_to_tray,
        with_params(s, p).start_hidden == s.start_hidden && with_params(s, p).theme == s.theme,
        with_params(s, p).speed == s.speed && with_params(s, p).carrier == s.carrier,
        with_params(s, p).stable_order == s.stable_order && with_params(s, p).show_scores
            == s.show_scores,
{
}

// ───────────────────────── speech ─────────────────────────

/// What is said: with the switch on a text of up to eight characters without a full stop or a
/// comma is said behind a few words in its own language, and any other text as it is.
pub proof fn law_what_is_said_of_a_text(text: Seq<char>)
    ensures
        said(text, false) == text,
        text.len() > 8 ==> said(text, true) == text,
        (exists|i: int|
            0 <= i < text.len() && (#[trigger] text[i] == '。' || text[i] == '.' || text[i] == '，'
                || text[i] == ',')) ==> said(text, true) == text,
        text.len() <= 8 && (forall|i: int|
            0 <= i < text.len() ==> #[trigger] text[i] != '。' && text[i] != '.' && text[i] != '，'
                && text[i] != ',') && crate::search::without_han(text) ==> said(text, true)
            == "The word is, "@ + text,
        text.len() <= 8 && (forall|i: int|
            0 <= i < text.len() ==> #[trigger] text[i] != '。' && text[i] != '.' && text[i] != '，'
                && text[i] != ',') && !crate::search::without_han(text) ==> said(text, true)
            == "这个词是，"@ + text,
{
    crate::search::lemma_means(crate::lane::Lane::Zh, text);
    if forall|i: int|
        0 <= i < text.len() ==> #[trigger] text[i] != '。' && text[i] != '.' && text[i] != '，'
            && text[i] != ',' {
        assert forall|i: int| 0 <= i < text.len() implies !crate::voice::is_pause(
            #[trigger] text[i],
        ) by {}
    }
    if exists|i: int|
        0 <= i < text.len() && (#[trigger] text[i] == '。' || text[i] == '.' || text[i] == '，'
            || text[i] == ',') {
        let i = choose|i: int|
            0 <= i < text.len() && (#[trigger] text[i] == '。' || text[i] == '.' || text[i] == '，'
                || text[i] == ',');
        assert(crate::voice::is_pause(text[i]));
    }
}

proof fn lemma_places(q: Seq<Ask>, a: Ask, i: int)
    requires
        0 <= i < q.len() <= usize::MAX,
    ensures
        places(q, a).contains(i as usize) <==> q[i] == a,
    decreases q.len(),
{
    let u = q.drop_last();
    let p = places(u, a);
    let r = places(q, a);
    if i < u.len() {
        assert(u[i] == q[i]);
        lemma_places(u, a, i);
        if p.contains(i as usize) {
            let k = choose|k: int| 0 <= k < p.len() && p[k] == i as usize;
            assert(r[k] == i as usize);
        }
        if r.contains(i as usize) {
            let k = choose|k: int| 0 <= k < r.len() && r[k] == i as usize;
            if k < p.len() {
                assert(p[k] == i as usize);
            }
        }
    } else {
        lemma_places_below(u, a);
        if q[i] == a {
            assert(r[r.len() - 1] == i as usize);
        }
    }
}

proof fn lemma_places_below(q: Seq<Ask>, a: Ask)
    requires
        q.len() <= usize::MAX,
    ensures
        forall|k: int| 0 <= k < places(q, a).len() ==> (#[trigger] places(q, a)[k]) < q.len(),
    decreases q.len(),
{
    if q.len() > 0 {
        let u = q.drop_last();
        lemma_places_below(u, a);
        assert forall|k: int| 0 <= k < places(q, a).len() implies (#[trigger] places(q, a)[k])
            < q.len() by {
            if k < places(u, a).len() {
                assert(places(q, a)[k] == places(u, a)[k]);
            }
        }
    }
}

/// Of the requests that piled up all of one kind are served, whatever came before.
pub proof fn law_requests_of_a_kind_are_all_served(q: Seq<Ask>, a: Ask, i: int)
    requires
        0 <= i < q.len() <= usize::MAX,
    ensures
        places(q, a).contains(i as usize) <==> q[i] == a,
{
    lemma_places(q, a, i);
}

/// The last request to play counts, unless a request to stop came after it.
pub proof fn law_the_last_request_to_play_counts(q: Seq<Ask>, i: int)
    requires
        0 <= i < q.len() <= usize::MAX,
        q[i] == Ask::Play,
        forall|j: int| i < j < q.len() ==> #[trigger] q[j] != Ask::Play && q[j] != Ask::Stop,
    ensures
        last_play(q) == Some(i as usize),
    decreases q.len(),
{
    if i < q.len() - 1 {
        let u = q.drop_last();
        assert(q[q.len() - 1] != Ask::Play && q[q.len() - 1] != Ask::Stop);
        assert(u[i] == q[i]);
        assert forall|j: int| i < j < u.len() implies #[trigger] u[j] != Ask::Play && u[j]
            != Ask::Stop by {
            assert(u[j] == q[j]);
        }
        law_the_last_request_to_play_counts(u, i);
    }
}

/// After a request to stop nothing is played.
pub proof fn law_stopping_drops_what_was_to_play(q: Seq<Ask>, i: int)
    requires
        0 <= i < q.len(),
        q[i] == Ask::Stop,
        forall|j: int| i < j < q.len() ==> #[trigger] q[j] != Ask::Play,
    ensures
        last_play(q) is None,
    decreases q.len(),
{
    if i < q.len() - 1 {
        let u = q.drop_last();
        assert(q[q.len() - 1] != Ask::Play);
        assert(u[i] == q[i]);
        assert forall|j: int| i < j < u.len() implies #[trigger] u[j] != Ask::Play by {
            assert(u[j] == q[j]);
        }
        law_stopping_drops_what_was_to_play(u, i);
    }
}

/// Up to 128 pieces of speech are kept.
pub proof fn law_how_much_speech_is_kept()
    ensures
        CACHE_CAP == 128,
{
}

/// What follows the last dot of a name is its extension, unless the name begins with it.
pub proof fn law_what_an_extension_is(stem: Seq<char>, ext: Seq<char>)
    requires
        stem.len() > 0,
        crate::text::lacks(ext, '.'),
    ensures
        extension(stem + seq!['.'] + ext) == Some(ext),
        extension(ext) is None,
{
    let s = stem + seq!['.'] + ext;
    lemma_last_dot(s, s.len() as int, stem.len() as int);
    assert(s.skip(stem.len() as int + 1) =~= ext);
    lemma_no_dot(ext, ext.len() as int);
}

proof fn lemma_last_dot(s: Seq<char>, k: int, d: int)
    requires
        0 < d < k <= s.len(),
        s[d] == '.',
        forall|j: int| d < j < k ==> #[trigger] s[j] != '.',
    ensures
        last_dot(s, k) == Some(s.skip(d + 1)),
    decreases k,
{
    if k > d + 1 {
        assert(s[k - 1] != '.');
        lemma_last_dot(s, k - 1, d);
    }
}

proof fn lemma_no_dot(s: Seq<char>, k: int)
    requires
        0 <= k <= s.len(),
        crate::text::lacks(s, '.'),
    ensures
        last_dot(s, k) is None,
    decreases k,
{
    if k > 1 {
        assert(s[k - 1] != '.');
        lemma_no_dot(s, k - 1);
    }
}

/// The first file of a name.
pub proof fn law_a_file_is_found_by_its_name(names: Seq<Seq<char>>, want: Seq<char>, k: int)
    requires
        0 <= k < names.len() <= usize::MAX,
        names[k] == want,
        forall|j: int| 0 <= j < k ==> #[trigger] names[j] != want,
    ensures
        place_of(names, want) == Some(k as usize),
    decreases names.len(),
{
    let u = names.drop_last();
    if k < u.len() {
        assert(u[k] == names[k]);
        assert forall|j: int| 0 <= j < k implies #[trigger] u[j] != want by {
            assert(u[j] == names[j]);
        }
        law_a_file_is_found_by_its_name(u, want, k);
    } else {
        lemma_absent_name(u, want);
    }
}

proof fn lemma_absent_name(names: Seq<Seq<char>>, want: Seq<char>)
    requires
        forall|j: int| 0 <= j < names.len() ==> #[trigger] names[j] != want,
    ensures
        place_of(names, want) is None,
    decreases names.len(),
{
    if names.len() > 0 {
        let u = names.drop_last();
        assert forall|j: int| 0 <= j < u.len() implies #[trigger] u[j] != want by {
            assert(u[j] == names[j]);
        }
        lemma_absent_name(u, want);
        assert(names[names.len() - 1] != want);
    }
}

/// The model is `model.onnx`, or without it `model.int8.onnx`, or without that the first `.onnx`
/// file by name.
pub proof fn law_which_file_is_the_model(names: Seq<Seq<char>>, k: int)
    requires
        0 <= k < names.len() <= usize::MAX,
    ensures
        names[k] == "model.onnx"@ ==> (model_file_spec(names) matches Some(i) && i < names.len()
            && names[i as int] == "model.onnx"@),
        !names.contains("model.onnx"@) && names[k] == "model.int8.onnx"@ ==> (model_file_spec(
            names,
        ) matches Some(i) && i < names.len() && names[i as int] == "model.int8.onnx"@),
        !names.contains("model.onnx"@) && !names.contains("model.int8.onnx"@) && extension(
            names[k],
        ) == Some("onnx"@) ==> (model_file_spec(names) matches Some(i) && i < names.len()
            && extension(names[i as int]) == Some("onnx"@) && !text_less(
            names[k],
            names[i as int],
        )),
{
    lemma_place_found(names, "model.onnx"@, k);
    lemma_place_found(names, "model.int8.onnx"@, k);
    if !names.contains("model.onnx"@) {
        assert forall|j: int| 0 <= j < names.len() implies #[trigger] names[j] != "model.onnx"@ by {
            assert(names.contains(names[j]));
        }
        lemma_absent_name(names, "model.onnx"@);
    }
    if !names.contains("model.int8.onnx"@) {
        assert forall|j: int| 0 <= j < names.len() implies #[trigger] names[j]
            != "model.int8.onnx"@ by {
            assert(names.contains(names[j]));
        }
        lemma_absent_name(names, "model.int8.onnx"@);
    }
    if extension(names[k]) == Some("onnx"@) {
        lemma_least(names, k);
    }
}

proof fn lemma_place_found(names: Seq<Seq<char>>, want: Seq<char>, k: int)
    requires
        0 <= k < names.len() <= usize::MAX,
    ensures
        names[k] == want ==> (place_of(names, want) matches Some(i) && i < names.len()
            && names[i as int] == want),
    decreases names.len(),
{
    let u = names.drop_last();
    if k < u.len() {
        lemma_place_found(u, want, k);
        assert(u[k] == names[k]);
        if names[k] == want {
            let i = place_of(u, want)->0;
            assert(u[i as int] == names[i as int]);
        }
    } else {
        lemma_place_right(u, want);
        if place_of(u, want) is Some {
            let i = place_of(u, want)->0;
            assert(u[i as int] == names[i as int]);
        }
    }
}

proof fn lemma_place_right(names: Seq<Seq<char>>, want: Seq<char>)
    requires
        names.len() <= usize::MAX,
    ensures
        place_of(names, want) matches Some(i) ==> i < names.len() && names[i as int] == want,
    decreases names.len(),
{
    if names.len() > 0 {
        lemma_place_right(names.drop_last(), want);
        if let Some(i) = place_of(names.drop_last(), want) {
            assert(names.drop_last()[i as int] == names[i as int]);
        }
    }
}

proof fn lemma_least(names: Seq<Seq<char>>, k: int)
    requires
        0 <= k < names.len() <= usize::MAX,
        extension(names[k]) == Some("onnx"@),
    ensures
        least_onnx(names) matches Some(i) && i < names.len() && extension(names[i as int]) == Some(
            "onnx"@,
        ) && !text_less(names[k], names[i as int]),
    decreases names.len(),
{
    let u = names.drop_last();
    let x = names.last();
    lemma_least_right(u);
    crate::sorted::lemma_text_irreflexive(x);
    if k < u.len() {
        assert(u[k] == names[k]);
        lemma_least(u, k);
        let i = least_onnx(u)->0;
        assert(u[i as int] == names[i as int]);
        if extension(x) == Some("onnx"@) && text_less(x, names[i as int]) {
            if text_less(names[k], x) {
                crate::sorted::lemma_text_transitive(names[k], x, names[i as int]);
            }
        }
    } else {
        assert(names[k] == x);
        if let Some(i) = least_onnx(u) {
            assert(u[i as int] == names[i as int]);
        }
    }
}

proof fn lemma_least_right(names: Seq<Seq<char>>)
    requires
        names.len() <= usize::MAX,
    ensures
        least_onnx(names) matches Some(i) ==> i < names.len() && extension(names[i as int]) == Some(
            "onnx"@,
        ),
    decreases names.len(),
{
    if names.len() > 0 {
        lemma_least_right(names.drop_last());
        if let Some(i) = least_onnx(names.drop_last()) {
            assert(names.drop_last()[i as int] == names[i as int]);
        }
    }
}

/// The rules are the files that end in `.fst`, the lexicons those named `lexicon….txt`, and every
/// such file is listed.
pub proof fn law_rules_and_lexicons_are_listed(files: Seq<FileName>, f: FileName, w: Wanted)
    ensures
        wanted_paths(w, files.push(f)) == if wanted(w, f.name@) {
            wanted_paths(w, files).push(f.path@)
        } else {
            wanted_paths(w, files)
        },
        wanted(Wanted::Rules, f.name@) <==> extension(f.name@) == Some("fst"@),
        wanted(Wanted::Lexicons, f.name@) <==> crate::text::starts_with(f.name@, "lexicon"@)
            && crate::text::ends_with(f.name@, ".txt"@),
{
    assert(files.push(f).drop_last() =~= files);
    assert(files.push(f).last() == f);
}

// ───────────────────────── the engine ─────────────────────────

/// The first library of a kind, where one counts as made for the graphics card if its path says
/// `cuda` in any case.
pub proof fn law_the_first_library_of_a_kind(libs: Seq<Seq<char>>, cuda: bool, k: int)
    requires
        0 <= k < libs.len() <= usize::MAX,
        names_cuda(libs[k]) == cuda,
        forall|j: int| 0 <= j < k ==> names_cuda(#[trigger] libs[j]) != cuda,
    ensures
        first_lib(libs, cuda) == Some(k as usize),
        names_cuda(libs[k]) <==> find(lowercase(libs[k]), "cuda"@) is Some,
    decreases libs.len(),
{
    let u = libs.drop_last();
    if k < u.len() {
        assert(u[k] == libs[k]);
        assert forall|j: int| 0 <= j < k implies names_cuda(#[trigger] u[j]) != cuda by {
            assert(u[j] == libs[j]);
        }
        law_the_first_library_of_a_kind(u, cuda, k);
    } else {
        lemma_no_lib(u, libs, cuda);
    }
}

proof fn lemma_no_lib(u: Seq<Seq<char>>, libs: Seq<Seq<char>>, cuda: bool)
    requires
        u.len() <= libs.len(),
        forall|j: int| 0 <= j < u.len() ==> u[j] == libs[j],
        forall|j: int| 0 <= j < u.len() ==> names_cuda(#[trigger] libs[j]) != cuda,
    ensures
        first_lib(u, cuda) is None,
    decreases u.len(),
{
    if u.len() > 0 {
        assert(u[u.len() - 1] == libs[u.len() - 1]);
        lemma_no_lib(u.drop_last(), libs, cuda);
    }
}

/// The graphics card is used where it was asked for, or was not asked about and its libraries
/// are there, if there is a library for it; else the first one for the processor, and else the
/// first of all.
pub proof fn law_which_engine_is_used(
    libs: Seq<Seq<char>>,
    asked: Option<Seq<char>>,
    has_dirs: bool,
)
    ensures
        ({
            let card = first_lib(libs, true);
            let cpu = first_lib(libs, false);
            let wants = asked == Some("cuda"@) || (asked != Some("cuda"@) && asked != Some("cpu"@)
                && has_dirs && card is Some);
            &&& wants && card is Some ==> backend_spec(libs, asked, has_dirs) == Some(
                Backend { lib: card->0, cuda: true },
            )
            &&& !(wants && card is Some) && cpu is Some ==> backend_spec(libs, asked, has_dirs)
                == Some(Backend { lib: cpu->0, cuda: false })
            &&& !(wants && card is Some) && cpu is None && libs.len() > 0 ==> backend_spec(
                libs,
                asked,
                has_dirs,
            ) == Some(Backend { lib: 0, cuda: false })
            &&& libs.len() == 0 ==> backend_spec(libs, asked, has_dirs) is None
        }),
{
    reveal_strlit("cuda");
    reveal_strlit("cpu");
    assert("cuda"@.len() == 4 && "cpu"@.len() == 3);
    if libs.len() == 0 {
        assert(first_lib(libs, true) is None && first_lib(libs, false) is None);
    }
}

/// The first model whose name begins with `kokoro`.
pub proof fn law_the_first_kokoro_is_used(names: Seq<Seq<char>>, k: int)
    requires
        0 <= k < names.len() <= usize::MAX,
        starts_with(names[k], "kokoro"@),
        forall|j: int| 0 <= j < k ==> !starts_with(#[trigger] names[j], "kokoro"@),
    ensures
        first_kokoro(names) == Some(k as usize),
    decreases names.len(),
{
    let u = names.drop_last();
    if k < u.len() {
        assert(u[k] == names[k]);
        assert forall|j: int| 0 <= j < k implies !starts_with(#[trigger] u[j], "kokoro"@) by {
            assert(u[j] == names[j]);
        }
        law_the_first_kokoro_is_used(u, k);
    } else {
        lemma_no_kokoro(u, names);
    }
}

proof fn lemma_no_kokoro(u: Seq<Seq<char>>, names: Seq<Seq<char>>)
    requires
        u.len() <= names.len(),
        forall|j: int| 0 <= j < u.len() ==> u[j] == names[j],
        forall|j: int| 0 <= j < u.len() ==> !starts_with(#[trigger] names[j], "kokoro"@),
    ensures
        first_kokoro(u) is None,
    decreases u.len(),
{
    if u.len() > 0 {
        assert(u[u.len() - 1] == names[u.len() - 1]);
        lemma_no_kokoro(u.drop_last(), names);
    }
}

/// Directories stand before the search path, each with a semicolon, the last one first.
pub proof fn law_directories_stand_before_the_path(
    dirs: Seq<Seq<char>>,
    d: Seq<char>,
    path: Seq<char>,
)
    ensures
        path_spec(dirs.push(d), path) == d + seq![';'] + path_spec(dirs, path),
        path_spec(Seq::empty(), path) == path,
{
    reveal_strlit(";");
    assert(";"@ =~= seq![';']);
    assert(dirs.push(d).drop_last() =~= dirs);
    assert(dirs.push(d).last() == d);
}

/// Libraries load in the order that they need each other, and every one of a known kind loads.
pub proof fn law_which_libraries_load(names: Seq<Seq<char>>, x: Seq<char>, k: int)
    requires
        names.len() < usize::MAX,
    ensures
        load_order() == seq![
            "cudart64_"@,
            "nvrtc"@,
            "cublasLt64_"@,
            "cublas64_"@,
            "cufft64_"@,
            "curand64_"@,
            "cusparse64_"@,
            "cudnn_"@,
            "cudnn64_"@,
        ],
        0 <= k < 9 && starts_with(x, load_order()[k]) && (forall|j: int|
            0 <= j < k ==> !starts_with(x, #[trigger] load_order()[j])) ==> load_rank_from(x, 0)
            == Some(k),
        is_library(x) <==> (extension(x) is Some && ascii_lower(extension(x)->0) == "dll"@),
        loadable(names.push(x)) == if is_library(x) && load_rank_from(x, 0) is Some {
            loadable(names).push(names.len() as usize)
        } else {
            loadable(names)
        },
{
    assert(names.push(x).drop_last() =~= names);
    assert(names.push(x).last() == x);
    if 0 <= k < 9 && starts_with(x, load_order()[k]) && (forall|j: int|
        0 <= j < k ==> !starts_with(x, #[trigger] load_order()[j])) {
        lemma_load_rank(x, 0, k);
    }
}

proof fn lemma_load_rank(x: Seq<char>, i: int, k: int)
    requires
        0 <= i <= k < 9,
        starts_with(x, load_order()[k]),
        forall|j: int| i <= j < k ==> !starts_with(x, #[trigger] load_order()[j]),
    ensures
        load_rank_from(x, i) == Some(k),
    decreases k - i,
{
    if i < k {
        assert(!starts_with(x, load_order()[i]));
        lemma_load_rank(x, i + 1, k);
    }
}

proof fn lemma_pcm(s: Seq<i16>, i: int)
    ensures
        pcm(s).len() == 2 * s.len(),
        0 <= i < s.len() ==> pcm(s)[2 * i] == (unsigned16(s[i]) % 0x100) as u8 && pcm(s)[2 * i + 1]
            == (unsigned16(s[i]) / 0x100) as u8,
    decreases s.len(),
{
    if s.len() > 0 {
        lemma_pcm(s.drop_last(), i);
        if 0 <= i < s.len() - 1 {
            assert(s.drop_last()[i] == s[i]);
        }
    }
}

/// A sound file is a header of 44 bytes, which has the size, one channel, the rate, 16 bits and
/// the length of the samples, and then every sample, the low byte first.
pub proof fn law_a_sound_file(s: Seq<i16>, rate: u32, i: int)
    requires
        36 + 2 * s.len() <= u32::MAX,
        2 * rate <= u32::MAX,
    ensures
        wav_spec(s, rate).len() == 44 + 2 * s.len(),
        le32(wav_spec(s, rate), 4) == 36 + 2 * s.len(),
        le32(wav_spec(s, rate), 24) == rate,
        le32(wav_spec(s, rate), 28) == 2 * rate,
        le32(wav_spec(s, rate), 40) == 2 * s.len(),
        wav_spec(s, rate).take(4) == seq![0x52u8, 0x49u8, 0x46u8, 0x46u8],
        wav_spec(s, rate)[20] == 1 && wav_spec(s, rate)[22] == 1,
        wav_spec(s, rate)[32] == 2 && wav_spec(s, rate)[34] == 16,
        0 <= i < s.len() && s[i] >= 0 ==> wav_spec(s, rate)[44 + 2 * i] + 0x100 * wav_spec(
            s,
            rate,
        )[45 + 2 * i] == s[i],
        0 <= i < s.len() && s[i] < 0 ==> wav_spec(s, rate)[44 + 2 * i] + 0x100 * wav_spec(
            s,
            rate,
        )[45 + 2 * i] == 0x1_0000 + s[i],
{
    let w = wav_spec(s, rate);
    let n = (s.len() * 2) as u32;
    lemma_pcm(s, i);
    lemma_put32((36 + n) as u32);
    lemma_put32(rate);
    lemma_put32((rate * 2) as u32);
    lemma_put32(n);
    assert(w.len() == 44 + pcm(s).len());
    lemma_le32_at(w, 4);
    lemma_le32_at(w, 24);
    lemma_le32_at(w, 28);
    lemma_le32_at(w, 40);
    assert(w.subrange(4, 8) =~= put32((36 + n) as u32));
    assert(w.subrange(24, 28) =~= put32(rate));
    assert(w.subrange(28, 32) =~= put32((rate * 2) as u32));
    assert(w.subrange(40, 44) =~= put32(n));
    assert(w.take(4) =~= seq![0x52u8, 0x49u8, 0x46u8, 0x46u8]);
    if 0 <= i < s.len() {
        assert(w[44 + 2 * i] == pcm(s)[2 * i]);
        assert(w[45 + 2 * i] == pcm(s)[2 * i + 1]);
    }
}

/// A key is known by its name alone, and a name that no key has is no key.
pub proof fn law_only_names_of_keys_are_keys(name: Seq<char>)
    ensures
        vk_spec(name) matches Some(vk) ==> vk == 0x20 || 0x30 <= vk <= 0x39 || 0x41 <= vk <= 0x5A
            || 0x70 <= vk <= 0x7B,
        vk_spec(name) matches Some(vk) ==> name == key_name(vk),
{
    reveal_strlit("Space");
    reveal_strlit("F");
    if vk_spec(name) is Some {
        let vk = vk_spec(name)->0;
        law_names_of_keys_lead_back(vk);
        assert(name =~= key_name(vk));
    }
}

/// Keys without a letter of their own are named by their number.
pub proof fn law_other_keys_are_named_by_number(vk: u32)
    ensures
        key_name(0x0D) == seq!['E', 'n', 't', 'e', 'r'],
        key_name(0x1B) == seq!['E', 's', 'c'],
        vk < 16 && vk != 0x0D ==> key_name(vk) == seq!['V', 'K', '0', 'x', '0'] + crate::tray::hex(
            vk as nat,
        ),
        vk >= 16 && vk != 0x1B && vk != 0x20 && !(0x30 <= vk <= 0x39) && !(0x41 <= vk <= 0x5A) && !(
        0x70 <= vk <= 0x7B) ==> key_name(vk) == seq!['V', 'K', '0', 'x'] + crate::tray::hex(
            vk as nat,
        ),
{
    reveal_strlit("Enter");
    reveal_strlit("Esc");
    reveal_strlit("VK0x0");
    reveal_strlit("VK0x");
    assert("Enter"@ =~= seq!['E', 'n', 't', 'e', 'r']);
    assert("Esc"@ =~= seq!['E', 's', 'c']);
    assert("VK0x0"@ =~= seq!['V', 'K', '0', 'x', '0']);
    assert("VK0x"@ =~= seq!['V', 'K', '0', 'x']);
}

proof fn lemma_worth_trying(s: Seq<Hotkey>)
    ensures
        worth_trying(s).no_duplicates(),
        forall|h: Hotkey| #[trigger] worth_trying(s).contains(h) <==> s.contains(h) && h.valid(),
    decreases s.len(),
{
    if s.len() > 0 {
        let u = s.drop_last();
        let x = s.last();
        lemma_worth_trying(u);
        let a = worth_trying(u);
        assert forall|h: Hotkey| #[trigger] worth_trying(s).contains(h) <==> s.contains(h)
            && h.valid() by {
            assert(s =~= u.push(x));
            if s.contains(h) {
                let k = choose|k: int| 0 <= k < s.len() && s[k] == h;
                if k < u.len() {
                    assert(u[k] == h);
                }
            }
            if u.contains(h) {
                let k = choose|k: int| 0 <= k < u.len() && u[k] == h;
                assert(s[k] == h);
            }
            assert(s[s.len() - 1] == x);
            if !(!x.valid() || a.contains(x)) {
                if a.contains(h) {
                    let k = choose|k: int| 0 <= k < a.len() && a[k] == h;
                    assert(a.push(x)[k] == h);
                }
                assert(a.push(x)[a.len() as int] == x);
            }
        }
        if !(!x.valid() || a.contains(x)) {
            assert forall|i: int, j: int|
                0 <= i < a.push(x).len() && 0 <= j < a.push(x).len() && i != j implies a.push(
                x,
            )[i] != a.push(x)[j] by {
                if i == a.len() {
                    assert(a.contains(a[j]));
                } else if j == a.len() {
                    assert(a.contains(a[i]));
                }
            }
        }
    } else {
        assert(worth_trying(s).len() == 0);
    }
}

/// No hotkey is tried twice, and none that lacks a modifier or a key; what is tried is the one
/// that was asked for or one of the list.
pub proof fn law_no_hotkey_is_tried_twice(want: Hotkey, i: int, j: int)
    ensures
        0 <= i < j < attempts_spec(want).len() ==> attempts_spec(want)[i] != attempts_spec(
            want,
        )[j],
        0 <= i < attempts_spec(want).len() ==> {
            let h = attempts_spec(want)[i];
            h.mods & 15 != 0 && h.vk != 0 && (h == want || h == Hotkey { mods: 1, vk: 0x31 } || h
                == Hotkey { mods: 6, vk: 0x44 } || h == Hotkey { mods: 3, vk: 0x5A } || h
                == Hotkey { mods: 6, vk: 0x20 } || h == Hotkey { mods: 5, vk: 0x44 } || h
                == Hotkey { mods: 3, vk: 0x51 })
        },
{
    lemma_worth_trying(seq![want] + fallback_list());
    if 0 <= i < attempts_spec(want).len() {
        let h = attempts_spec(want)[i];
        assert(attempts_spec(want).contains(h));
        assert((seq![want] + fallback_list()).contains(h));
        law_a_hotkey_is_named_by_its_keys(h);
    }
}

/// Messages that are not the tray's own are left to the system, and so are item numbers that
/// the menu lacks.
pub proof fn law_other_messages_are_left(msg: u32, w: u32, l: u32)
    ensures
        msg != 0x8001 && msg != 0x0312 && msg != 0x8002 && msg != 0x8004 && msg != 0x8003 && msg
            != 0x0002 ==> command_of(msg, w, l) == TrayCommand::Default,
        l == 0 || l > 3 ==> item_event_spec(l) is None,
{
}

/// Each act changes of the window only what it is about.
pub proof fn law_acts_leave_the_rest(w: WindowState, focus: bool, tuck: bool)
    requires
        w.frames < u64::MAX,
    ensures
        after_act(w, Act::Summon { focus }).0 == (WindowState {
            visible: true,
            focus_pending: focus || w.focus_pending,
            ..w
        }),
        after_act(w, Act::Dismiss).0 == (WindowState { visible: false, ..w }),
        after_act(w, Act::Quit).0 == (WindowState { quitting: true, ..w }),
        after_act(w, Act::OpenSettings { tuck }).0.focus_pending == w.focus_pending,
        after_act(w, Act::OpenSettings { tuck }).0.settings_open == w.settings_open,
        after_act(w, Act::OpenSettings { tuck }).0.frames == w.frames,
{
}

/// What lies outside a range is brought to its nearer end, and a window that is too small, or
/// whose side is no finite number, gets its default.
pub proof fn law_ends_of_the_ranges(s: Settings, r: Settings)
    requires
        brought_into_range(s, r),
        !s.speed.is_nan_spec(),
        !s.exact_bonus.is_nan_spec(),
        !s.lambda.is_nan_spec(),
        !s.secondary.is_nan_spec(),
    ensures
        s.speed.order() < 0x3F00_0000 ==> r.speed.bits == 0x3F00_0000,
        s.speed.order() > 0x4000_0000 ==> r.speed.bits == 0x4000_0000,
        s.exact_bonus.order() < 0 ==> r.exact_bonus.bits == 0,
        s.exact_bonus.order() > 0x41C0_0000 ==> r.exact_bonus.bits == 0x41C0_0000,
        s.lambda.order() < 0 ==> r.lambda.bits == 0,
        s.lambda.order() > 0x4080_0000 ==> r.lambda.bits == 0x4080_0000,
        s.secondary.order() < 0 ==> r.secondary.bits == 0,
        s.secondary.order() > 0x3F80_0000 ==> r.secondary.bits == 0x3F80_0000,
        s.max_secondary > 8 ==> r.max_secondary == 8,
        !s.window@[0].is_nan_spec() && s.window@[0].order() < 0x43C8_0000 ==> r.window@[0].bits
            == 0x43E5_0000,
        !s.window@[1].is_nan_spec() && s.window@[1].order() < 0x43A0_0000 ==> r.window@[1].bits
            == 0x441E_0000,
        s.window@[0].order() > 0x457A_0000 && s.window@[0].order() < 0x7f80_0000
            ==> r.window@[0].bits == 0x457A_0000,
        s.window@[1].order() > 0x457A_0000 && s.window@[1].order() < 0x7f80_0000
            ==> r.window@[1].bits == 0x457A_0000,
{
}

/// What is made ahead is what will be said of a word.
pub proof fn law_what_is_made_ahead(word: Seq<char>)
    ensures
        crate::voice::made_ahead(word, false) == word,
        crate::search::without_han(word) ==> crate::voice::made_ahead(word, true)
            == "The word is, "@ + word,
        !crate::search::without_han(word) ==> crate::voice::made_ahead(word, true) == "这个词是，"@
            + word,
{
    if crate::search::has_cjk(word) {
        let i = choose|i: int|
            0 <= i < word.len() && crate::text::is_cjk_spec(#[trigger] word[i]);
        assert(!crate::search::without_han(word));
    } else {
        assert forall|j: int| 0 <= j < word.len() implies ({
            let u = #[trigger] word[j] as u32;
            !(0x3400 <= u <= 0x4DBF) && !(0x4E00 <= u <= 0x9FFF) && !(0xF900 <= u <= 0xFAFF) && !(
            0x20000 <= u <= 0x2FA1F)
        }) by {
            assert(!crate::text::is_cjk_spec(word[j]));
        }
    }
}

/// Requests are noted in the order in which they came, and where none asks to play, nothing
/// plays.
pub proof fn law_requests_keep_their_order(q: Seq<Ask>, x: Ask, a: Ask)
    ensures
        places(q.push(x), a) == if x == a {
            places(q, a).push(q.len() as usize)
        } else {
            places(q, a)
        },
        places(Seq::empty(), a).len() == 0,
        (forall|i: int| 0 <= i < q.len() ==> #[trigger] q[i] != Ask::Play) ==> last_play(q) is None,
    decreases q.len(),
{
    assert(q.push(x).drop_last() =~= q);
    if q.len() > 0 {
        law_requests_keep_their_order(q.drop_last(), x, a);
        if forall|i: int| 0 <= i < q.len() ==> #[trigger] q[i] != Ask::Play {
            assert forall|i: int| 0 <= i < q.drop_last().len() implies #[trigger] q.drop_last()[i]
                != Ask::Play by {
                assert(q[i] != Ask::Play);
            }
            assert(q[q.len() - 1] != Ask::Play);
        }
    }
}

/// A name that no file has is not found, and without a file that may be the model there is none.
pub proof fn law_what_no_file_is_called(names: Seq<Seq<char>>, want: Seq<char>)
    ensures
        !names.contains(want) ==> place_of(names, want) is None,
        (forall|k: int| 0 <= k < names.len() ==> extension(#[trigger] names[k]) != Some("onnx"@))
            ==> least_onnx(names) is None,
    decreases names.len(),
{
    if names.len() > 0 {
        let u = names.drop_last();
        law_what_no_file_is_called(u, want);
        assert(names[names.len() - 1] == names.last());
        assert(forall|k: int| 0 <= k < u.len() ==> u[k] == names[k]);
        if !names.contains(want) && u.contains(want) {
            let k = choose|k: int| 0 <= k < u.len() && u[k] == want;
            assert(names[k] == want);
        }
    }
}

/// A file is given by its path, found by its name.
pub proof fn law_paths_of_files(files: Seq<FileName>, want: Seq<char>, k: int)
    requires
        0 <= k < files.len() <= usize::MAX,
        files[k].name@ == want,
        forall|j: int| 0 <= j < k ==> (#[trigger] files[j]).name@ != want,
    ensures
        path_of(files, want) == Some(files[k].path@),
        names_of(files).len() == files.len(),
        names_of(files)[k] == want,
{
    assert forall|j: int| 0 <= j < k implies #[trigger] names_of(files)[j] != want by {
        assert(files[j].name@ != want);
    }
    law_a_file_is_found_by_its_name(names_of(files), want, k);
}

/// Where no library is of a kind none is taken, where no directory is a model's none is, and a
/// library outside the list has no place in it.
pub proof fn law_nothing_of_the_kind(names: Seq<Seq<char>>, cuda: bool, x: Seq<char>)
    ensures
        (forall|k: int| 0 <= k < names.len() ==> names_cuda(#[trigger] names[k]) != cuda)
            ==> first_lib(names, cuda) is None,
        (forall|k: int| 0 <= k < names.len() ==> !starts_with(#[trigger] names[k], "kokoro"@))
            ==> first_kokoro(names) is None,
        (forall|k: int| 0 <= k < 9 ==> !starts_with(x, #[trigger] load_order()[k]))
            ==> load_rank_from(x, 0) is None,
    decreases names.len(),
{
    if names.len() > 0 {
        let u = names.drop_last();
        law_nothing_of_the_kind(u, cuda, x);
        assert(names[names.len() - 1] == names.last());
        assert(forall|k: int| 0 <= k < u.len() ==> u[k] == names[k]);
    } else {
        if forall|k: int| 0 <= k < 9 ==> !starts_with(x, #[trigger] load_order()[k]) {
            lemma_no_rank(x, 0);
        }
    }
}

proof fn lemma_no_rank(x: Seq<char>, k: int)
    requires
        forall|k: int| 0 <= k < 9 ==> !starts_with(x, #[trigger] load_order()[k]),
    ensures
        load_rank_from(x, k) is None,
    decreases 9 - k,
{
    if 0 <= k < 9 {
        assert(!starts_with(x, load_order()[k]));
        lemma_no_rank(x, k + 1);
    }
}

/// Libraries are loaded by their place in the list.
pub proof fn law_libraries_load_by_place(names: Seq<Seq<char>>, at: Seq<usize>, i: int)
    requires
        0 <= i < at.len(),
        load_rank_from(names[at[i] as int], 0) is Some,
    ensures
        rank_keys(names, at).len() == at.len(),
        rank_keys(names, at)[i] == load_rank_from(names[at[i] as int], 0)->0,
        0 <= load_rank_from(names[at[i] as int], 0)->0 < 9,
        starts_with(names[at[i] as int], load_order()[load_rank_from(names[at[i] as int], 0)->0]),
{
    lemma_rank_place(names[at[i] as int], 0);
}

proof fn lemma_rank_place(x: Seq<char>, k: int)
    ensures
        load_rank_from(x, k) matches Some(r) ==> k <= r < 9 && starts_with(x, load_order()[r]),
    decreases 9 - k,
{
    if 0 <= k < 9 && !starts_with(x, load_order()[k]) {
        lemma_rank_place(x, k + 1);
    }
}

} // verus!
