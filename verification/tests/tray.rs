use yinyidict::tray::{
    attempts, calls_for, decide, dispatch, fallbacks, item_event, mask_len, off_screen,
    premultiplied_bgra, react, vk_name, win_state, Act, Area, Hotkey, TrayCommand, TrayEvent, WinCall,
    WinState, MOD_ALT, MOD_CONTROL, MOD_SHIFT, MOD_WIN,
};
use yinyidict::tray::Act::{Dismiss, Keep, OpenSettings, Summon};
use yinyidict::tray::TrayEvent::{Settings, Show, Toggle};
use yinyidict::tray::WinState::{Front, Hidden, Minimized};
use yinyidict::window::{
    catch_hotkey, decide_close, startup, vk_of, worth_noting, Caught, CloseAct, Tell, TrayStart,
    WindowState,
};
use yinyidict::single::Single;

#[test]
fn quitting_is_not_swallowed_by_the_close_to_tray_rule() {
    assert_eq!(decide_close(true, true, true), CloseAct::Exit, "菜单点了退出");
    assert_eq!(decide_close(false, true, true), CloseAct::ToTray, "点的是关闭按钮");
}

#[test]
fn without_a_tray_to_hide_into_closing_really_closes() {
    assert_eq!(decide_close(false, true, false), CloseAct::Exit, "托盘起不来");
    assert_eq!(decide_close(false, false, true), CloseAct::Exit, "用户关掉了收进托盘");
}

#[test]
fn the_tray_menu_does_the_same_thing_from_every_window_state() {
    let table = [
        (Show, Front, Keep),
        (Show, Minimized, Summon { focus: true }),
        (Show, Hidden, Summon { focus: true }),
        (Settings, Front, OpenSettings { tuck: false }),
        (Settings, Minimized, OpenSettings { tuck: true }),
        (Settings, Hidden, OpenSettings { tuck: false }),
        (TrayEvent::Quit, Front, Act::Quit),
        (TrayEvent::Quit, Minimized, Act::Quit),
        (TrayEvent::Quit, Hidden, Act::Quit),
    ];
    for (ev, st, want) in table {
        assert_eq!(decide(ev, st), want, "{ev:?} 在 {st:?} 状态下");
    }
}

#[test]
fn a_left_click_only_hides_a_window_that_is_actually_on_screen() {
    assert_eq!(decide(Toggle, Front), Dismiss);
    assert_eq!(decide(Toggle, Minimized), Summon { focus: true });
    assert_eq!(decide(Toggle, Hidden), Summon { focus: true });
}

#[test]
fn opening_settings_never_brings_the_dictionary_on_screen() {
    for st in [Front, Minimized, Hidden] {
        assert!(
            matches!(decide(Settings, st), OpenSettings { .. }),
            "{st:?} 状态下点设置不该把主窗口搬上屏幕"
        );
        assert!(!calls_for(1, decide(Settings, st)).contains(&WinCall::Restore));
    }
}

#[test]
fn a_missing_window_handle_is_treated_as_on_screen() {
    assert_eq!(win_state(0, false, true), Front);
}

#[test]
fn window_states_from_the_system() {
    assert_eq!(win_state(1, false, false), Hidden);
    assert_eq!(win_state(1, false, true), Hidden);
    assert_eq!(win_state(1, true, true), Minimized);
    assert_eq!(win_state(1, true, false), WinState::Front);
}

#[test]
fn default_hotkey_is_sane() {
    let h = Hotkey::default();
    assert!(h.is_valid());
    assert_eq!(h.label(), "Alt + 1");
}

#[test]
fn a_hotkey_without_modifiers_is_rejected() {
    assert!(!Hotkey { mods: 0, vk: b'D' as u32 }.is_valid());
    assert!(!Hotkey { mods: MOD_ALT, vk: 0 }.is_valid());
    assert!(Hotkey { mods: MOD_WIN, vk: 0x20 }.is_valid());
}

#[test]
fn key_names_cover_what_the_picker_offers() {
    assert_eq!(vk_name(0x20), "Space");
    assert_eq!(vk_name(0x71), "F2");
    assert_eq!(vk_name(b'Z' as u32), "Z");
    assert_eq!(vk_name(b'5' as u32), "5");
}

#[test]
fn label_lists_modifiers_in_a_stable_order() {
    let h = Hotkey { mods: MOD_WIN | MOD_SHIFT | MOD_CONTROL, vk: 0x20 };
    assert_eq!(h.label(), "Ctrl + Shift + Win + Space");
}

#[test]
fn fallbacks_are_all_valid_and_distinct() {
    assert!(fallbacks().iter().all(|h| h.is_valid()));
    let mut seen = Vec::new();
    for h in fallbacks() {
        assert!(!seen.contains(&h), "备选里有重复：{}", h.label());
        seen.push(h);
    }
    assert!(fallbacks().contains(&Hotkey::default()));
}

#[test]
fn the_default_avoids_the_combination_we_measured_as_taken() {
    let taken = Hotkey { mods: MOD_CONTROL | MOD_ALT, vk: b'D' as u32 };
    assert_ne!(Hotkey::default(), taken);
}

#[test]
fn names_of_other_keys() {
    assert_eq!(vk_name(0x0D), "Enter");
    assert_eq!(vk_name(0x1B), "Esc");
    assert_eq!(vk_name(0x7B), "F12");
    assert_eq!(vk_name(0x05), format!("VK{:#04X}", 5));
    assert_eq!(vk_name(0xAB), format!("VK{:#04X}", 0xAB));
    assert_eq!(vk_name(0x1234), format!("VK{:#04X}", 0x1234));
    assert_eq!(vk_name(0), "VK0x00");
}

#[test]
fn what_is_tried_for_a_hotkey() {
    let labels: Vec<String> = attempts(Hotkey::default()).iter().map(|h| h.label()).collect();
    assert_eq!(
        labels,
        vec![
            "Alt + 1",
            "Ctrl + Shift + D",
            "Ctrl + Alt + Z",
            "Ctrl + Shift + Space",
            "Alt + Shift + D",
            "Ctrl + Alt + Q"
        ]
    );
    let own = Hotkey { mods: MOD_WIN, vk: 0x41 };
    assert_eq!(attempts(own)[0], own);
    assert_eq!(attempts(own).len(), 7);
    assert_eq!(attempts(Hotkey { mods: 0, vk: 0x41 }).len(), 6);
}

#[test]
fn messages_become_commands() {
    assert_eq!(dispatch(0x8001, 0, 0x0202), TrayCommand::Event(Toggle));
    assert_eq!(dispatch(0x8001, 0, 0x0203), TrayCommand::Event(Toggle));
    assert_eq!(dispatch(0x8001, 0, 0x0205), TrayCommand::Menu);
    assert_eq!(dispatch(0x8001, 0, 0), TrayCommand::Nothing);
    assert_eq!(dispatch(0x0312, 0xD1C7, 0), TrayCommand::Event(Toggle));
    assert_eq!(dispatch(0x0312, 1, 0), TrayCommand::Default);
    assert_eq!(dispatch(0x8002, 2, 65), TrayCommand::Rebind(Hotkey { mods: 2, vk: 65 }));
    assert_eq!(dispatch(0x8004, 0, 2), TrayCommand::Event(Settings));
    assert_eq!(dispatch(0x8004, 0, 9), TrayCommand::Nothing);
    assert_eq!(dispatch(0x8003, 0, 0), TrayCommand::Destroy);
    assert_eq!(dispatch(0x0002, 0, 0), TrayCommand::Leave);
    assert_eq!(dispatch(0x0001, 0, 0), TrayCommand::Default);
    assert_eq!(item_event(1), Some(Show));
    assert_eq!(item_event(3), Some(TrayEvent::Quit));
    assert_eq!(item_event(0), None);
}

#[test]
fn reactions_to_events() {
    let r = react(TrayEvent::Quit, Minimized, 5);
    assert!(r.tell && r.close && r.act == Act::Quit);
    assert!(!react(TrayEvent::Quit, Front, 0).close);
    assert!(!react(Show, Front, 5).tell);
    assert_eq!(calls_for(1, Summon { focus: true }), vec![WinCall::Restore, WinCall::Foreground]);
    assert_eq!(calls_for(1, Summon { focus: false }), vec![WinCall::Restore]);
    assert_eq!(calls_for(1, Dismiss), vec![WinCall::Hide]);
    assert_eq!(calls_for(1, OpenSettings { tuck: true }), vec![WinCall::Tuck]);
    assert!(calls_for(0, Dismiss).is_empty());
}

#[test]
fn icon_pixels_are_premultiplied_and_turned_round() {
    assert_eq!(
        premultiplied_bgra(&[200, 100, 50, 255, 200, 100, 50, 128, 9, 9, 9, 0, 7]),
        vec![50, 100, 200, 255, 25, 50, 100, 128, 0, 0, 0, 0]
    );
    assert_eq!(mask_len(16), 64);
    assert_eq!(mask_len(33), 264);
    let a = off_screen(Area { left: 10, top: 20, right: 110, bottom: 50 });
    assert_eq!(a, Area { left: -32000, top: -32000, right: -31900, bottom: -31970 });
}

fn state() -> WindowState {
    WindowState {
        visible: true,
        focus_pending: false,
        settings_open: false,
        settings_focus_pending: false,
        settings_after: None,
        frames: 4,
        quitting: false,
    }
}

#[test]
fn the_interface_follows_the_tray() {
    let mut w = state();
    assert_eq!(w.on_act(Keep), Tell::Nothing);
    assert_eq!(w.on_act(Dismiss), Tell::Hidden);
    assert!(!w.visible && !w.may_start_deferred(false) == false);
    assert_eq!(w.on_act(OpenSettings { tuck: false }), Tell::Again);
    assert!(!w.visible && !w.settings_open);
    assert!(w.open_due_settings(), "one more frame first");
    w.frames = 5;
    assert!(!w.open_due_settings());
    assert!(w.settings_open && w.settings_focus_pending && w.settings_after.is_none());
    assert_eq!(w.on_act(Summon { focus: true }), Tell::Visible { focus: true });
    assert!(w.visible && w.focus_pending);
    let mut w = state();
    assert_eq!(w.on_act(OpenSettings { tuck: true }), Tell::Again);
    assert!(!w.visible);
    assert_eq!(w.on_act(Act::Quit), Tell::Close);
    assert!(w.quitting);
    assert!(state().may_start_deferred(true) && !state().may_start_deferred(false));
}

#[test]
fn the_input_field_takes_the_focus() {
    let mut w = state();
    assert!(!w.take_focus(true, false) && !w.take_focus(false, true));
    assert!(w.take_focus(false, false));
    w.focus_pending = true;
    w.settings_open = true;
    assert!(!w.take_focus(false, false) && w.focus_pending);
    w.settings_open = false;
    assert!(w.take_focus(true, true) && !w.focus_pending);
}

#[test]
fn how_the_program_starts() {
    let want = Hotkey::default();
    let other = Hotkey { mods: MOD_CONTROL | MOD_SHIFT, vk: 0x44 };
    let s = startup(want, &TrayStart::Up(Some(want)), true, "old");
    assert_eq!((s.visible, s.has_tray, s.note.as_str()), (false, true, "old"));
    let s = startup(want, &TrayStart::Up(Some(other)), false, "old");
    assert_eq!(s.hotkey, other);
    assert_eq!(s.note, "Alt + 1 被别的软件占了，唤出快捷键改成 Ctrl + Shift + D");
    let s = startup(want, &TrayStart::Up(None), false, "");
    assert_eq!(s.note, "所有候选快捷键都被占用，唤出快捷键未启用");
    assert_eq!(s.hotkey, want);
    let s = startup(want, &TrayStart::Down("err".into()), false, "");
    assert_eq!((s.visible, s.has_tray, s.note.as_str()), (true, false, "托盘不可用：err"));
    let s = startup(want, &TrayStart::Down("err".into()), true, "");
    assert!(s.visible);
    assert_eq!(s.note, "设置里要求启动时隐藏，但托盘不可用，仍然显示窗口");
}

#[test]
fn catching_a_hotkey() {
    let keys = |v: &[&str]| v.iter().map(|s| s.to_string()).collect::<Vec<_>>();
    assert_eq!(catch_hotkey(true, false, false, &keys(&[])), Caught::Waiting);
    assert_eq!(catch_hotkey(true, false, false, &keys(&["Tab"])), Caught::Waiting);
    assert_eq!(catch_hotkey(false, false, false, &keys(&["D"])), Caught::NoModifier);
    assert_eq!(
        catch_hotkey(true, true, true, &keys(&["Tab", "F5", "A"])),
        Caught::Taken(Hotkey { mods: MOD_CONTROL | MOD_ALT | MOD_SHIFT, vk: 0x74 })
    );
    assert_eq!(vk_of("Space"), Some(0x20));
    assert_eq!(vk_of("F1"), Some(0x70));
    assert_eq!(vk_of("F9"), Some(0x78));
    assert_eq!(vk_of("F10"), Some(0x79));
    assert_eq!(vk_of("F12"), Some(0x7B));
    assert_eq!(vk_of("F13"), None);
    assert_eq!(vk_of("0"), Some(0x30));
    assert_eq!(vk_of("a"), None);
}

#[test]
fn sizes_worth_noting() {
    let f = |x: f32| Single { bits: x.to_bits() };
    assert!(worth_noting(false, f(400.0), f(320.0)));
    assert!(!worth_noting(true, f(900.0), f(700.0)));
    assert!(!worth_noting(false, f(0.0), f(0.0)));
    assert!(!worth_noting(false, f(900.0), f(319.9)));
}
