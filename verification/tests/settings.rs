use yinyidict::fasthash::{IdHasher, IdMap};
use yinyidict::search::Params;
use yinyidict::settings::{path, Settings, SettingsPlace, Theme, WINDOW_DEFAULT};
use yinyidict::single::{Double, Single};
use yinyidict::theme::{rgb, Palette, Rgb};
use yinyidict::tray::Hotkey;

fn s(x: f32) -> Single {
    Single { bits: x.to_bits() }
}

fn f(x: Single) -> f32 {
    f32::from_bits(x.bits)
}

#[test]
fn an_unusable_window_size_falls_back_to_the_default() {
    let default = [f32::from_bits(WINDOW_DEFAULT[0]), f32::from_bits(WINDOW_DEFAULT[1])];
    let window = |w: [f32; 2]| {
        let x = Settings { window: [s(w[0]), s(w[1])], ..Default::default() }.sanitized();
        [f(x.window[0]), f(x.window[1])]
    };
    assert_eq!(window([10.0, 8.0]), default, "小到点不开的窗口要退回默认");
    assert_eq!(window([900.0, 700.0]), [900.0, 700.0], "正常尺寸要原样留着");
    assert_eq!(window([f32::NAN, f32::INFINITY]), default);
    assert_eq!(window([f32::NEG_INFINITY, 9000.0]), [default[0], 4000.0]);
    assert_eq!(window([400.0, 320.0]), [400.0, 320.0]);
    assert_eq!(default, [458.0, 632.0]);
}

#[test]
fn absurd_values_get_clamped() {
    let x = Settings { speed: s(99.0), lambda: s(-5.0), max_secondary: 500, ..Default::default() };
    let x = x.sanitized();
    assert_eq!(f(x.speed), 2.0);
    assert_eq!(f(x.lambda), 0.0);
    assert_eq!(x.max_secondary, 8);
}

#[test]
fn an_invalid_hotkey_reverts_to_the_default() {
    let x = Settings { hotkey: Hotkey { mods: 0, vk: 68 }, ..Default::default() };
    assert_eq!(x.sanitized().hotkey, Hotkey::default());
}

#[test]
fn params_survive_a_round_trip_through_settings() {
    let mut x = Settings::default();
    let p = Params { exact_bonus: s(9.5), lambda: s(0.8), ..Default::default() };
    x.apply_params(&p);
    let back = x.params();
    assert_eq!(f(back.exact_bonus), 9.5);
    assert_eq!(f(back.lambda), 0.8);
}

#[test]
fn the_other_ranges() {
    let x = Settings { speed: s(0.1), exact_bonus: s(30.0), secondary: s(1.5), ..Default::default() };
    let x = x.sanitized();
    assert_eq!((f(x.speed), f(x.exact_bonus), f(x.secondary)), (0.5, 24.0, 1.0));
    let y = Settings { speed: s(1.25), exact_bonus: s(-0.0), ..Default::default() }.sanitized();
    assert_eq!(f(y.speed), 1.25);
    assert!(f(y.exact_bonus) == 0.0);
    let nan = Settings { lambda: s(f32::NAN), ..Default::default() }.sanitized();
    assert!(f(nan.lambda).is_nan());
}

#[test]
fn what_settings_start_as() {
    let x = Settings::default();
    assert!(x.close_to_tray && x.carrier && x.stable_order);
    assert!(!x.pinned && !x.start_hidden && !x.show_scores);
    assert_eq!(f(x.speed), 1.0);
    assert_eq!(x.theme, Theme::Auto);
    assert_eq!(x.max_secondary, 3);
}

#[test]
fn themes() {
    assert_eq!(
        [Theme::Auto.label(), Theme::Light.label(), Theme::Dark.label()],
        ["跟随系统", "浅色", "深色"]
    );
    assert!(Theme::Auto.is_dark(true) && !Theme::Auto.is_dark(false));
    assert!(Theme::Dark.is_dark(false) && !Theme::Light.is_dark(true));
    assert_eq!(rgb(0x12AB03), Rgb { r: 0x12, g: 0xAB, b: 0x03 });
    let p = Palette::of(true);
    assert_eq!(p.ground, Palette::dark().ground);
    assert_ne!(Palette::of(false).ground, p.ground);
    for t in 0..5u8 {
        assert_eq!(p.tone_of(t), p.tone[t as usize]);
    }
    assert_eq!(p.tone_of(9), p.tone[0]);
}

#[test]
fn where_settings_are_kept() {
    assert_eq!(path(&vec![]), SettingsPlace::Here);
    assert_eq!(path(&vec![false, false]), SettingsPlace::Root(0));
    assert_eq!(path(&vec![false, true, true]), SettingsPlace::Root(1));
}

#[test]
fn bits_order_like_the_numbers_they_are() {
    let v = [f32::NEG_INFINITY, -2.5, -0.0, 0.0, 1e-40, 1.0, f32::INFINITY, f32::NAN];
    for a in v {
        for b in v {
            assert_eq!(s(a).less(s(b)), a < b, "{a} {b}");
        }
        assert_eq!(s(a).is_nan(), a.is_nan());
        assert_eq!(s(a).is_finite(), a.is_finite());
    }
    let w = [f64::NEG_INFINITY, -2.5, -0.0, 0.0, 1e-310, 1.0, f64::INFINITY, f64::NAN];
    for a in w {
        for b in w {
            let (x, y) = (Double { bits: a.to_bits() }, Double { bits: b.to_bits() });
            assert_eq!(x.less(y), a < b, "{a} {b}");
        }
    }
}

#[test]
fn map_behaves_like_a_normal_hashmap() {
    let mut m: IdMap<&str> = IdMap::default();
    for i in 0..10_000u32 {
        m.insert(i, "x");
    }
    assert_eq!(m.len(), 10_000);
    assert_eq!(m.get(&5_000), Some(&"x"));
    assert_eq!(m.get(&10_001), None);
    m.remove(&5_000);
    assert_eq!(m.get(&5_000), None);
}

#[test]
fn distinct_ids_spread_across_buckets() {
    let h = |n: u32| {
        let mut x = IdHasher::new();
        x.write_u32(n);
        x.finish() >> 56
    };
    let distinct: std::collections::HashSet<u64> = (0..256u32).map(h).collect();
    assert!(distinct.len() > 200, "只散出 {} 个桶", distinct.len());
}

#[test]
fn hashes_of_other_widths() {
    let mut a = IdHasher::new();
    a.write_u64(7);
    let mut b = IdHasher::new();
    b.write_usize(7);
    let mut c = IdHasher::new();
    c.write_u32(7);
    assert_eq!(a.finish(), b.finish());
    assert_eq!(a.finish(), c.finish());
    assert_eq!(c.finish(), 7u64.wrapping_mul(0x9E37_79B9_7F4A_7C15));
    let mut d = IdHasher::new();
    d.write(&[1, 2]);
    let step = |s: u64, b: u64| (s ^ b).wrapping_mul(0x9E37_79B9_7F4A_7C15);
    assert_eq!(d.finish(), step(step(0, 1), 2));
}

#[test]
fn changes_are_noticed() {
    let mut x = Settings::default();
    assert!(!x.tick(true, false));
    assert!(x.tick(false, true));
    assert!(!x.close_to_tray && x.start_hidden);
    assert_eq!(x.pick_theme(Theme::Auto, true), None);
    assert_eq!(x.pick_theme(Theme::Dark, false), Some(true));
    assert_eq!(x.pick_theme(Theme::Auto, false), Some(false));
    assert_eq!(x.pick_theme(Theme::Light, true), Some(false));
    assert_eq!(x.theme, Theme::Light);
}
