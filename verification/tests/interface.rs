use std::io::Write;
use yinyidict::fetch::{compact_url, drops_archive, next_step, open_download, FetchStep, How, Opened};
use yinyidict::icon::{build_ico, dib_for};
use yinyidict::lane::Lane;
use yinyidict::letters::{is_upper, lower_str, upper_char};
use yinyidict::model::{Entry, Example, Sense, KIND_EN};
use yinyidict::number::{parse_i32, parse_nat, parse_u32, parse_usize, push_decimal};
use yinyidict::order::stable_sort;
use yinyidict::page::{
    candidate_rows, clip, entry_page, gloss_line, hotkey_text, hotkey_trouble, is_chinese, links,
    meta_line, pinyin_pieces, rewritten_label, row_gloss, says_no_match, sense_rows, try_links,
    voice_line, HotkeyTrouble, ReadingLine,
};
use yinyidict::panel::{params_eq, Keys, Mode, Opening, Panel};
use yinyidict::search::{Hit, Params};
use yinyidict::shot::{bmp, Move, Plan, Press, Sent};
use yinyidict::single::Single;
use yinyidict::store::{IndexFiles, Store, StoreError, StoreFiles};
use yinyidict::text::{chars_of, find_sub, join_strs, replace, split, string_of, trim, words, One};
use yinyidict::tray::Hotkey;
use yinyidict::voice::Status;
use yinyidict::wide::{login_command, turned_off, wide};
use yinyidict::writer::{IndexImage, StoreImage, StoreWriter};

const BZ2: &[u8] = &[
    0x42, 0x5A, 0x68, 0x39, 0x31, 0x41, 0x59, 0x26, 0x53, 0x59, 0x2D, 0xE5,
    0x19, 0xAE, 0x00, 0x00, 0x08, 0xD1, 0xD9, 0x00, 0x10, 0x40, 0x00, 0x2C,
    0x21, 0x94, 0x20, 0x02, 0x02, 0x00, 0x00, 0x80, 0x40, 0x02, 0x40, 0x20,
    0x00, 0x22, 0x80, 0x3D, 0x4F, 0x48, 0x79, 0x42, 0x86, 0x9A, 0x60, 0x00,
    0xF8, 0x0C, 0x08, 0x37, 0xD9, 0x84, 0x9A, 0x6F, 0xE2, 0xEE, 0x48, 0xA7,
    0x0A, 0x12, 0x05, 0xBC, 0xA3, 0x35, 0xC0,
];

fn single(x: f32) -> Single {
    Single { bits: x.to_bits() }
}

struct Files {
    img: StoreImage,
    zh: IndexImage,
}

/// Three entries, 甲 of which refers to 乙 and to a word that is nowhere; the third key leads
/// to entries that are not there.
fn small() -> Files {
    let mut w = StoreWriter::create();
    for word in ["甲", "乙", "丙"] {
        w.push(&Entry {
            word: word.into(),
            xrefs: vec!["乙".into(), "无".into()],
            senses: vec![Sense { text: format!("{word}义"), ..Default::default() }],
            ..Default::default()
        })
        .unwrap();
    }
    let keys: Vec<(String, Vec<u32>)> = vec![
        ("丙".into(), vec![2]),
        ("乙".into(), vec![1]),
        ("甲".into(), vec![0]),
        ("缺".into(), vec![0, 9]),
    ];
    let zh = w.write_lane(Lane::Zh, &keys).unwrap();
    Files { img: w.finish(), zh }
}

fn open(f: &Files) -> Store<'_> {
    let none = || (0..7).map(|_| IndexFiles { fst: None, post: None }).collect::<Vec<_>>();
    let mut lanes = none();
    lanes[0] = IndexFiles { fst: Some(&f.zh.fst), post: Some(&f.zh.post) };
    Store::open(&StoreFiles {
        meta: &f.img.meta,
        entries: &f.img.entries,
        idx: &f.img.idx,
        lanes,
        tops: none(),
        overlay_bin: None,
        overlay_idx: None,
    })
    .unwrap()
}

fn hit(id: u32) -> Hit {
    Hit { id, lane: Lane::Zh, score: single(1.0) }
}

const NONE: Keys = Keys { down: false, up: false, enter: false, f1: false, esc: false };

#[test]
fn there_is_a_way_back_from_everywhere() {
    let f = small();
    let s = open(&f);
    let mut p = Panel::new();
    p.query = "x".into();
    p.refresh(vec![hit(0), hit(1), hit(2)], true);
    assert_eq!(p.handle_keys(&s, Keys { down: true, ..NONE }), Opening::Nothing);
    assert_eq!(p.sel, 1);
    assert_eq!(p.handle_keys(&s, Keys { enter: true, ..NONE }), Opening::Shown);
    assert_eq!(p.mode, Mode::Entry);
    assert_eq!(p.entry.as_ref().unwrap().word, "乙");
    assert_eq!(p.entry_id, Some(1));
    p.handle_keys(&s, Keys { up: true, ..NONE });
    assert_eq!((p.mode, p.sel), (Mode::List, 1));
    p.handle_keys(&s, Keys { enter: true, ..NONE });
    p.handle_keys(&s, Keys { esc: true, ..NONE });
    assert_eq!((p.mode, p.sel, p.cands.len()), (Mode::List, 1, 3));
    p.handle_keys(&s, Keys { esc: true, ..NONE });
    assert!(p.query.is_empty() && p.cands.is_empty() && p.sel == 0);
    p.handle_keys(&s, Keys { f1: true, ..NONE });
    assert!(p.show_bar);
}

#[test]
fn the_selection_stops_at_the_ends() {
    let f = small();
    let s = open(&f);
    let mut p = Panel::new();
    p.handle_keys(&s, Keys { down: true, ..NONE });
    assert_eq!(p.sel, 0);
    p.refresh(vec![hit(0), hit(1)], true);
    for _ in 0..5 {
        p.handle_keys(&s, Keys { down: true, ..NONE });
    }
    assert_eq!(p.sel, 1);
    for _ in 0..5 {
        p.handle_keys(&s, Keys { up: true, ..NONE });
    }
    assert_eq!(p.sel, 0);
}

#[test]
fn opening_what_is_not_there() {
    let f = small();
    let s = open(&f);
    let mut p = Panel::new();
    assert_eq!(p.open(&s, 0), Opening::Nothing);
    p.refresh(vec![hit(7)], true);
    assert_eq!(p.click(&s, 0), Opening::Failed(StoreError::OutOfRange { id: 7, n: 3 }));
    assert_eq!(p.mode, Mode::List);
    p.open_word(&s, "无");
    assert_eq!(p.mode, Mode::List);
    p.open_word(&s, " 乙 ");
    assert_eq!(p.entry.as_ref().unwrap().word, "乙");
}

#[test]
fn a_word_with_foreign_entries_cannot_be_looked_up() {
    let f = small();
    let s = open(&f);
    assert_eq!(s.try_lookup_word("缺"), None);
    assert_eq!(s.try_lookup_word("甲"), Some(Some(0)));
    assert_eq!(s.try_lookup_word("无"), Some(None));
    let mut p = Panel::new();
    assert!(!p.try_open_word(&s, "缺"));
    assert_eq!(p.mode, Mode::List);
    assert!(p.try_open_word(&s, "甲"));
    assert_eq!(p.mode, Mode::Entry);
    let e = s.entry(0).unwrap();
    assert_eq!(links(&s, &e), vec!["乙"]);
    assert_eq!(try_links(&s, &e), Some(vec!["乙".to_string()]));
    let e = Entry { xrefs: vec!["乙".into(), "缺".into()], ..Default::default() };
    assert_eq!(try_links(&s, &e), None);
}

#[test]
fn typing_on_keeps_what_is_shown_in_place() {
    let mut p = Panel::new();
    p.query = "Zh".into();
    p.refresh(vec![hit(0), hit(1)], true);
    p.query = "zho".into();
    p.refresh(vec![hit(1), hit(2), hit(0)], true);
    let ids = |p: &Panel| p.cands.iter().map(|h| h.id).collect::<Vec<_>>();
    assert_eq!(ids(&p), vec![0, 1, 2]);
    p.forget_order();
    p.query = "zhon".into();
    p.refresh(vec![hit(2), hit(0)], true);
    assert_eq!(ids(&p), vec![2, 0]);
    p.query = "zhong".into();
    p.refresh(vec![hit(0), hit(2)], false);
    assert_eq!(ids(&p), vec![0, 2]);
    p.query = "x".into();
    p.refresh(vec![hit(2), hit(0)], true);
    assert_eq!(ids(&p), vec![2, 0]);
}

#[test]
fn parameters_are_compared_as_numbers() {
    let a = Params::default();
    assert!(params_eq(&a, &Params::default()));
    let b = Params { lambda: single(0.5), ..Default::default() };
    assert!(!params_eq(&a, &b));
    let z = Params { lambda: single(0.0), ..Default::default() };
    let m = Params { lambda: single(-0.0), ..Default::default() };
    assert!(params_eq(&z, &m));
    let n = Params { lambda: single(f32::NAN), ..Default::default() };
    assert!(!params_eq(&n, &n));
    assert!(!params_eq(&a, &Params { limit: 9, ..Default::default() }));
}

#[test]
fn what_the_page_says() {
    let e = Entry {
        reading: "yín háng  x".into(),
        tones: vec![2, 2],
        trad: "銀行".into(),
        pos: "名".into(),
        senses: vec![
            Sense { text: "bank".into(), ..Default::default() },
            Sense { text: "b2".into(), pos: "动".into(), note: "n".into(), reg: "r".into() },
            Sense { text: "b3".into(), ..Default::default() },
            Sense { text: "b4".into(), ..Default::default() },
        ],
        examples: vec![Example { a: "a".into(), b: "b".into() }],
        ..Default::default()
    };
    let p: Vec<(String, u8)> = pinyin_pieces(&e).into_iter().map(|x| (x.text, x.tone)).collect();
    assert_eq!(p, vec![("yín".to_string(), 2), ("háng".to_string(), 2), ("x".to_string(), 0)]);
    assert_eq!(row_gloss(&e), "bank; b2; b3");
    assert_eq!(row_gloss(&Entry { kind: KIND_EN, ..e.clone() }), "bank；b2；b3");
    assert_eq!(gloss_line(&e, 2, "/"), "bank/b2");
    let r = sense_rows(&e);
    assert_eq!((r[0].number, r[0].pos.as_str()), (Some(1), "名"));
    assert_eq!((r[1].number, r[1].pos.as_str(), r[1].note.as_str(), r[1].reg.as_str()), (Some(2), "动", "n", "r"));
    let one = Entry { senses: e.senses[..1].to_vec(), ..Default::default() };
    assert_eq!(sense_rows(&one)[0].number, None);
    assert_eq!(meta_line(&e).as_deref(), Some("繁体 銀行"));
    assert_eq!(meta_line(&one), None);
    assert_eq!(clip("银行家", 2), "银行");
    assert_eq!(clip("银", 2), "银");
    assert!(is_chinese("a 中") && !is_chinese("abc"));
    assert_eq!(rewritten_label(0), "未启用");
    assert_eq!(rewritten_label(10645), "10645 条");
}

#[test]
fn the_script_of_pictures() {
    let mut p = Plan::new();
    let mut names = Vec::new();
    let mut frames = 0;
    while let Some(s) = p.current() {
        let typing = s.typed.or(s.keys).map_or(0, |t| t.chars().count());
        let mut sent = Vec::new();
        loop {
            frames += 1;
            match p.advance(typing, false) {
                Move::Send(i) => sent.push(i),
                Move::Request => break,
                _ => {}
            }
        }
        assert_eq!(sent, (0..typing).collect::<Vec<_>>(), "{}", s.name);
        assert_ne!(p.advance(typing, false), Move::Request);
        names.push(s.name);
        p.next();
    }
    assert_eq!(names.len(), 13);
    assert_eq!((names[0], names[12]), ("1-空", "13-设置页"));
    assert_eq!(frames, 30 + 12 * 14 + 2 * (8 + 2 + 1 + 1));
    let mut held = Plan::new();
    for _ in 0..100 {
        assert_ne!(held.advance(0, true), Move::Request);
    }
    // more than can ever be typed is no reason to fail
    let mut long = Plan::new();
    long.next();
    let sent = (0..40).filter(|_| matches!(long.advance(usize::MAX, false), Move::Send(_))).count();
    assert_eq!(sent, 19);
}

#[test]
fn a_bitmap_from_the_top_down() {
    let b = bmp(2, 1, &[1, 2, 3, 4, 5, 6, 7, 8]);
    assert_eq!(&b[..2], b"BM");
    let at = |i: usize| u32::from_le_bytes(b[i..i + 4].try_into().unwrap());
    assert_eq!((at(2), at(10), at(14), at(18)), (62, 54, 40, 2));
    assert_eq!(at(22) as i32, -1);
    assert_eq!(at(34), 8);
    assert_eq!(&b[26..30], &[1, 0, 32, 0]);
    assert_eq!(&b[54..], &[3, 2, 1, 4, 7, 6, 5, 8]);
}

#[test]
fn an_icon_from_the_bottom_up() {
    let px: Vec<u8> = (0..16).collect();
    let d = dib_for(&px, 2);
    let at = |b: &[u8], i: usize| u32::from_le_bytes(b[i..i + 4].try_into().unwrap());
    assert_eq!((at(&d, 0), at(&d, 4), at(&d, 8)), (40, 2, 4));
    assert_eq!(&d[40..56], &[10, 9, 8, 11, 14, 13, 12, 15, 2, 1, 0, 3, 6, 5, 4, 7]);
    assert_eq!(&d[56..], &[0u8; 8]);
    let big = vec![7u8; 3];
    let ico = build_ico(&vec![(2, d.clone()), (256, big.clone())]);
    assert_eq!(&ico[..6], &[0, 0, 1, 0, 2, 0]);
    assert_eq!(&ico[6..8], &[2, 2]);
    assert_eq!(&ico[22..24], &[0, 0]);
    let first = at(&ico, 18) as usize;
    let second = at(&ico, 34) as usize;
    assert_eq!(first, 38);
    assert_eq!(&ico[first..first + d.len()], &d[..]);
    assert_eq!(&ico[second..], &big[..]);
    assert_eq!(at(&ico, 30) as usize, big.len());
}

#[test]
fn text_for_the_system() {
    for s in ["", "abc", "词典", "a😀b", "\u{FFFF}\u{10000}"] {
        let mut want: Vec<u16> = s.encode_utf16().collect();
        want.push(0);
        assert_eq!(wide(s), want, "{s}");
    }
    assert_eq!(login_command("C:\\a b\\dict.exe"), "\"C:\\a b\\dict.exe\"");
    assert!(turned_off(true, false) && turned_off(false, false) && !turned_off(false, true));
}

#[test]
fn downloads_are_opened_by_their_kind() {
    let mut z = flate2::write::GzEncoder::new(Vec::new(), flate2::Compression::default());
    z.write_all("词典 dictionary\n".as_bytes()).unwrap();
    let gz = z.finish().unwrap();
    for (how, data) in [(How::Gz("out.txt"), &gz[..]), (How::Bz2("out.txt"), BZ2)] {
        match open_download(how, data) {
            Opened::File { name, bytes } => {
                assert_eq!(name, "out.txt");
                assert_eq!(String::from_utf8(bytes).unwrap(), "词典 dictionary\n");
            }
            _ => panic!("not opened"),
        }
        assert!(matches!(open_download(how, b"nonsense"), Opened::Broken));
        assert!(drops_archive(how));
    }
    assert!(matches!(open_download(How::Plain, b"x"), Opened::Nothing));
    assert!(matches!(open_download(How::Tar(Some("d")), b"x"), Opened::Archive { into: Some("d") }));
    assert!(!drops_archive(How::Plain));
}

#[test]
fn nothing_is_fetched_twice() {
    assert_eq!(next_step(true, None), FetchStep::Skip);
    assert_eq!(next_step(false, None), FetchStep::Download);
    assert_eq!(next_step(false, Some(0)), FetchStep::Download);
    assert_eq!(next_step(false, Some(5)), FetchStep::Open);
    assert_eq!(compact_url(" https://x/\n      y "), "https://x/y");
}

#[test]
fn numbers_in_text() {
    let c = |s: &str| chars_of(s);
    assert_eq!(parse_u32(&c("4294967295")), Some(u32::MAX));
    assert_eq!(parse_u32(&c("4294967296")), None);
    assert_eq!(parse_u32(&c("+7")), Some(7));
    assert_eq!(parse_u32(&c("")), None);
    assert_eq!(parse_u32(&c("+")), None);
    assert_eq!(parse_u32(&c("1 ")), None);
    assert_eq!(parse_usize(&c("007")), Some(7));
    assert_eq!(parse_i32(&c("-2147483648")), Some(i32::MIN));
    assert_eq!(parse_i32(&c("-2147483649")), None);
    assert_eq!(parse_i32(&c("--1")), None);
    assert_eq!(parse_nat(&c("fF"), 16, 255), Some(255));
    assert_eq!(parse_nat(&c("100"), 16, 255), None);
    for n in [0u64, 9, 10, 1234567890, u64::MAX] {
        let mut o = Vec::new();
        push_decimal(&mut o, n);
        assert_eq!(string_of(&o), n.to_string());
    }
    assert_eq!(stable_sort(vec![3, 1, 3, -2]), vec![3, 1, 0, 2]);
}

#[test]
fn pieces_of_text() {
    let c = chars_of("\u{3000} a,b,,c \n");
    assert_eq!(string_of(trim(&c)), "a,b,,c");
    let parts: Vec<String> = split(trim(&c), &One(',')).iter().map(|p| string_of(p)).collect();
    assert_eq!(parts, vec!["a", "b", "", "c"]);
    assert_eq!(words(&chars_of(" x  y ")).len(), 2);
    assert_eq!(find_sub(&chars_of("banana"), &chars_of("na")), Some(2));
    assert_eq!(find_sub(&chars_of("banana"), &chars_of("nb")), None);
    let r = replace(&chars_of("aaaa"), &chars_of("aa"), &chars_of("b"));
    assert_eq!(string_of(&r), "bb");
    assert_eq!(join_strs(&vec!["a".into(), "b".into()], "; "), "a; b");
    assert_eq!(string_of(&upper_char('ß')), "SS");
    assert_eq!(string_of(&upper_char('é')), "É");
    assert!(is_upper('É') && !is_upper('é') && !is_upper('中'));
    assert_eq!(lower_str("ÀÉ İ ΑΣ"), "ÀÉ İ ΑΣ".to_lowercase());
}

#[test]
fn candidates_that_cannot_be_read_are_passed_over() {
    let f = small();
    let s = open(&f);
    let rows = candidate_rows(&s, &vec![hit(2), hit(9), hit(0)]);
    let got: Vec<(usize, &str, &str)> =
        rows.iter().map(|r| (r.place, r.entry.word.as_str(), r.gloss.as_str())).collect();
    assert_eq!(got, vec![(0, "丙", "丙义"), (2, "甲", "甲义")]);
    assert!(says_no_match("x", 0) && !says_no_match(" ", 0) && !says_no_match("x", 1));
}

#[test]
fn the_page_of_an_entry() {
    let f = small();
    let s = open(&f);
    let zh = Entry {
        word: "银行".into(),
        reading: "yín háng".into(),
        tones: vec![2, 2],
        forms: "量词 家".into(),
        examples: vec![Example { a: "中".into(), b: "en".into() }],
        xrefs: vec!["乙".into(), "无".into()],
        ..Default::default()
    };
    let p = entry_page(&s, &zh).unwrap();
    assert!(matches!(&p.reading, ReadingLine::Pinyin(v) if v.len() == 2 && v[1].tone == 2));
    assert_eq!((p.meta, p.forms.as_deref()), (None, Some("量词 家")));
    let lines: Vec<(&str, bool)> = p.lines.iter().map(|l| (l.text.as_str(), l.chinese)).collect();
    assert_eq!(lines, vec![("中", true), ("en", false)]);
    assert_eq!(p.links, vec!["乙"]);
    let en = Entry { kind: KIND_EN, reading: "/x/".into(), ..zh.clone() };
    let p = entry_page(&s, &en).unwrap();
    assert!(matches!(&p.reading, ReadingLine::Plain(t) if t == "/x/"));
    assert_eq!(p.lines.iter().map(|l| l.chinese).collect::<Vec<_>>(), vec![false, true]);
    let none = Entry { kind: KIND_EN, xrefs: vec!["缺".into()], ..Default::default() };
    assert!(entry_page(&s, &none).is_none());
    let bare = Entry { kind: KIND_EN, ..Default::default() };
    assert!(matches!(entry_page(&s, &bare).unwrap().reading, ReadingLine::Nothing));
}

#[test]
fn what_the_settings_page_says() {
    let ready = Status::Ready { sample_rate: 24000, model: "kokoro".into() };
    assert_eq!(voice_line(Some(&ready)), "kokoro · 24000 Hz");
    assert_eq!(voice_line(Some(&Status::Loading)), "加载中…");
    assert_eq!(voice_line(Some(&Status::Failed("坏".into()))), "加载失败：坏");
    assert_eq!(voice_line(None), "不可用");
    assert_eq!(hotkey_text(true, Hotkey::default()), "按下新的组合…");
    assert_eq!(hotkey_text(false, Hotkey::default()), "Alt + 1");
    assert_eq!(hotkey_trouble(None), HotkeyTrouble::NoTray);
    assert_eq!(hotkey_trouble(Some(None)), HotkeyTrouble::Taken);
    assert_eq!(hotkey_trouble(Some(Some(Hotkey::default()))), HotkeyTrouble::Nothing);
}

#[test]
fn what_a_step_sends() {
    let at = |step: usize| Plan { step, ..Plan::new() }.current().unwrap();
    assert_eq!((at(8).typing(), at(8).sent(0), at(8).sent(8)), (8, Sent::Text('z'), Sent::Nothing));
    assert_eq!((at(9).typing(), at(9).sent(1)), (2, Sent::Key(Press::Down)));
    assert_eq!(at(10).sent(0), Sent::Key(Press::Enter));
    assert_eq!((at(0).typing(), at(0).sent(0)), (0, Sent::Nothing));
    let mut p = Plan { waited: 13, ..Plan::new() };
    assert!(!p.request_apart());
    p.waited = 14;
    assert!(p.request_apart() && !p.request_apart());
}
