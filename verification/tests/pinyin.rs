use yinyidict::pinyin::{parse_syllable, Reading, Syllable};

#[test]
fn tone_placement() {
    assert_eq!(parse_syllable("zhong1").toned, "zh\u{14d}ng");
    assert_eq!(parse_syllable("guo2").toned, "gu\u{f3}");
    assert_eq!(parse_syllable("hao3").toned, "h\u{1ce}o");
    assert_eq!(parse_syllable("mai4").toned, "m\u{e0}i");
    assert_eq!(parse_syllable("liu2").toned, "li\u{fa}");
    assert_eq!(parse_syllable("gui4").toned, "gu\u{ec}");
    assert_eq!(parse_syllable("jiu5").toned, "jiu");
    assert_eq!(parse_syllable("jiu5").tone, 0);
}

#[test]
fn umlaut_and_case() {
    let s = parse_syllable("nu:3");
    assert_eq!(s.toned, "n\u{1da}");
    assert_eq!(s.plain, "nu");
    assert_eq!(s.plain_v, "nv");
    assert_eq!(parse_syllable("Zhong1").toned, "Zh\u{14d}ng");
}

#[test]
fn non_pinyin_tokens_pass_through() {
    assert_eq!(parse_syllable("A").toned, "A");
    assert_eq!(parse_syllable("\u{b7}").toned, "\u{b7}");
}

#[test]
fn whole_reading() {
    let r = Reading::parse("Zhong1 guo2");
    assert_eq!(r.toned(), "Zh\u{14d}ng gu\u{f3}");
    assert_eq!(r.plain(), "zhongguo");
    assert_eq!(r.initials(), "zg");
    assert_eq!(r.tones(), vec![1, 2]);
    let r = Reading::parse("yin2 hang2");
    assert_eq!(r.toned(), "y\u{ed}n h\u{e1}ng");
}

#[test]
fn every_vowel_takes_every_mark() {
    let want = [
        ("a", ['\u{101}', '\u{e1}', '\u{1ce}', '\u{e0}']),
        ("o", ['\u{14d}', '\u{f3}', '\u{1d2}', '\u{f2}']),
        ("e", ['\u{113}', '\u{e9}', '\u{11b}', '\u{e8}']),
        ("i", ['\u{12b}', '\u{ed}', '\u{1d0}', '\u{ec}']),
        ("u", ['\u{16b}', '\u{fa}', '\u{1d4}', '\u{f9}']),
        ("u:", ['\u{1d6}', '\u{1d8}', '\u{1da}', '\u{1dc}']),
    ];
    for (v, marks) in want {
        for (i, m) in marks.iter().enumerate() {
            assert_eq!(parse_syllable(&format!("{v}{}", i + 1)).toned, m.to_string());
        }
    }
}

#[test]
fn odd_tokens() {
    // no vowel: the digit goes, nothing is marked
    let r = parse_syllable("r5");
    assert_eq!((r.toned.as_str(), r.plain.as_str(), r.tone), ("r", "r", 0));
    let m = parse_syllable("m2");
    assert_eq!((m.toned.as_str(), m.tone), ("m", 2));
    // 6 is no tone
    assert_eq!(parse_syllable("ma6").toned, "ma6");
    assert_eq!(parse_syllable(""), Syllable::default());
    // a capital that carries the mark itself
    assert_eq!(parse_syllable("E2").toned, "\u{c9}");
    assert_eq!(parse_syllable("LU:4").plain_v, "lv");
}

#[test]
fn readings_without_words_are_empty() {
    let r = Reading::parse(" \t\u{3000} ");
    assert_eq!(r.toned(), "");
    assert_eq!(r.plain(), "");
    assert_eq!(r.plain_v(), "");
    assert_eq!(r.initials(), "");
    assert!(r.tones().is_empty());
    assert_eq!(Reading::parse("nu:3 r5").plain_v(), "nvr");
}
