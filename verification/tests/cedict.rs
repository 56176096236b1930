use yinyidict::cedict::parse_line;

#[test]
fn parses_a_plain_entry() {
    let r = parse_line("中國 中国 [Zhong1 guo2] /China/Middle Kingdom/").unwrap();
    assert_eq!(r.entry.word, "中国");
    assert_eq!(r.entry.trad, "中國");
    assert_eq!(r.entry.reading, "Zh\u{14d}ng gu\u{f3}");
    assert_eq!(r.entry.senses.len(), 2);
    assert_eq!(r.entry.senses[0].text, "China");
    assert_eq!(r.pinyin_keys[0], "zhongguo");
    assert_eq!(r.initials, "zg");
}

#[test]
fn trad_equal_simp_leaves_trad_empty() {
    let r = parse_line("慢 慢 [man4] /slow/").unwrap();
    assert_eq!(r.entry.trad, "");
    assert_eq!(r.entry.reading, "m\u{e0}n");
}

#[test]
fn pulls_register_marker_out_of_the_gloss() {
    let r = parse_line("將就 将就 [jiang1 jiu5] /(coll.) to make do/").unwrap();
    assert_eq!(r.entry.senses[0].reg, "coll.");
    assert_eq!(r.entry.senses[0].text, "to make do");
}

#[test]
fn keeps_a_gloss_that_is_entirely_parenthetical() {
    let r = parse_line("阿 阿 [a1] /(prefix used before monosyllabic names)/").unwrap();
    assert_eq!(r.entry.senses[0].text, "(prefix used before monosyllabic names)");
}

#[test]
fn extracts_xrefs_and_cleans_the_text() {
    let r = parse_line("裡 里 [li3] /variant of 裏|里[li3]/").unwrap();
    assert_eq!(r.entry.senses[0].text, "variant of 里");
    assert!(r.entry.xrefs.is_empty(), "xrefs = {:?}", r.entry.xrefs);

    let r = parse_line("甲 甲 [jia3] /see 乙丙[yi3 bing3]/").unwrap();
    assert_eq!(r.entry.senses[0].text, "see 乙丙");
    assert_eq!(r.entry.xrefs, vec!["乙丙"]);
}

#[test]
fn classifiers_go_to_the_forms_line_not_a_sense() {
    let r = parse_line("書 书 [shu1] /book/CL:本[ben3],冊|册[ce4]/").unwrap();
    assert_eq!(r.entry.senses.len(), 1);
    assert!(r.entry.forms.starts_with("量词"), "forms = {:?}", r.entry.forms);
    assert!(r.entry.forms.contains('本'));
}

#[test]
fn drops_senses_that_are_only_a_pronunciation_note() {
    let r = parse_line("花 花 [hua1] /flower/also pr. [hua4]/").unwrap();
    assert_eq!(r.entry.senses.len(), 1, "senses = {:?}", r.entry.senses);
    assert_eq!(r.entry.senses[0].text, "flower");

    let r = parse_line("比 比 [bi3] /to compare/Taiwan pr. [bi4]/").unwrap();
    assert_eq!(r.entry.senses.len(), 1);
}

#[test]
fn keeps_cross_references_that_still_have_content() {
    let r = parse_line("裡 里 [li3] /variant of 裏|里[li3]/").unwrap();
    assert_eq!(r.entry.senses.len(), 1);
    assert_eq!(r.entry.senses[0].text, "variant of 里");
}

#[test]
fn an_all_degenerate_entry_is_kept_rather_than_dropped() {
    let r = parse_line("啊 啊 [a1] /also pr. [a5]/").expect("整条都是空壳时也要保留");
    assert_eq!(r.entry.word, "啊");
    assert_eq!(r.entry.senses.len(), 1);
}

#[test]
fn skips_comments_and_junk() {
    assert!(parse_line("# comment").is_none());
    assert!(parse_line("").is_none());
    assert!(parse_line("no brackets here").is_none());
}

#[test]
fn umlaut_entry_gets_both_pinyin_spellings() {
    let r = parse_line("女 女 [nu:3] /female/").unwrap();
    assert_eq!(r.pinyin_keys, vec!["nu", "nv"]);
}

#[test]
fn the_whole_headword_of_a_rich_line() {
    let line = "銀行 银行 [yin2 hang2] /bank/(fin.) the (big) bank/see 錢|钱[qian2] and 庫|库[ku4]/CL:家[jia1],個|个[ge4]/";
    let r = parse_line(line).unwrap();
    let e = &r.entry;
    assert_eq!(e.kind, 0);
    assert_eq!((e.word.as_str(), e.trad.as_str()), ("银行", "銀行"));
    assert_eq!(e.reading, "y\u{ed}n h\u{e1}ng");
    assert_eq!(e.tones, vec![2, 2]);
    assert_eq!(e.forms, "量词 家,个");
    let senses: Vec<(&str, &str)> =
        e.senses.iter().map(|s| (s.reg.as_str(), s.text.as_str())).collect();
    assert_eq!(senses, vec![("", "bank"), ("fin.", "the (big) bank"), ("", "see 钱 and 库")]);
    assert_eq!(e.xrefs, vec!["库", "钱"]);
    assert_eq!(
        e.raw,
        "bank / (fin.) the (big) bank / see 錢|钱[qian2] and 庫|库[ku4] / CL:家[jia1],個|个[ge4]"
    );
    assert_eq!(r.gloss_tokens, vec!["and", "bank", "big", "see", "the"]);
    assert_eq!(r.pinyin_keys, vec!["yinhang"]);
    assert_eq!((e.freq.bits, e.pct.bits), (0, 0));
}

#[test]
fn lines_of_another_shape_give_nothing() {
    // one form only, no closing bracket, no gloss, only blank glosses
    assert!(parse_line("中国 [Zhong1 guo2] /China/").is_none());
    assert!(parse_line("中國 中国 [Zhong1 guo2 /China/").is_none());
    assert!(parse_line("中國 中国 [Zhong1 guo2]").is_none());
    assert!(parse_line("中國 中国 [Zhong1 guo2] / / /").is_none());
    // a gloss that consists of a reading leaves nothing at all
    assert!(parse_line("中國 中国 [Zhong1 guo2] /[zhong1]/").is_none());
}

#[test]
fn unbalanced_parentheses_stay_in_the_text() {
    let r = parse_line("甲 甲 [jia3] /(a (b) c/").unwrap();
    assert_eq!(r.entry.senses[0].text, "(a (b) c");
    let r = parse_line("甲 甲 [jia3] /(a (b)) c/").unwrap();
    assert_eq!((r.entry.senses[0].reg.as_str(), r.entry.senses[0].text.as_str()), ("a (b)", "c"));
}

#[test]
fn at_most_eight_references_are_kept() {
    let words = ["一", "二", "三", "四", "五", "六", "七", "八", "九", "十"];
    let refs: String = words.iter().map(|w| format!("{w}[x1] and ")).collect();
    let r = parse_line(&format!("甲 甲 [jia3] /{refs}more/")).unwrap();
    assert_eq!(r.entry.xrefs.len(), 8);
    let mut sorted = r.entry.xrefs.clone();
    sorted.sort();
    assert_eq!(r.entry.xrefs, sorted);
}
