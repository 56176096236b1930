use yinyidict::english::{build, keep_en, EcRow, RawEn};
use yinyidict::single::Double;

fn double(x: f64) -> Option<Double> {
    Some(Double { bits: x.to_bits() })
}

fn row<'a>(word: &'a str, tr: &'a str, def: &'a str, ex: &'a str) -> EcRow<'a> {
    EcRow {
        word,
        phonetic: "kəm'paɪl",
        definition: def,
        translation: tr,
        pos: "v:80,n:20",
        collins: "3",
        oxford: "1",
        tag: "cet4 gre",
        bnc: double(8500.0),
        frq: double(9000.0),
        exchange: ex,
    }
}

fn bare<'a>(word: &'a str, tr: &'a str) -> EcRow<'a> {
    EcRow {
        phonetic: "",
        pos: "",
        collins: "",
        oxford: "",
        tag: "",
        bnc: None,
        frq: None,
        ..row(word, tr, "", "")
    }
}

fn rank(r: &RawEn) -> Option<f64> {
    r.rank.map(|d| f64::from_bits(d.bits))
}

#[test]
fn builds_senses_from_chinese_lines() {
    let r = build(&row("compile", "vt. 编译\nvt. 编纂", "", "")).unwrap();
    assert_eq!(r.entry.senses.len(), 2);
    assert_eq!(r.entry.senses[0].pos, "vt.");
    assert_eq!(r.entry.senses[0].text, "编译");
    assert_eq!(r.entry.reading, "/kəm'paɪl/");
    assert_eq!(r.entry.pos, "v.");
}

#[test]
fn pairs_english_definitions_when_line_counts_match() {
    let r = build(&row("compile", "vt. 编译\nvt. 编纂", "to translate source\nto assemble", ""))
        .unwrap();
    assert_eq!(r.entry.senses[0].note, "to translate source");
    assert_eq!(r.entry.senses[1].note, "to assemble");

    let r = build(&row("compile", "vt. 编译\nvt. 编纂", "only one line", "")).unwrap();
    assert_eq!(r.entry.senses[0].note, "");
}

#[test]
fn parses_exchange_into_a_forms_line_and_a_lemma() {
    let r = build(&row("compiled", "vt. 编译", "", "0:compile/1:p")).unwrap();
    assert_eq!(r.lemma.as_deref(), Some("compile"));

    let r = build(&row("compile", "vt. 编译", "", "p:compiled/i:compiling/3:compiles")).unwrap();
    assert!(r.entry.forms.contains("过去式 compiled"), "forms = {}", r.entry.forms);
    assert!(r.entry.forms.contains("三单 compiles"), "forms = {}", r.entry.forms);
    assert!(r.lemma.is_none());
}

#[test]
fn rank_takes_the_more_common_of_bnc_and_coca() {
    let r = build(&row("compile", "vt. 编译", "", "")).unwrap();
    assert_eq!(rank(&r), Some(8500.0));
}

#[test]
fn exam_tags_and_collins_stars() {
    let r = build(&row("compile", "vt. 编译", "", "")).unwrap();
    assert!(r.entry.tags.contains("四级"));
    assert!(r.entry.tags.contains("GRE"));
    assert!(r.entry.tags.contains("★★★"));
    assert!(r.entry.tags.contains("牛津核心"));
}

#[test]
fn chinese_gloss_tokens_feed_the_trans_lane() {
    let r = build(&row("compile", "vt. 编译；编纂", "", "")).unwrap();
    assert!(r.trans_tokens.contains(&"编译".to_string()));
    assert!(r.trans_tokens.contains(&"编纂".to_string()));
}

#[test]
fn rejects_rows_without_a_chinese_translation() {
    assert!(build(&row("zzz", "", "", "")).is_none());
}

#[test]
fn the_whole_headword_of_a_row() {
    let r = build(&row(" compile ", "vt. 编译\n\n[计] 编译；汇编", "to put together\n", "d:compiled/0:x /q:zz/s: "))
        .unwrap();
    let e = &r.entry;
    assert_eq!(e.kind, 1);
    assert_eq!(e.word, "compile");
    assert_eq!(e.forms, "过去分词 compiled");
    assert_eq!(e.tags, "四级 · GRE · 柯林斯 ★★★ · 牛津核心");
    assert_eq!(e.raw, "vt. 编译\n\n[计] 编译；汇编\n— — —\nto put together");
    assert_eq!((e.senses[1].pos.as_str(), e.senses[1].text.as_str()), ("[计]", "编译；汇编"));
    assert_eq!(r.trans_tokens, vec!["汇编", "编译"]);
    assert_eq!(r.lemma.as_deref(), Some("x"));
    assert!(e.trad.is_empty() && e.xrefs.is_empty() && e.examples.is_empty() && e.tones.is_empty());
}

#[test]
fn a_prefix_that_is_no_part_of_speech_stays() {
    let r = build(&bare("x", "很长的 释义")).unwrap();
    assert_eq!(r.entry.senses[0].pos, "");
    assert_eq!(r.entry.senses[0].text, "很长的 释义");
    // more than eight characters are no abbreviation
    let r = build(&bare("x", "abbreviat. 缩写")).unwrap();
    assert_eq!(r.entry.senses[0].pos, "");
    assert_eq!(build(&bare("x", "n. 名")).unwrap().entry.senses[0].pos, "n.");
    assert_eq!(build(&bare("x", "n.名")).unwrap().entry.senses[0].text, "n.名");
}

#[test]
fn the_part_of_speech_with_the_greatest_share_wins() {
    let pos = |p: &str| build(&EcRow { pos: p, ..bare("x", "名") }).unwrap().entry.pos;
    assert_eq!(pos("n:50,v:30"), "n.");
    assert_eq!(pos("n:50,v:50"), "v.");
    assert_eq!(pos("n:-5, v : +7 ,j:x"), "v.");
    assert_eq!(pos("n,v"), "");
    assert_eq!(pos(""), "");
}

#[test]
fn stars_are_capped_and_need_a_positive_number() {
    let tags = |c: &str| build(&EcRow { collins: c, ..bare("x", "名") }).unwrap().entry.tags;
    assert_eq!(tags("9"), "柯林斯 ★★★★★");
    assert_eq!(tags(" 1 "), "柯林斯 ★");
    assert_eq!(tags("0"), "");
    assert_eq!(tags("-3"), "");
    assert_eq!(tags("three"), "");
}

#[test]
fn ranks_that_do_not_count() {
    let r = |b, f| rank(&build(&EcRow { bnc: b, frq: f, ..bare("x", "名") }).unwrap());
    assert_eq!(r(double(0.0), double(12.0)), Some(12.0));
    assert_eq!(r(double(7.0), double(-3.0)), Some(7.0));
    assert_eq!(r(double(f64::NAN), None), None);
    assert_eq!(r(double(9.0), double(4.0)), Some(4.0));
    assert_eq!(r(None, None), None);
}

#[test]
fn what_is_kept_of_the_english_side() {
    let keep = |r: EcRow| keep_en(&build(&r).unwrap());
    assert!(keep(bare("banana", "香蕉")));
    assert!(keep(bare("well-being", "福")));
    assert!(!keep(bare("a", "一")));
    assert!(!keep(bare("new york", "纽约")));
    assert!(!keep(bare("abcdefghijklmnopqrstuvwxy", "长")));
    assert!(!keep(bare("x2", "二")));
    assert!(keep(EcRow { bnc: double(5.0), ..bare("new york", "纽约") }));
    assert!(keep(EcRow { tag: "gre", ..bare("new york", "纽约") }));
}
