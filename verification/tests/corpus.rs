use yinyidict::cedict::parse_line;
use yinyidict::corpus::{
    en_words_in, parse_codepoint, split_freq_line, take_pos, zh_words_in, PairBuilder, Pairs,
    Variants, Vocab, ZhFreq,
};
use yinyidict::model::Entry;
use yinyidict::single::Double;

fn vocab(words: &[&str]) -> Vocab {
    let mut v = Vocab::new();
    for w in words {
        v.insert(w.to_string());
    }
    v
}

fn lines(text: &str) -> Vec<String> {
    text.split('\n').map(|s| s.to_string()).collect()
}

#[test]
fn codepoints_with_annotations_parse() {
    assert_eq!(parse_codepoint("U+4E2D"), Some('中'));
    assert_eq!(parse_codepoint("U+439B<kMatthews"), char::from_u32(0x439B));
    assert_eq!(parse_codepoint("garbage"), None);
}

#[test]
fn variant_spellings_swap_one_character() {
    let mut v = Variants::new();
    v.add('里', vec!['裏', '裡']);
    let mut got = v.spellings("里面", 8);
    got.sort();
    assert_eq!(got, vec!["裏面", "裡面"]);
    assert!(v.spellings("里面里面里", 8).is_empty());
}

#[test]
fn longest_match_finds_headwords() {
    let got = zh_words_in("中国人", &vocab(&["中", "中国", "人"]), 4);
    assert_eq!(got, vec!["中国", "人"]);
}

#[test]
fn english_tokenizer_lowercases_and_dedupes() {
    assert_eq!(en_words_in("The cat, the CAT!"), vec!["cat", "the"]);
}

#[test]
fn codepoints_out_of_range_are_refused() {
    assert_eq!(parse_codepoint("U+D800"), None);
    assert_eq!(parse_codepoint("U+110000"), None);
    assert_eq!(parse_codepoint("U+FFFFFFFFF"), None);
    assert_eq!(parse_codepoint("U+"), None);
    assert_eq!(parse_codepoint("u+4E2D"), None);
    assert_eq!(parse_codepoint("U+2a700"), char::from_u32(0x2A700));
}

#[test]
fn unihan_lines_collect_variants() {
    let v = Variants::load(&lines(
        "# comment\nU+91CC\tkSemanticVariant\tU+88E1 U+88CF<kX U+91CC\nU+91CC\tkZVariant\tU+88CF\n\
         U+4E00\tkDefinition\tone\nU+4E8C\tkZVariant\tU+4E8C\n\nU+9999\tkZVariant",
    ));
    assert_eq!(v.spellings("里", 9), vec!["裏", "裡"]);
    assert!(v.spellings("一", 9).is_empty());
    assert!(v.spellings("二", 9).is_empty());
    assert_eq!(v.spellings("里里", 3), vec!["裏里", "裡里", "里裏"]);
    assert!(v.spellings("里", 0).is_empty());
}

#[test]
fn frequency_lines_and_parts_of_speech() {
    let mut f = ZhFreq::new();
    for line in ["中国 300 ns", "慢 20", "啊 9 zg", "奔 1 vd extra", "lonely"] {
        if let Some(l) = split_freq_line(line) {
            let c: f64 = l.count.parse().unwrap();
            f.add(l, Double { bits: c.to_bits() });
        }
    }
    assert_eq!(f.count_of("中国").map(|d| f64::from_bits(d.bits)), Some(300.0));
    assert_eq!(f.pos_of("中国").as_deref(), Some("名"));
    assert_eq!(f.count_of("慢").map(|d| f64::from_bits(d.bits)), Some(20.0));
    assert_eq!(f.pos_of("慢"), None);
    assert_eq!(f.pos_of("啊"), None);
    assert_eq!(f.pos_of("奔").as_deref(), Some("动"));
    assert_eq!(f.count_of("lonely"), None);

    // a headword takes the part of speech that is known and keeps all else
    let mut r = parse_line("中國 中国 [Zhong1 guo2] /China/").unwrap();
    r.entry.pos = "旧".into();
    let before = r.entry.clone();
    take_pos(&mut r, &f);
    assert_eq!(r.entry.pos, "名");
    assert_eq!(Entry { pos: "旧".into(), ..r.entry.clone() }, before);
    let mut r = parse_line("慢 慢 [man4] /slow/").unwrap();
    r.entry.pos = "旧".into();
    take_pos(&mut r, &f);
    assert_eq!(r.entry.pos, "旧");
}

#[test]
fn sentence_pairs_come_shortest_first_with_one_translation_each() {
    let cmn = lines("1\tcmn\t我喜欢吃苹果。\n2\tcmn\t你好。\nx\tcmn\t坏\n3\tcmn\t没有\t译文\n4\tcmn");
    let eng = lines("10\teng\tI like apples.\n11\teng\tI love apples.\n12\teng\tHello.\n99\teng\tUnused.");
    let links = lines("1\t98\n1\t10\n1\t11\n 2 \t 12 \n7\t10\n3\t97\nbroken");
    let p = Pairs::load(&cmn, &eng, &links);
    let got: Vec<(&str, &str)> =
        p.sorted.iter().map(|(a, b)| (a.as_str(), b.as_str())).collect();
    assert_eq!(got, vec![("你好。", "Hello."), ("我喜欢吃苹果。", "I like apples.")]);
}

#[test]
fn pairs_read_line_by_line_are_the_same() {
    let mut b = PairBuilder::new();
    b.add_cmn("5\tcmn\t乙乙");
    b.add_cmn("6\tcmn\t甲甲");
    b.add_link("6\t60");
    b.add_link("5\t50");
    b.add_eng("50\teng\tB");
    b.add_eng("60\teng\tA");
    b.add_eng("61\teng\tC");
    // equal lengths keep the order of the links
    let p = b.finish();
    assert_eq!(p.sorted, vec![("甲甲".to_string(), "A".to_string()), ("乙乙".to_string(), "B".to_string())]);
}

#[test]
fn a_sentence_line_keeps_tabs_in_its_text() {
    let mut b = PairBuilder::new();
    b.add_cmn("1\tcmn\t左\t右");
    b.add_link("1\t2\tmore");
    b.add_eng("2\teng\tleft\tright");
    assert_eq!(b.finish().sorted, vec![("左\t右".to_string(), "left\tright".to_string())]);
}

#[test]
fn longest_match_respects_the_limit() {
    let v = vocab(&["一诺千金", "一诺", "千金", "金"]);
    assert_eq!(zh_words_in("一诺千金", &v, 4), vec!["一诺千金", "千金", "金"]);
    assert_eq!(zh_words_in("一诺千金", &v, 2), vec!["一诺", "千金", "金"]);
    assert!(zh_words_in("一诺千金", &v, 0).is_empty());
    assert!(zh_words_in("", &v, 4).is_empty());
}

#[test]
fn apostrophes_and_short_words() {
    assert_eq!(en_words_in("I don't, a B2B Über x"), vec!["ber", "don't"]);
}
