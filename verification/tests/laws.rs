use yinyidict::attach::{attach_examples, MAX_EXAMPLES};
use yinyidict::cedict::{parse_line, RawZh};
use yinyidict::codec::{decode_entry, decode_senses, encode_entry, encode_senses};
use yinyidict::corpus::{en_words_in, Pairs, Variants};
use yinyidict::fasthash::IdHasher;
use yinyidict::lane::LANES;
use yinyidict::pinyin::Reading;
use yinyidict::search::Candidate;
use yinyidict::settings::Settings;
use yinyidict::single::Single;
use yinyidict::sorted::{sort_numbers, sort_texts};
use yinyidict::store::{IndexFiles, Store, StoreFiles};
use yinyidict::{Entry, Lane, Sense, StoreWriter};

fn strings(v: &[&str]) -> Vec<String> {
    v.iter().map(|s| s.to_string()).collect()
}

#[test]
fn a_headword_gets_three_examples_at_most() {
    let mut zh: Vec<RawZh> = vec![parse_line("銀行 银行 [yin2 hang2] /bank/").unwrap()];
    let cmn: Vec<String> = (0..9).map(|i| format!("{i}\tcmn\t银行{i}")).collect();
    let eng: Vec<String> = (10..19).map(|i| format!("{i}\teng\tbank {i}")).collect();
    let links: Vec<String> = (0..9).map(|i| format!("{i}\t{}", i + 10)).collect();
    attach_examples(&mut zh, &mut Vec::new(), &Pairs::load(&cmn, &eng, &links));
    assert_eq!(zh[0].entry.examples.len(), MAX_EXAMPLES);
    assert_eq!(zh[0].entry.examples[0].a, "银行0");
}

#[test]
fn spellings_differ_from_the_word_in_one_place() {
    let v = Variants::load(&strings(&[
        "U+88E1\tkSimplifiedVariant\tU+91CC",
        "U+91CC\tkTraditionalVariant\tU+88CF U+88E1 U+91CC",
    ]));
    let s = v.spellings("里里", 9);
    assert_eq!(s, vec!["裏里", "裡里", "里裏", "里裡"]);
    assert_eq!(v.spellings("里里", 3).len(), 3);
    assert!(v.spellings("里里里里里", 9).is_empty());
}

#[test]
fn ids_never_share_a_hash() {
    let h = |n: u64| {
        let mut x = IdHasher::new();
        x.write_u64(n);
        x.finish()
    };
    let v = [0, 1, 2, 255, 65536, u32::MAX as u64, u64::MAX];
    for a in v {
        for b in v {
            assert_eq!(h(a) == h(b), a == b);
        }
    }
}

#[test]
fn headwords_weigh_more_than_glosses() {
    let w = |l: Lane| f32::from_bits(l.weight().bits);
    for a in LANES.iter().filter(|l| !l.is_secondary()) {
        for b in LANES.iter().filter(|l| l.is_secondary()) {
            assert!(w(*a) > w(*b));
        }
    }
}

#[test]
fn sanitizing_twice_is_sanitizing_once() {
    let s = |x: f32| Single { bits: x.to_bits() };
    let wild = Settings {
        window: [s(5.0), s(99999.0)],
        speed: s(-3.0),
        exact_bonus: s(f32::INFINITY),
        max_secondary: 99,
        ..Default::default()
    };
    let once = wild.sanitized();
    let twice = once.sanitized();
    assert_eq!((once.window, once.speed, once.exact_bonus), (twice.window, twice.speed, twice.exact_bonus));
    assert_eq!(once.max_secondary, twice.max_secondary);
}

#[test]
fn sorting_keeps_every_value_once() {
    assert_eq!(sort_texts(strings(&["b", "a", "中", "b", ""])), vec!["", "a", "b", "中"]);
    assert_eq!(sort_numbers(vec![3, 1, 3, 2]), vec![1, 2, 3]);
}

#[test]
fn records_read_back_whatever_follows() {
    let e = Entry { word: "词".into(), tones: vec![1, 2], xrefs: strings(&["a", ""]), ..Default::default() };
    let mut b = encode_entry(&e);
    b.extend_from_slice(b"more");
    assert_eq!(decode_entry(&b), Some(e.clone()));
    assert_eq!(decode_entry(&b[..encode_entry(&e).len() - 1]), None);
    let s = vec![Sense { text: "x".into(), ..Default::default() }, Sense::default()];
    let mut b = encode_senses(&s);
    b.push(0);
    assert_eq!(decode_senses(&b), Some(s));
    // a text that is no UTF-8
    let mut bad = vec![0u8, 1, 0, 0, 0, 0, 0, 0, 0, 0xFF];
    bad.resize(200, 0);
    assert_eq!(decode_entry(&bad), None);
}

#[test]
fn a_full_lookup_finds_every_key_it_begins() {
    let mut w = StoreWriter::create();
    for _ in 0..4 {
        w.push(&Entry::default()).unwrap();
    }
    let keys: Vec<(String, Vec<u32>)> = vec![
        ("comp".into(), vec![0]),
        ("compile".into(), vec![1, 2]),
        ("con".into(), vec![3]),
    ];
    let x = w.write_lane(Lane::Enw, &keys).unwrap();
    let img = w.finish();
    let none = || (0..7).map(|_| IndexFiles { fst: None, post: None }).collect::<Vec<_>>();
    let mut lanes = none();
    lanes[Lane::Enw.idx()] = IndexFiles { fst: Some(&x.fst), post: Some(&x.post) };
    let s = Store::open(&StoreFiles {
        meta: &img.meta,
        entries: &img.entries,
        idx: &img.idx,
        lanes,
        tops: none(),
        overlay_bin: None,
        overlay_idx: None,
    })
    .unwrap();
    // letters of any script
    let mixed = s.gather(" ÉΣİ中", 10);
    let folded = s.gather("éσi̇中", 10);
    assert_eq!((mixed.q_len, mixed.candidates), (folded.q_len, folded.candidates));
    let g = s.gather(" Comp", 10);
    let c = |id, key_len| Candidate { id, lane: Lane::Enw, key_len };
    assert!(!g.truncated);
    assert_eq!(g.candidates, vec![c(0, 4), c(1, 7), c(2, 7)]);
    // case and surrounding blanks do not matter
    for q in ["comp", "COMP", "\t comp\u{3000}", "\u{2003}cOMP\n"] {
        let h = s.gather(q, 10);
        assert_eq!((&h.candidates, h.truncated, h.scanned), (&g.candidates, g.truncated, g.scanned));
    }
    for q in ["", " ", "\u{3000}\n"] {
        let h = s.gather(q, 10);
        assert_eq!((h.candidates.len(), h.truncated, h.scanned, h.q_len), (0, false, 0, 0));
    }
}

#[test]
fn readings_join_at_a_blank() {
    let join = |a: &str, b: &str| {
        let (x, y) = (Reading::parse(a), Reading::parse(b));
        let r = Reading::parse(&format!("{a} {b}"));
        assert_eq!(r.plain(), x.plain() + &y.plain());
        assert_eq!(r.plain_v(), x.plain_v() + &y.plain_v());
        assert_eq!(r.initials(), x.initials() + &y.initials());
        assert_eq!(r.tones(), [x.tones(), y.tones()].concat());
        r
    };
    assert_eq!(join("Zhong1", "guo2").plain(), "zhongguo");
    assert_eq!(join("nu:3  er2", " Lu:4").plain_v(), "nverlv");
    assert_eq!(join("", "A").plain(), "a");
}

#[test]
fn the_spellings_differ_where_there_is_an_umlaut() {
    for (s, p, v) in [
        ("Zhong1 guo2", "zhongguo", "zhongguo"),
        ("nu:3 ren2", "nuren", "nvren"),
        ("LU:4", "lu", "lv"),
        ("l\u{fc}4 \u{dc}", "luu", "lvv"),
        ("u :", "u:", "u:"),
        ("U u", "uu", "uu"),
        ("A1 · Ér2\u{3000}ΝU:3", "a·érνu", "a·érνv"),
    ] {
        let r = Reading::parse(s);
        assert_eq!((r.plain().as_str(), r.plain_v().as_str()), (p, v), "{s}");
        assert!(!p.contains(|c: char| c.is_whitespace() || c.is_ascii_uppercase()));
    }
}

#[test]
fn words_joined_by_blanks_give_the_words() {
    for s in ["The cat, the CAT!", "Don't stop - a b c", "", "x", "行 word 2nd"] {
        let w = en_words_in(s);
        assert_eq!(en_words_in(&w.join(" ")), w, "{s}");
    }
    assert_eq!(en_words_in("The cat, the CAT!"), strings(&["cat", "the"]));
}
