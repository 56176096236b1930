use yinyidict::assemble::assemble;
use yinyidict::attach::attach_examples;
use yinyidict::cedict::{parse_line, RawZh};
use yinyidict::corpus::{split_freq_line, take_pos, Pairs, Variants, ZhFreq};
use yinyidict::english::{build, keep_en, EcRow, RawEn};
use yinyidict::lane::Lane;
use yinyidict::model::Entry;
use yinyidict::panel::Panel;
use yinyidict::percentile::{known, percentile_ranks};
use yinyidict::search::{rank, stabilize, Bonus, Hit, Params};
use yinyidict::single::{Double, Single};
use yinyidict::store::{ids_of, unpack_top, Store, StoreError};
use yinyidict::tops::{choose_top, heavy_prefixes, prefix_of, TopCandidate, TOP_N, TOP_THRESHOLD};
use yinyidict::whole::{finish_keys, write_all, Built};

fn strings(v: &[&str]) -> Vec<String> {
    v.iter().map(|s| s.to_string()).collect()
}

fn single(x: f32) -> Single {
    Single { bits: x.to_bits() }
}

fn double(x: f64) -> Double {
    Double { bits: x.to_bits() }
}

/// Ranks spread over 0.10 to 1.00; 0.02 for what is unknown.
fn percentiles(f: &[Option<f64>], bigger: bool) -> Vec<f32> {
    let v: Vec<Option<Double>> = f.iter().map(|x| x.map(double)).collect();
    let denom = known(&v).saturating_sub(1).max(1) as f32;
    percentile_ranks(v, bigger)
        .into_iter()
        .map(|r| match r {
            Some(k) => (0.10 + 0.90 * (1.0 - k as f32 / denom)).clamp(0.10, 1.0),
            None => 0.02,
        })
        .collect()
}

fn score(p: &Params, lane: Lane, key_len: usize, q_len: usize, pct: f32) -> f32 {
    let f = |s: Single| f32::from_bits(s.bits);
    let t = Params::terms(lane, key_len, q_len);
    let bonus = match t.bonus {
        Bonus::Full => f(p.exact_bonus),
        Bonus::Secondary => f(p.exact_bonus) * f(p.secondary),
        Bonus::Nothing => 0.0,
    };
    f(t.weight) * f(p.scale) * pct + bonus - f(p.lambda) * t.over as f32
}

fn search(s: &Store, q: &str, p: &Params) -> Vec<Hit> {
    let g = s.gather(q, p.budget);
    let scores: Vec<Single> = g
        .candidates
        .iter()
        .map(|c| {
            let pct = s.pct.get(c.id as usize).map_or(0.0, |x| f32::from_bits(x.bits));
            single(score(p, c.lane, c.key_len, g.q_len, pct))
        })
        .collect();
    rank(&g.candidates, &scores, p.limit, p.max_secondary)
}

const CEDICT: &[&str] = &[
    "# made up",
    "測試 测试 [ce4 shi4] /to try out/trial run/",
    "編譯器 编译器 [bian1 yi4 qi4] /program translator/",
    "編譯 编译 [bian1 yi4] /to translate programs/",
    "銀行 银行 [yin2 hang2] /bank/CL:家[jia1],個|个[ge4]/",
    "行 行 [xing2] /to walk/",
    "行 行 [hang2] /row/",
    "將就 将就 [jiang1 jiu5] /(coll.) to make do/",
    "裡面 里面 [li3 mian4] /inside/see also 裡邊|里边[li3 bian5]/",
];

fn row<'a>(word: &'a str, translation: &'a str, exchange: &'a str, frq: f64) -> EcRow<'a> {
    EcRow {
        word,
        phonetic: "",
        definition: "",
        translation,
        pos: "",
        collins: "",
        oxford: "",
        tag: "",
        bnc: None,
        frq: Some(double(frq)),
        exchange,
    }
}

fn sources() -> (Vec<RawZh>, Vec<RawEn>) {
    let mut freq = ZhFreq::new();
    for l in ["测试 90 v", "银行 500 n", "行 800 v", "编译 40 v", "编译器 20 n"] {
        let f = split_freq_line(l).unwrap();
        let n: f64 = f.count.parse().unwrap();
        freq.add(f, double(n));
    }
    let mut zh: Vec<RawZh> = CEDICT.iter().filter_map(|l| parse_line(l)).collect();
    for r in zh.iter_mut() {
        let n = freq.count_of(&r.entry.word).map_or(0.0, |x| f64::from_bits(x.bits)) as f32;
        r.entry.freq = single(n);
        take_pos(r, &freq);
    }
    let f: Vec<Option<f64>> = zh
        .iter()
        .map(|r| f32::from_bits(r.entry.freq.bits))
        .map(|x| if x > 0.0 { Some(x as f64) } else { None })
        .collect();
    for (r, p) in zh.iter_mut().zip(percentiles(&f, true)) {
        r.entry.pct = single(p);
    }
    let mut en: Vec<RawEn> = [
        row("compile", "vt. 编译", "p:compiled/d:compiled", 3000.0),
        row("compiler", "n. 编译器", "", 5000.0),
        row("compiled", "a. 编译过的", "0:compile/1:p", 9000.0),
        row("bank", "n. 银行", "", 500.0),
    ]
    .iter()
    .filter_map(build)
    .filter(keep_en)
    .collect();
    let f: Vec<Option<f64>> =
        en.iter().map(|r| r.rank.map(|x| f64::from_bits(x.bits))).collect();
    for (r, p) in en.iter_mut().zip(percentiles(&f, false)) {
        r.entry.pct = single(p);
    }
    let pairs = Pairs::load(
        &strings(&["1\tcmn\t他去银行。"]),
        &strings(&["2\teng\tHe goes to the bank."]),
        &strings(&["1\t2"]),
    );
    attach_examples(&mut zh, &mut en, &pairs);
    (zh, en)
}

fn built() -> Built {
    let (zh, en) = sources();
    let variants = Variants::load(&strings(&["U+88E1\tkSimplifiedVariant\tU+91CC"]));
    let (w, keys) = assemble(&zh, &en, &variants);
    let lanes = finish_keys(keys);
    let tops: Vec<Vec<(String, Vec<u32>)>> = (0..7).map(|_| Vec::new()).collect();
    write_all(w, &lanes, &tops).unwrap()
}

fn words(s: &Store, hits: &[Hit]) -> Vec<String> {
    hits.iter().map(|h| s.entry(h.id).unwrap().word).collect()
}

fn entry(s: &Store, w: &str) -> Entry {
    s.entry(s.lookup_word(w).unwrap()).unwrap()
}

#[test]
fn the_whole_pipeline_produces_a_searchable_index() {
    let b = built();
    let store = b.open().unwrap();
    assert!(store.n > 0, "词库是空的");
    let p = Params::default();

    let id = store.lookup_word("测试").expect("查不到「测试」");
    let e = store.entry(id).unwrap();
    assert_eq!(e.word, "测试");
    assert!(!e.senses.is_empty(), "「测试」没有义项");

    assert!(store.lookup_word("compiler").is_some(), "查不到 compiler");

    let r = search(&store, "ceshi", &p);
    assert!(
        r.iter().any(|h| store.entry(h.id).unwrap().word == "测试"),
        "拼音「ceshi」找不到「测试」"
    );

    let r = search(&store, "byq", &p);
    assert!(
        r.iter().any(|h| store.entry(h.id).unwrap().word == "编译器"),
        "首字母「byq」找不到「编译器」"
    );

    let r = search(&store, "compil", &p);
    assert!(!r.is_empty(), "「compil」什么都没找到");
}

#[test]
fn readings_are_disambiguated_per_word_not_per_character() {
    let b = built();
    let store = b.open().unwrap();
    let id = store.lookup_word("银行").expect("查不到「银行」");
    let e = store.entry(id).unwrap();
    assert!(
        e.reading.contains("háng") || e.reading.contains("hang"),
        "「银行」注音成了 {}，多音字没按词消歧",
        e.reading
    );
}

#[test]
fn cedict_markup_is_parsed_out_of_the_gloss_text() {
    let b = built();
    let store = b.open().unwrap();

    let e = store.entry(store.lookup_word("银行").unwrap()).unwrap();
    assert!(
        !e.senses.iter().any(|s| s.text.starts_with("CL:")),
        "量词跑进义项里了：{:?}",
        e.senses.iter().map(|s| &s.text).collect::<Vec<_>>()
    );

    let e = store.entry(store.lookup_word("将就").unwrap()).unwrap();
    assert!(
        e.senses.iter().any(|s| s.reg.contains("coll")),
        "(coll.) 没被提成语域字段：{:?}",
        e.senses.iter().map(|s| (&s.text, &s.reg)).collect::<Vec<_>>()
    );
}

#[test]
fn every_headword_is_found_in_its_lane() {
    let (zh, en) = sources();
    let b = built();
    let s = b.open().unwrap();
    assert_eq!(s.n, zh.len() + en.len());
    for (i, r) in zh.iter().enumerate() {
        let ids = ids_of(s.exact_key(Lane::Zh, &r.entry.word).unwrap());
        assert!(ids.contains(&(i as u32)), "{}", r.entry.word);
        assert!(s.try_lookup_word(&r.entry.word).unwrap().is_some());
    }
    for (i, r) in en.iter().enumerate() {
        let ids = ids_of(s.exact_key(Lane::Enw, &r.entry.word.to_lowercase()).unwrap());
        assert!(ids.contains(&((zh.len() + i) as u32)), "{}", r.entry.word);
    }
    assert_eq!(s.lookup_word("nowhere"), None);
}

#[test]
fn inflected_forms_lead_to_their_base() {
    let b = built();
    let s = b.open().unwrap();
    let ids = ids_of(s.exact_key(Lane::Enw, "compiled").unwrap());
    let got: Vec<String> = ids.iter().map(|i| s.entry(*i).unwrap().word).collect();
    assert_eq!(got, vec!["compile", "compiled"]);
}

#[test]
fn traditional_and_variant_spellings_lead_to_the_entry() {
    let b = built();
    let s = b.open().unwrap();
    assert_eq!(entry(&s, "銀行").word, "银行");
    assert_eq!(entry(&s, "裡面").word, "里面");
    assert_eq!(words(&s, &search(&s, "译器", &Params::default())), vec!["编译器"]);
}

#[test]
fn what_is_typed_in_full_comes_first() {
    let b = built();
    let s = b.open().unwrap();
    let p = Params::default();
    assert_eq!(words(&s, &search(&s, "bank", &p))[0], "bank");
    assert_eq!(words(&s, &search(&s, "编译", &p))[0], "编译");
    let en = search(&s, "bank", &p);
    assert!(en.iter().any(|h| h.lane == Lane::Gloss));
    let stable = stabilize(&search(&s, "编", &p), search(&s, "编译", &p));
    assert_eq!(stable.len(), search(&s, "编译", &p).len());
}

#[test]
fn one_spelling_with_two_readings_has_two_entries() {
    let b = built();
    let s = b.open().unwrap();
    let ids = ids_of(s.exact_key(Lane::Zh, "行").unwrap());
    assert_eq!(ids.len(), 2);
    assert_eq!(s.entry(ids[0]).unwrap().reading, "xíng");
    assert_eq!(s.entry(ids[1]).unwrap().reading, "háng");
    assert_eq!(s.exact_key(Lane::Py, "hang").map(ids_of), Some(vec![ids[1]]));
}

#[test]
fn examples_reach_both_sides() {
    let b = built();
    let s = b.open().unwrap();
    let zh = entry(&s, "银行");
    assert_eq!((zh.examples[0].a.as_str(), zh.examples[0].b.as_str()), ("他去银行。", "He goes to the bank."));
    let en = entry(&s, "bank");
    assert_eq!(en.examples.len(), 1);
}

#[test]
fn lists_out_of_order_are_refused() {
    let (zh, en) = sources();
    let (w, keys) = assemble(&zh, &en, &Variants::new());
    let mut lanes = finish_keys(keys);
    let empty: Vec<Vec<(String, Vec<u32>)>> = (0..7).map(|_| Vec::new()).collect();
    lanes[3].swap(0, 1);
    assert_eq!(write_all(w, &lanes, &empty).err(), Some(StoreError::KeyOrder { at: 1 }));
}

#[test]
fn percentile_orders_by_commonness() {
    let p = percentiles(&[Some(1.0), Some(100.0), Some(10.0)], true);
    assert!(p[1] > p[2] && p[2] > p[0]);

    let p = percentiles(&[Some(1.0), Some(100.0), Some(10.0)], false);
    assert!(p[0] > p[2] && p[2] > p[1]);
}

#[test]
fn unknown_frequency_sinks_to_the_bottom() {
    let p = percentiles(&[Some(5.0), None, Some(1.0)], true);
    assert!(p[1] < p[2], "未知词频要排在所有已知词频之后");
    assert!(p[0] > p[2]);
}

#[test]
fn ranks_are_dense_and_keep_ties_in_order() {
    let f = |v: &[Option<f64>]| v.iter().map(|x| x.map(double)).collect::<Vec<_>>();
    let v = f(&[Some(2.0), None, Some(7.0), Some(2.0), Some(-1.0)]);
    assert_eq!(known(&v), 4);
    assert_eq!(percentile_ranks(v.clone(), true), vec![Some(1), None, Some(0), Some(2), Some(3)]);
    assert_eq!(percentile_ranks(v, false), vec![Some(1), None, Some(3), Some(2), Some(0)]);
    assert!(percentile_ranks(Vec::new(), true).is_empty());
    let p = percentiles(&[Some(3.0), Some(4.0)], true);
    assert!((p[0] - 0.10).abs() < 1e-6 && (p[1] - 1.0).abs() < 1e-6);
}

#[test]
fn prefixes_of_texts() {
    assert_eq!(prefix_of("编译器", 2).as_deref(), Some("编译"));
    assert_eq!(prefix_of("编", 2), None);
    assert_eq!(prefix_of("", 0).as_deref(), Some(""));
}

#[test]
fn only_heavy_prefixes_get_a_table() {
    let keys: Vec<(String, Vec<u32>)> =
        (0..TOP_THRESHOLD as u32 + 1).map(|i| (format!("a{i:04}"), vec![i])).collect();
    let slots = heavy_prefixes(&keys);
    assert_eq!(slots.iter().map(|s| s.prefix.as_str()).collect::<Vec<_>>(), vec!["a"]);
    assert_eq!(slots[0].candidates.len(), TOP_THRESHOLD + 1);
    assert_eq!(slots[0].candidates[3], TopCandidate { key_len: 5, id: 3 });
    assert!(heavy_prefixes(&keys[1..].to_vec()).is_empty());
}

#[test]
fn a_table_keeps_the_best_of_each_entry() {
    let c = |key_len, id| TopCandidate { key_len, id };
    let cands = vec![c(3, 1), c(2, 2), c(5, 1), c(4, 3)];
    let scores: Vec<Single> = [1.0f32, 2.0, 3.0, 2.0].iter().map(|x| single(*x)).collect();
    let got: Vec<(usize, u32)> = choose_top(&cands, &scores).into_iter().map(unpack_top).collect();
    assert_eq!(got, vec![(5, 1), (2, 2), (4, 3)]);
    let many: Vec<TopCandidate> = (0..500).map(|i| c(1, i)).collect();
    let scores: Vec<Single> = (0..500).map(|i| single(i as f32)).collect();
    let top = choose_top(&many, &scores);
    assert_eq!(top.len(), TOP_N);
    assert_eq!(unpack_top(top[0]), (1, 499));
}

#[test]
fn a_built_table_answers_short_queries() {
    let lines: Vec<String> = (0..1600u32)
        .map(|i| {
            let a = (b'a' + (i / 676) as u8) as char;
            let b = (b'a' + (i / 26 % 26) as u8) as char;
            let c = (b'a' + (i % 26) as u8) as char;
            format!("x{a}{b}{c}")
        })
        .collect();
    let en: Vec<RawEn> =
        lines.iter().enumerate().filter_map(|(i, w)| build(&row(w, "n. 词", "", (i + 1) as f64))).collect();
    let (w, keys) = assemble(&Vec::new(), &en, &Variants::new());
    let lanes = finish_keys(keys);
    let p = Params::default();
    let tops: Vec<Vec<(String, Vec<u32>)>> = lanes
        .iter()
        .enumerate()
        .map(|(l, keys)| {
            heavy_prefixes(keys)
                .into_iter()
                .map(|slot| {
                    let n = slot.prefix.chars().count();
                    let s: Vec<Single> = slot
                        .candidates
                        .iter()
                        .map(|c| single(score(&p, yinyidict::LANES[l], c.key_len, n, 1.0 / (1 + c.id) as f32)))
                        .collect();
                    let list = choose_top(&slot.candidates, &s);
                    (slot.prefix, list)
                })
                .collect()
        })
        .collect();
    let b = write_all(w, &lanes, &tops).unwrap();
    assert_eq!(b.tops().iter().filter(|t| t.is_some()).count(), 1);
    let s = b.open().unwrap();
    let g = s.gather("x", p.budget);
    assert_eq!((g.scanned, g.candidates.len()), (0, TOP_N));
    assert_eq!(g.candidates[0].id, 0);
}

#[test]
fn what_was_written_is_looked_up_at_once() {
    let b = built();
    let store = b.open().unwrap();
    let g = b.look_up(" CeShi ", 100).unwrap();
    let want = store.gather("ceshi", 100);
    assert_eq!((&g.candidates, g.truncated, g.scanned, g.q_len), (&want.candidates, false, want.scanned, 5));
    let id = store.lookup_word("测试").unwrap();
    assert!(g.candidates.iter().any(|c| c.id == id && c.lane == Lane::Py));

    let page = b.page(id).unwrap().unwrap();
    assert_eq!(page.senses.len(), store.entry(id).unwrap().senses.len());
    let n = store.n;
    assert_eq!(b.page(n as u32).err(), Some(StoreError::OutOfRange { id: n as u32, n }));

    let mut panel = Panel::new();
    assert_eq!(b.show_word(&mut panel, "测试"), Ok(true));
    assert_eq!(panel.entry_id, Some(id));
    assert_eq!(panel.entry.as_ref().map(|e| e.word.as_str()), Some("测试"));
    assert_eq!(b.show_word(&mut panel, "没有这个词"), Ok(true));
    assert_eq!(panel.entry_id, Some(id));
    assert_eq!((b.lanes().len(), b.tops().len()), (7, 7));
    assert!(store.records_fit());
}
