use yinyidict::lane::{Lane, LANES};
use yinyidict::model::{Entry, Example, Sense, KIND_EN, KIND_ZH};
use yinyidict::search::{is_cjk, rank, stabilize, Bonus, Candidate, Hit, Params};
use yinyidict::single::Single;
use yinyidict::store::{
    ids_of, pack_top, posting_fits, unpack_top, IndexFiles, Store, StoreError, StoreFiles,
    MAX_TOP_PREFIX,
};
use yinyidict::writer::{IndexImage, OverlayImage, StoreImage, StoreWriter};

fn single(x: f32) -> Single {
    Single { bits: x.to_bits() }
}

fn tiny_image() -> StoreImage {
    let mut w = StoreWriter::create();
    for word in ["甲", "乙"] {
        let e = Entry {
            kind: KIND_ZH,
            word: word.into(),
            senses: (0..3)
                .map(|i| Sense { text: format!("{word}-原始{i}"), ..Default::default() })
                .collect(),
            ..Default::default()
        };
        w.push(&e).unwrap();
    }
    w.finish()
}

fn no_indexes<'a>() -> Vec<IndexFiles<'a>> {
    (0..7).map(|_| IndexFiles { fst: None, post: None }).collect()
}

fn files<'a>(img: &'a StoreImage, ov: Option<&'a OverlayImage>) -> StoreFiles<'a> {
    StoreFiles {
        meta: &img.meta,
        entries: &img.entries,
        idx: &img.idx,
        lanes: no_indexes(),
        tops: no_indexes(),
        overlay_bin: ov.map(|o| o.bin.as_slice()),
        overlay_idx: ov.map(|o| o.idx.as_slice()),
    }
}

fn keys(v: &[(&str, &[u32])]) -> Vec<(String, Vec<u32>)> {
    v.iter().map(|(k, ids)| (k.to_string(), ids.to_vec())).collect()
}

fn with_index<'a>(f: &mut StoreFiles<'a>, lane: Lane, img: &'a IndexImage) {
    f.lanes[lane.idx()] = IndexFiles { fst: Some(&img.fst), post: Some(&img.post) };
}

fn with_top<'a>(f: &mut StoreFiles<'a>, lane: Lane, img: &'a IndexImage) {
    f.tops[lane.idx()] = IndexFiles { fst: Some(&img.fst), post: Some(&img.post) };
}

#[test]
fn overlay_replaces_senses_but_entry_raw_does_not_see_it() {
    let img = tiny_image();
    let s = Store::open(&files(&img, None)).unwrap();
    assert_eq!(s.entry(0).unwrap().senses.len(), 3);
    assert_eq!(s.entry_raw(0).unwrap().senses.len(), 3);
    assert!(!s.is_rewritten(0));
    assert_eq!(s.overlay_len(), 0);

    let ov = StoreWriter::write_overlay(
        2,
        &vec![(0, vec![Sense { text: "合并后".into(), ..Default::default() }])],
    );
    let s = Store::open(&files(&img, Some(&ov))).unwrap();
    assert_eq!(s.entry(0).unwrap().senses.len(), 1, "entry() 应当套上旁路表");
    assert_eq!(s.entry(0).unwrap().senses[0].text, "合并后");
    assert!(s.is_rewritten(0));
    assert_eq!(s.overlay_len(), 1);
    assert_eq!(s.entry_raw(0).unwrap().senses.len(), 3, "entry_raw() 必须绕过旁路表");
    assert_eq!(s.entry_raw(0).unwrap().senses[2].text, "甲-原始2");
    assert_eq!(s.entry(1).unwrap().senses.len(), 3);
    assert!(!s.is_rewritten(1));
}

#[test]
fn open_raw_never_loads_the_overlay() {
    let img = tiny_image();
    let ov = StoreWriter::write_overlay(
        2,
        &vec![(0, vec![Sense { text: "合并后".into(), ..Default::default() }])],
    );
    let s = Store::open(&files(&img, Some(&ov))).unwrap();
    assert_eq!(s.entry(0).unwrap().senses.len(), 1);

    let s = Store::open_raw(&files(&img, Some(&ov))).unwrap();
    assert_eq!(s.entry(0).unwrap().senses.len(), 3, "open_raw 不该加载旁路表");
    assert!(!s.is_rewritten(0));
    assert_eq!(s.overlay_len(), 0);
}

#[test]
fn a_truncated_overlay_is_ignored_rather_than_panicking() {
    let img = tiny_image();
    let ov = OverlayImage { bin: b"garbage".to_vec(), idx: vec![0u8; 8] };
    let s = Store::open(&files(&img, Some(&ov))).unwrap();
    assert_eq!(s.entry(0).unwrap().senses.len(), 3);
    assert!(!s.is_rewritten(0));
}

#[test]
fn an_overlay_that_does_not_decode_leaves_the_senses() {
    let img = tiny_image();
    let mut idx = 0u64.to_le_bytes().to_vec();
    idx.extend_from_slice(&7u64.to_le_bytes());
    let ov = OverlayImage { bin: b"garbage".to_vec(), idx };
    let s = Store::open(&files(&img, Some(&ov))).unwrap();
    assert!(s.is_rewritten(0));
    assert_eq!(s.overlay_len(), 1);
    assert_eq!(s.entry(0).unwrap().senses.len(), 3);
}

#[test]
fn every_field_of_an_entry_reads_back() {
    let e = Entry {
        kind: KIND_EN,
        word: "compile".into(),
        trad: "編".into(),
        reading: "/k/".into(),
        tones: vec![1, 0, 4],
        freq: single(8500.5),
        pct: single(0.75),
        pos: "v.".into(),
        forms: "过去式 compiled".into(),
        tags: "四级".into(),
        senses: vec![Sense { pos: "a".into(), text: "b".into(), note: "c".into(), reg: "d".into() }],
        examples: vec![Example { a: "x".into(), b: "y".into() }],
        raw: "raw\n".into(),
        xrefs: vec!["乙".into(), "丙".into()],
    };
    let mut w = StoreWriter::create();
    assert!(w.is_empty());
    assert_eq!(w.push(&e), Ok(0));
    assert_eq!(w.push(&Entry::default()), Ok(1));
    assert_eq!(w.len(), 2);
    let img = w.finish();
    let s = Store::open(&files(&img, None)).unwrap();
    assert_eq!(s.n, 2);
    assert_eq!(s.entry(0).unwrap(), e);
    assert_eq!(s.entry(1).unwrap(), Entry::default());
    assert_eq!(s.pct, vec![single(0.75), single(0.0)]);
    assert_eq!(s.kind, vec![KIND_EN, KIND_ZH]);
    assert!(!s.entry(0).unwrap().is_zh());
}

#[test]
fn the_bytes_of_the_files() {
    let mut w = StoreWriter::create();
    w.push(&Entry { word: "a".into(), pct: single(1.0), ..Default::default() }).unwrap();
    let img = w.finish();
    // kind, then each string and list with its length in eight bytes
    let n = 1 + (8 + 1) + 8 + 8 + 8 + 4 + 4 + 8 + 8 + 8 + 8 + 8 + 8 + 8;
    assert_eq!(img.entries.len(), n);
    assert_eq!(&img.entries[..10], &[0, 1, 0, 0, 0, 0, 0, 0, 0, b'a']);
    let mut idx = 0u64.to_le_bytes().to_vec();
    idx.extend_from_slice(&(n as u64).to_le_bytes());
    assert_eq!(img.idx, idx);
    let mut meta = b"ZDICT001".to_vec();
    meta.extend_from_slice(&1u32.to_le_bytes());
    meta.extend_from_slice(&1.0f32.to_le_bytes());
    meta.push(0);
    assert_eq!(img.meta, meta);
}

#[test]
fn a_tuple_of_the_fields_has_the_bytes_of_the_entry() {
    let e = Entry {
        word: "词".into(),
        tones: vec![2],
        freq: single(3.5),
        xrefs: vec!["乙".into()],
        ..Default::default()
    };
    let got = yinyidict::codec::encode_entry(&e);
    let want = bincode::serialize(&(
        (0u8, "词", "", "", vec![2u8], 3.5f32, 0.0f32),
        ("", "", "", Vec::<(String, String, String, String)>::new()),
        (Vec::<(String, String)>::new(), "", vec!["乙"]),
    ))
    .unwrap();
    assert_eq!(got, want);
    assert_eq!(yinyidict::codec::decode_entry(&want), Some(e));
    assert_eq!(yinyidict::codec::decode_entry(&want[..5]), None);
    assert_eq!(yinyidict::codec::decode_senses(&[9]), None);
}

#[test]
fn files_that_are_no_store_are_refused() {
    let img = tiny_image();
    let open = |meta: &[u8]| {
        Store::open(&StoreFiles { meta, ..files(&img, None) }).map(|s| s.n)
    };
    assert_eq!(open(&img.meta), Ok(2));
    assert_eq!(open(b"ZDICT00"), Err(StoreError::NotAStore));
    assert_eq!(open(&[0u8; 64]), Err(StoreError::NotAStore));
    let short = &img.meta[..img.meta.len() - 1];
    assert_eq!(open(short), Err(StoreError::Truncated { n: 2, len: 21 }));
}

#[test]
fn an_index_that_is_no_transducer_is_named() {
    let img = tiny_image();
    let mut f = files(&img, None);
    f.lanes[Lane::Py.idx()] = IndexFiles { fst: Some(b"junk"), post: Some(b"") };
    assert_eq!(
        Store::open(&f).map(|s| s.n),
        Err(StoreError::BadIndex { lane: Lane::Py, top: false })
    );
    let mut f = files(&img, None);
    f.tops[Lane::Zh.idx()] = IndexFiles { fst: Some(b"junk"), post: Some(b"") };
    assert_eq!(
        Store::open(&f).map(|s| s.n),
        Err(StoreError::BadIndex { lane: Lane::Zh, top: true })
    );
    // what is read of an image on opening: the version, the length and the address of the root
    let image = |version: u8, root: u8, len: usize| {
        let mut b = vec![0u8; len];
        b[0] = version;
        b[len - if version <= 2 { 8 } else { 12 }] = root;
        let mut f = files(&img, None);
        f.lanes[Lane::Py.idx()] = IndexFiles { fst: Some(&b), post: Some(b"") };
        Store::open(&f).is_ok()
    };
    assert!(image(3, 0, 36) && image(3, 9, 36) && image(3, 9, 50) && image(1, 9, 40));
    assert!(!image(3, 9, 35) && !image(3, 0, 37) && !image(2, 0, 36));
    assert!(!image(0, 9, 40) && !image(4, 9, 40));
    // half an index is no index
    let mut f = files(&img, None);
    f.lanes[Lane::Py.idx()] = IndexFiles { fst: Some(b"junk"), post: None };
    assert!(Store::open(&f).is_ok());
}

#[test]
fn ids_out_of_range_and_broken_records() {
    let img = tiny_image();
    let s = Store::open(&files(&img, None)).unwrap();
    assert_eq!(s.entry(2), Err(StoreError::OutOfRange { id: 2, n: 2 }));
    let zeros = vec![0xffu8; img.entries.len()];
    let s = Store::open(&StoreFiles { entries: &zeros, ..files(&img, None) }).unwrap();
    assert_eq!(s.entry_raw(1), Err(StoreError::BadRecord { id: 1 }));
    assert_eq!(s.entry(1), Err(StoreError::BadRecord { id: 1 }));
}

#[test]
fn keys_read_back_from_an_index() {
    let w = StoreWriter::create();
    let img = tiny_image();
    let x = w
        .write_lane(Lane::Enw, &keys(&[("", &[9]), ("ab", &[1, 2]), ("abc", &[]), ("b", &[7])]))
        .unwrap();
    assert_eq!(x.stem, "enw");
    assert_eq!(&x.post[..8], &[1, 0, 0, 0, 9, 0, 0, 0]);
    let mut f = files(&img, None);
    with_index(&mut f, Lane::Enw, &x);
    let s = Store::open(&f).unwrap();
    assert!(s.has_lane(Lane::Enw) && !s.has_lane(Lane::Zh));
    let ids = |k: &str| s.exact_key(Lane::Enw, k).map(ids_of);
    assert_eq!(ids("ab"), Some(vec![1, 2]));
    assert_eq!(ids("abc"), Some(vec![]));
    assert_eq!(ids(""), Some(vec![9]));
    assert_eq!(ids("a"), None);
    assert_eq!(s.exact_key(Lane::Zh, "ab"), None);
    let scan = |p: &str, budget: usize| {
        s.scan_prefix(Lane::Enw, p, budget)
            .into_iter()
            .map(|(k, raw)| (String::from_utf8(k).unwrap(), ids_of(raw)))
            .collect::<Vec<_>>()
    };
    assert_eq!(scan("a", 9), vec![("ab".to_string(), vec![1, 2]), ("abc".to_string(), vec![])]);
    assert_eq!(scan("a", 1).len(), 1);
    assert_eq!(scan("a", 0).len(), 0);
    assert_eq!(scan("zz", 0).len(), 0);
    assert_eq!(scan("", 9).len(), 4);
    // by ascending bytes
    let all: Vec<String> = scan("", 9).into_iter().map(|(k, _)| k).collect();
    assert!(all.windows(2).all(|w| w[0].as_bytes() < w[1].as_bytes()));
}

#[test]
fn files_cut_short_are_told_from_whole_ones() {
    let img = tiny_image();
    assert!(Store::open(&files(&img, None)).unwrap().records_fit());
    let short = StoreImage {
        meta: img.meta.clone(),
        idx: img.idx[..img.idx.len() - 1].to_vec(),
        entries: img.entries.clone(),
    };
    assert!(!Store::open(&files(&short, None)).unwrap().records_fit());
    let short = StoreImage {
        meta: img.meta.clone(),
        idx: img.idx.clone(),
        entries: img.entries[..img.entries.len() - 1].to_vec(),
    };
    assert!(!Store::open(&files(&short, None)).unwrap().records_fit());

    let post = [1, 0, 0, 0, 7, 0, 0, 0, 2, 0, 0, 0, 1, 0, 0, 0];
    assert!(posting_fits(&post, 0));
    assert!(!posting_fits(&post, 8));
    assert!(!posting_fits(&post, 13));
    assert!(!posting_fits(&post, u64::MAX));
    assert!(posting_fits(&[0; 4], 0));
    assert!(!posting_fits(&[], 0));
}

#[test]
fn keys_out_of_order_are_refused() {
    let w = StoreWriter::create();
    let bad = |v: &[(&str, &[u32])]| w.write_lane(Lane::Zh, &keys(v)).map(|x| x.stem);
    assert_eq!(bad(&[("b", &[]), ("a", &[])]), Err(StoreError::KeyOrder { at: 1 }));
    assert_eq!(bad(&[("a", &[]), ("b", &[]), ("b", &[])]), Err(StoreError::KeyOrder { at: 2 }));
    assert_eq!(bad(&[("a", &[]), ("", &[])]), Err(StoreError::KeyOrder { at: 1 }));
    // the order is that of bytes
    assert_eq!(bad(&[("Z", &[]), ("a", &[]), ("é", &[]), ("中", &[]), ("😀", &[])]), Ok("zh".to_string()));
    assert_eq!(w.write_top_lane(Lane::Zh, &keys(&[])).unwrap().stem, "zhtop");
}

#[test]
fn packing_keeps_id_and_length() {
    assert_eq!(pack_top(3, 7), 0x0300_0007);
    assert_eq!(unpack_top(0x0300_0007), (3, 7));
    assert_eq!(unpack_top(pack_top(1000, 0xFF_FFFF)), (255, 0xFF_FFFF));
    assert_eq!(unpack_top(pack_top(0, 0)), (0, 0));
    assert_eq!(ids_of(&[1, 0, 0, 0, 0xff, 0xff, 0xff, 0xff, 9]), vec![1, u32::MAX]);
}

#[test]
fn overlay_items_out_of_order_are_passed_over() {
    let one = |t: &str| vec![Sense { text: t.into(), ..Default::default() }];
    let img = tiny_image();
    let ov = StoreWriter::write_overlay(2, &vec![(1, one("b")), (0, one("a"))]);
    let s = Store::open(&files(&img, Some(&ov))).unwrap();
    assert!(!s.is_rewritten(0) && s.is_rewritten(1));
    let ov = StoreWriter::write_overlay(2, &vec![(0, one("a")), (1, one("b"))]);
    let s = Store::open(&files(&img, Some(&ov))).unwrap();
    assert_eq!(s.overlay_len(), 2);
    assert_eq!(s.entry(1).unwrap().senses[0].text, "b");
    assert_eq!(StoreWriter::write_overlay(0, &Vec::new()).idx, vec![0u8; 8]);
}

#[test]
fn the_most_common_of_one_spelling_is_looked_up() {
    let mut w = StoreWriter::create();
    for p in [0.2f32, 0.9, 0.9, 0.1] {
        w.push(&Entry { pct: single(p), ..Default::default() }).unwrap();
    }
    let zh = w.write_lane(Lane::Zh, &keys(&[("行", &[0, 1, 2])])).unwrap();
    let en = w.write_lane(Lane::Enw, &keys(&[("bank", &[3]), ("行", &[3])])).unwrap();
    let img = w.finish();
    let mut f = files(&img, None);
    with_index(&mut f, Lane::Zh, &zh);
    with_index(&mut f, Lane::Enw, &en);
    let s = Store::open(&f).unwrap();
    assert_eq!(s.lookup_word("行"), Some(2));
    assert_eq!(s.lookup_word(" BANK "), Some(3));
    assert_eq!(s.lookup_word("none"), None);
}

#[test]
fn gathering_runs_the_lanes_of_the_query() {
    let mut w = StoreWriter::create();
    for _ in 0..6 {
        w.push(&Entry::default()).unwrap();
    }
    let zh = w.write_lane(Lane::Zh, &keys(&[("中", &[0]), ("中国", &[1])])).unwrap();
    let sub = w.write_lane(Lane::ZhSub, &keys(&[("man", &[2]), ("中", &[2])])).unwrap();
    let enw = w.write_lane(Lane::Enw, &keys(&[("man", &[3]), ("mango", &[4])])).unwrap();
    let ini = w.write_lane(Lane::Ini, &keys(&[("man", &[5]), ("mango", &[5])])).unwrap();
    let gloss = w.write_lane(Lane::Gloss, &keys(&[("man", &[1])])).unwrap();
    let trans = w.write_lane(Lane::Trans, &keys(&[("man", &[0])])).unwrap();
    let img = w.finish();
    let mut f = files(&img, None);
    with_index(&mut f, Lane::Zh, &zh);
    with_index(&mut f, Lane::ZhSub, &sub);
    with_index(&mut f, Lane::Enw, &enw);
    with_index(&mut f, Lane::Ini, &ini);
    with_index(&mut f, Lane::Gloss, &gloss);
    with_index(&mut f, Lane::Trans, &trans);
    let s = Store::open(&f).unwrap();

    let c = |id, lane, key_len| Candidate { id, lane, key_len };
    let g = s.gather(" 中 ", 100);
    assert_eq!(g.q_len, 1);
    assert_eq!(g.candidates, vec![c(0, Lane::Zh, 1), c(1, Lane::Zh, 2), c(2, Lane::ZhSub, 1)]);
    assert_eq!((g.truncated, g.scanned), (false, 3));

    let g = s.gather("MAN", 100);
    assert_eq!(
        g.candidates,
        vec![
            c(2, Lane::ZhSub, 3),
            c(3, Lane::Enw, 3),
            c(4, Lane::Enw, 5),
            c(5, Lane::Ini, 3),
            c(5, Lane::Ini, 5),
            c(1, Lane::Gloss, 3),
            c(0, Lane::Trans, 3),
        ]
    );
    // too long for initials, too short for glosses
    assert_eq!(s.gather("mango", 100).candidates, vec![c(4, Lane::Enw, 5)]);
    assert!(s.gather("ma", 100).candidates.iter().all(|x| x.lane != Lane::Gloss));

    // a tight budget cuts the scan short but never loses what was typed
    let g = s.gather("mango", 1);
    assert!(g.truncated);
    assert_eq!(g.candidates, vec![c(4, Lane::Enw, 5), c(4, Lane::Enw, 5)]);
    // no budget at all: only what was typed
    let g = s.gather("mango", 0);
    assert_eq!((g.candidates, g.truncated, g.scanned), (vec![c(4, Lane::Enw, 5)], true, 0));
    assert!(s.gather("  ", 100).candidates.is_empty());
    assert_eq!(MAX_TOP_PREFIX, 2);
}

#[test]
fn latin_letters_are_found_inside_chinese_headwords() {
    let mut w = StoreWriter::create();
    for _ in 0..2 {
        w.push(&Entry::default()).unwrap();
    }
    let zh = w.write_lane(Lane::Zh, &keys(&[("卡拉ok", &[0])])).unwrap();
    let sub = w.write_lane(Lane::ZhSub, &keys(&[("ok", &[0]), ("拉ok", &[0])])).unwrap();
    let trans = w.write_lane(Lane::Trans, &keys(&[("ok", &[1])])).unwrap();
    let img = w.finish();
    let mut f = files(&img, None);
    with_index(&mut f, Lane::Zh, &zh);
    with_index(&mut f, Lane::ZhSub, &sub);
    with_index(&mut f, Lane::Trans, &trans);
    let s = Store::open(&f).unwrap();
    let c = |id, lane, key_len| Candidate { id, lane, key_len };
    assert_eq!(s.gather("OK", 9).candidates, vec![c(0, Lane::ZhSub, 2), c(1, Lane::Trans, 2)]);
    assert_eq!(s.gather("拉O", 9).candidates, vec![c(0, Lane::ZhSub, 3)]);
}

#[test]
fn short_queries_use_their_table() {
    let mut w = StoreWriter::create();
    w.push(&Entry::default()).unwrap();
    let enw = w.write_lane(Lane::Enw, &keys(&[("a", &[0]), ("abc", &[0])])).unwrap();
    let packed = [pack_top(3, 5), pack_top(1, 0)];
    let top = w.write_top_lane(Lane::Enw, &keys(&[("a", &packed)])).unwrap();
    let img = w.finish();
    let mut f = files(&img, None);
    with_index(&mut f, Lane::Enw, &enw);
    with_top(&mut f, Lane::Enw, &top);
    let s = Store::open(&f).unwrap();
    let g = s.gather("a", 100);
    assert_eq!(
        g.candidates,
        vec![
            Candidate { id: 5, lane: Lane::Enw, key_len: 3 },
            Candidate { id: 0, lane: Lane::Enw, key_len: 1 },
        ]
    );
    assert_eq!(g.scanned, 0);
    // no table for this one, so the keys are walked
    assert_eq!(s.gather("ab", 100).scanned, 1);
    assert_eq!(s.top_postings(Lane::Enw, "a").map(ids_of), Some(packed.to_vec()));
    assert_eq!(s.top_postings(Lane::Enw, "b"), None);
}

#[test]
fn ranking_merges_orders_and_caps() {
    let c = |id, lane| Candidate { id, lane, key_len: 1 };
    let cands = vec![
        c(5, Lane::Enw),
        c(3, Lane::Gloss),
        c(5, Lane::Py),
        c(1, Lane::Gloss),
        c(2, Lane::Zh),
        c(4, Lane::Trans),
        c(5, Lane::Ini),
    ];
    let scores: Vec<Single> =
        [1.0f32, 7.0, 3.0, 7.0, -0.0, 2.0, 3.0].iter().map(|x| single(*x)).collect();
    let got: Vec<(u32, Lane)> =
        rank(&cands, &scores, 8, 2).iter().map(|h| (h.id, h.lane)).collect();
    // ids by rising number among equals, the best lane of each, two of the second class
    assert_eq!(
        got,
        vec![(1, Lane::Gloss), (3, Lane::Gloss), (5, Lane::Py), (2, Lane::Zh)]
    );
    assert_eq!(rank(&cands, &scores, 1, 2).len(), 1);
    assert!(rank(&cands, &scores, 0, 2).is_empty());
    let none = rank(&cands, &scores, 8, 0);
    assert_eq!(none.iter().map(|h| h.id).collect::<Vec<_>>(), vec![5, 2]);
    assert!(rank(&Vec::new(), &Vec::new(), 8, 3).is_empty());
}

#[test]
fn what_a_score_is_made_of() {
    let t = Params::terms(Lane::Zh, 2, 2);
    assert_eq!((f32::from_bits(t.weight.bits), t.bonus, t.over), (1.0, Bonus::Full, 0));
    let t = Params::terms(Lane::ZhSub, 2, 2);
    assert_eq!((f32::from_bits(t.weight.bits), t.bonus, t.over), (0.85, Bonus::Nothing, 0));
    let t = Params::terms(Lane::Gloss, 3, 3);
    assert_eq!((f32::from_bits(t.weight.bits), t.bonus, t.over), (0.5, Bonus::Secondary, 0));
    let t = Params::terms(Lane::Ini, 7, 3);
    assert_eq!((f32::from_bits(t.weight.bits), t.bonus, t.over), (0.7, Bonus::Nothing, 4));
    assert_eq!(Params::terms(Lane::Py, 1, 3).over, 0);
    assert_eq!(f32::from_bits(Lane::Py.weight().bits), 0.95);
    let p = Params::default();
    let f = |s: Single| f32::from_bits(s.bits);
    assert_eq!((f(p.scale), f(p.exact_bonus), f(p.lambda), f(p.secondary)), (8.0, 6.0, 0.35, 0.5));
    assert_eq!((p.limit, p.max_secondary, p.budget), (8, 3, 250_000));
}

fn hit(id: u32, score: f32) -> Hit {
    Hit { id, lane: Lane::Zh, score: single(score) }
}

#[test]
fn stabilize_keeps_previous_order() {
    let prev = vec![hit(10, 5.0), hit(20, 4.0), hit(30, 3.0)];
    let fresh = vec![hit(30, 9.0), hit(10, 5.0), hit(40, 1.0)];
    let out = stabilize(&prev, fresh);
    assert_eq!(out.iter().map(|h| h.id).collect::<Vec<_>>(), vec![10, 30, 40]);
    assert_eq!(f32::from_bits(out[1].score.bits), 9.0);
}

#[test]
fn stabilize_shows_the_entries_of_the_new_hits() {
    assert!(stabilize(&[hit(1, 1.0)], vec![]).is_empty());
    let out = stabilize(&[], vec![hit(2, 1.0), hit(1, 2.0)]);
    assert_eq!(out.iter().map(|h| h.id).collect::<Vec<_>>(), vec![2, 1]);
}

#[test]
fn cjk_detection() {
    assert!(is_cjk('中'));
    assert!(is_cjk('龙'));
    assert!(!is_cjk('a'));
    assert!(!is_cjk('ā'));
}

#[test]
fn cjk_blocks_end_where_they_should() {
    for (c, want) in [
        (0x33FF, false),
        (0x3400, true),
        (0x4DBF, true),
        (0x4DC0, false),
        (0x9FFF, true),
        (0xA000, false),
        (0xF900, true),
        (0xFB00, false),
        (0x20000, true),
        (0x2FA1F, true),
        (0x2FA20, false),
    ] {
        assert_eq!(is_cjk(char::from_u32(c).unwrap()), want, "{c:x}");
    }
}

#[test]
fn lanes_know_their_number_and_name() {
    for (i, l) in LANES.iter().enumerate() {
        assert_eq!(l.idx(), i);
    }
    let stems: Vec<&str> = LANES.iter().map(|l| l.file_stem()).collect();
    assert_eq!(stems, vec!["zh", "zhsub", "enw", "py", "ini", "gloss", "trans"]);
    let labels: Vec<&str> = LANES.iter().map(|l| l.label()).collect();
    assert_eq!(labels, vec!["汉字", "汉字中", "英文", "全拼", "简拼", "释义→中", "释义→英"]);
    assert!(Lane::Trans.is_secondary() && Lane::Gloss.is_secondary() && !Lane::Py.is_secondary());
    assert!(!Lane::ZhSub.allows_exact_bonus() && Lane::Gloss.allows_exact_bonus());
}
