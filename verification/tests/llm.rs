use yinyidict::fasthash::IdMap;
use yinyidict::llm::{
    batches, build_task, done_ids, export, import, json_u32, judge, out_json,
    parse_outs, payload, remaining, sent_in_batch, split_objects, strip_fence, Out, OutSense, Task, Verdict,
};
use yinyidict::model::{Entry, Example, Sense};
use yinyidict::single::Single;
use yinyidict::store::{IndexFiles, Store, StoreFiles};
use yinyidict::writer::{StoreImage, StoreWriter};

/// Each entry with as many senses as it was sent with.
fn sent(counts: &[(u32, usize)]) -> IdMap<usize> {
    counts.iter().copied().collect()
}

fn strings(v: &[&str]) -> Vec<String> {
    v.iter().map(|s| s.to_string()).collect()
}

fn sense(from: &[usize], text: &str) -> OutSense {
    OutSense { from: from.to_vec(), text: text.into(), reg: String::new(), col: String::new() }
}

fn store_of(img: &StoreImage) -> Store<'_> {
    let none = || (0..7).map(|_| IndexFiles { fst: None, post: None }).collect::<Vec<_>>();
    Store::open_raw(&StoreFiles {
        meta: &img.meta,
        entries: &img.entries,
        idx: &img.idx,
        lanes: none(),
        tops: none(),
        overlay_bin: None,
        overlay_idx: None,
    })
    .unwrap()
}

fn entry(word: &str, kind: u8, pct: f32, senses: usize) -> Entry {
    Entry {
        kind,
        word: word.into(),
        pos: "动".into(),
        pct: Single { bits: pct.to_bits() },
        senses: (0..senses)
            .map(|i| Sense { text: format!("{word}{i}"), ..Default::default() })
            .collect(),
        ..Default::default()
    }
}

fn image(entries: &[Entry]) -> StoreImage {
    let mut w = StoreWriter::create();
    for e in entries {
        w.push(e).unwrap();
    }
    w.finish()
}

#[test]
fn extracts_objects_ignoring_braces_inside_strings() {
    let s = r#"[{"id":1,"t":"a{b}c"},{"id":2}]"#;
    let v = split_objects(s);
    assert_eq!(v.len(), 2);
    assert!(v[0].contains("a{b}c"));
}

#[test]
fn strips_markdown_fences() {
    assert_eq!(strip_fence("```json\n[{\"id\":1}]\n```"), "[{\"id\":1}]");
    assert_eq!(strip_fence("[{\"id\":1}]"), "[{\"id\":1}]");
}

#[test]
fn rejects_ids_not_in_the_batch() {
    let ids = sent(&[(1u32, 1), (2, 1)]);
    let reply = r#"[{"id":1,"senses":[{"from":[0],"text":"ok","reg":"","col":""}]},
                        {"id":99,"senses":[{"from":[0],"text":"bad","reg":"","col":""}]}]"#;
    let outs = parse_outs(reply, &ids);
    assert_eq!(outs.len(), 1);
    assert_eq!(outs[0].id, 1);
}

#[test]
fn drops_senses_without_text() {
    let ids = sent(&[(7u32, 1)]);
    let reply = r#"[{"id":7,"senses":[{"from":[0],"text":"","reg":"","col":""}]}]"#;
    assert!(parse_outs(reply, &ids).is_empty(), "空 text 的义项应被丢掉");
}

#[test]
fn drops_senses_that_name_what_was_not_sent() {
    let reply = r#"[{"id":7,"senses":[{"from":[9],"text":"x","reg":"","col":""}]},
        {"id":8,"senses":[{"from":[0,2],"text":"a","reg":"","col":""},
                          {"from":[1],"text":"b","reg":"","col":""},
                          {"from":[],"text":"c","reg":"","col":""}]}]"#;
    let outs = parse_outs(reply, &sent(&[(7, 1), (8, 2)]));
    // the reply for 7 is left without a sense
    assert_eq!(outs.len(), 1);
    assert_eq!(outs[0].id, 8);
    let kept: Vec<&str> = outs[0].senses.iter().map(|s| s.text.as_str()).collect();
    assert_eq!(kept, vec!["b", "c"]);
    assert_eq!(parse_outs(reply, &sent(&[(7, 10), (8, 3)])).len(), 2);
    assert!(parse_outs(reply, &sent(&[])).is_empty());
}

#[test]
fn a_batch_tells_how_many_senses_it_sends() {
    let line = |id: u32, src: &[&str]| {
        let t = Task {
            id,
            word: "词\"src\":[\"x\"".into(),
            pos: "]\\".into(),
            src: strings(src),
            ex: strings(&["e", "f"]),
        };
        (id, t.to_json())
    };
    let b = vec![line(1, &[]), line(2, &["a"]), line(3, &["a\"],[\"", "b\\", "]\nc"]), (4, "junk".to_string())];
    assert_eq!(sent_in_batch(&b), sent(&[(1, 0), (2, 1), (3, 3), (4, 0)]));
}

#[test]
fn parses_a_realistic_reply() {
    let ids = sent(&[(42u32, 4)]);
    let reply = r#"```json
[{"id":42,"senses":[
  {"from":[0,3],"text":"to compile (source code)","reg":"computing","col":"编译器 / 编译错误"},
  {"from":[1],"text":"to compile; to edit","reg":"","col":""}]}]
```"#;
    let outs = parse_outs(reply, &ids);
    assert_eq!(outs.len(), 1);
    assert_eq!(outs[0].senses.len(), 2);
    assert_eq!(outs[0].senses[0].from, vec![0, 3]);
    assert_eq!(outs[0].senses[0].reg, "computing");
    assert!(outs[0].senses[0].col.contains('/'));
}

#[test]
fn round_trips_through_our_own_json() {
    let o = Out {
        id: 5,
        senses: vec![OutSense {
            from: vec![1, 2],
            text: "a \"quoted\" thing".into(),
            reg: "coll.".into(),
            col: String::new(),
        }],
    };
    let ids = sent(&[(5u32, 3)]);
    let back = parse_outs(&format!("[{}]", out_json(&o)), &ids);
    assert_eq!(back.len(), 1);
    assert_eq!(back[0].senses[0].text, "a \"quoted\" thing");
    assert_eq!(back[0].senses[0].from, vec![1, 2]);
}

#[test]
fn task_json_escapes_and_is_parseable() {
    let t = Task {
        id: 9,
        word: "编译".into(),
        pos: "动".into(),
        src: vec!["to compile \"x\"".into(), "line\nbreak".into()],
        ex: vec![],
    };
    let j = t.to_json();
    assert_eq!(json_u32(&j, "id"), Some(9));
    assert!(!j.contains('\n'), "换行必须转义掉，否则 JSONL 一行会断成两行");
}

#[test]
fn the_exact_lines_that_are_written() {
    let t = Task {
        id: 4294967295,
        word: "a\\b".into(),
        pos: "p\tq".into(),
        src: strings(&["x\r\u{1}y", "\"z\""]),
        ex: strings(&["例\n句"]),
    };
    assert_eq!(
        t.to_json(),
        r#"{"id":4294967295,"w":"a\\b","pos":"p q","src":["xy","\"z\""],"ex":["例\n句"]}"#
    );
    let o = Out { id: 0, senses: vec![sense(&[10, 0], "t"), sense(&[], "u")] };
    assert_eq!(
        out_json(&o),
        r#"{"id":0,"senses":[{"from":[10,0],"text":"t","reg":"","col":""},{"from":[],"text":"u","reg":"","col":""}]}"#
    );
}

#[test]
fn hostile_texts_survive_the_round_trip() {
    let texts = ["\"reg\":\"x\"", "}{][,:", "back\\slash \\\" end\\", "senses\":[", "\"text\":", "行\n行"];
    for t in texts {
        let o = Out {
            id: 7,
            senses: vec![
                OutSense { from: vec![0], text: t.into(), reg: t.into(), col: t.into() },
                OutSense { from: vec![3, 1], text: format!("x{t}"), reg: String::new(), col: "c".into() },
            ],
        };
        let back = parse_outs(&format!("[{}]", out_json(&o)), &sent(&[(7, 4)]));
        assert_eq!(back.len(), 1, "{t}");
        assert_eq!(back[0].senses.len(), 2, "{t}");
        assert_eq!(back[0].senses[0].text, t);
        assert_eq!(back[0].senses[0].reg, t);
        assert_eq!(back[0].senses[0].col, t);
        assert_eq!(back[0].senses[1].from, vec![3, 1]);
        assert_eq!(back[0].senses[1].text, format!("x{t}"));
    }
}

#[test]
fn number_fields() {
    assert_eq!(json_u32("{\"id\": 12,", "id"), Some(12));
    assert_eq!(json_u32("{\"id\":007}", "id"), Some(7));
    assert_eq!(json_u32("{\"id\":-1}", "id"), None);
    assert_eq!(json_u32("{\"id\":4294967296}", "id"), None);
    assert_eq!(json_u32("{\"id\":\"3\"}", "id"), None);
    assert_eq!(json_u32("{\"ids\":3}", "id"), None);
    assert_eq!(json_u32("\"id\":5 \"id\":6", "id"), Some(5));
}

#[test]
fn fences_of_other_kinds() {
    assert_eq!(strip_fence(" ```\nx\n``` "), "x");
    assert_eq!(strip_fence("```json   x"), "x");
    assert_eq!(strip_fence("x```"), "x");
    assert_eq!(strip_fence("``````"), "");
    assert_eq!(strip_fence("   "), "");
}

#[test]
fn a_stray_brace_hides_what_follows() {
    assert!(split_objects("} {\"a\":1}").is_empty());
    assert_eq!(split_objects("{{}} {").len(), 1);
    assert_eq!(split_objects("\"{\" {\"}\"}"), vec!["{\"}\"}"]);
}

#[test]
fn tasks_carry_registers_and_two_examples() {
    let mut e = entry("编译", 0, 0.9, 2);
    e.senses[1].reg = "comp.".into();
    e.examples = (0..3).map(|i| Example { a: format!("中{i}"), b: format!("en{i}") }).collect();
    let t = build_task(3, &e);
    assert_eq!(t.id, 3);
    assert_eq!(t.src, vec!["编译0", "(comp.) 编译1"]);
    assert_eq!(t.ex, vec!["中0", "中1"]);
    assert_eq!((t.word.as_str(), t.pos.as_str()), ("编译", "动"));
}

#[test]
fn export_takes_the_common_and_rich_first() {
    let img = image(&[
        entry("低", 0, 0.54, 5),
        entry("中", 0, 0.60, 3),
        entry("英", 1, 0.99, 5),
        entry("高", 0, 0.90, 3),
        entry("少", 0, 0.95, 2),
        entry("平", 0, 0.60, 4),
    ]);
    let s = store_of(&img);
    let ids = |limit| {
        export(&s, limit).unwrap().iter().map(|l| json_u32(l, "id").unwrap()).collect::<Vec<_>>()
    };
    assert_eq!(ids(usize::MAX), vec![3, 1, 5]);
    assert_eq!(ids(2), vec![3, 1]);
    assert_eq!(ids(0), vec![3]);
}

#[test]
fn an_entry_on_the_threshold_is_sent() {
    let img = image(&[entry("界", 0, 0.55, 3), entry("非", 0, f32::NAN, 3)]);
    assert_eq!(export(&store_of(&img), 9).unwrap().len(), 1);
}

#[test]
fn verdicts() {
    assert_eq!(judge(3, &vec![]), Verdict::Missing);
    assert_eq!(judge(1, &vec![sense(&[0], "a"), sense(&[0], "b")]), Verdict::TooMany);
    assert_eq!(judge(2, &vec![sense(&[], "a"), sense(&[0, 1], "b")]), Verdict::BadFrom);
    assert_eq!(judge(2, &vec![sense(&[0, 2], "a")]), Verdict::BadFrom);
    assert_eq!(judge(3, &vec![sense(&[0, 2], "a")]), Verdict::Uncovered);
    assert_eq!(judge(3, &vec![sense(&[2], "a"), sense(&[1, 0], "b")]), Verdict::Kept);
}

#[test]
fn import_keeps_the_first_sound_result_of_each_id() {
    let img = image(&[entry("甲", 0, 0.9, 2), entry("乙", 0, 0.9, 1)]);
    let s = store_of(&img);
    let line = |o: &Out| out_json(o);
    let lines = vec![
        line(&Out { id: 1, senses: vec![sense(&[0], "乙合")] }),
        String::from("  "),
        String::from("no id"),
        line(&Out { id: 0, senses: vec![sense(&[0], "漏")] }),
        line(&Out { id: 0, senses: vec![sense(&[5], "越")] }),
        line(&Out { id: 0, senses: vec![sense(&[0], "a"), sense(&[1], "b"), sense(&[1], "c")] }),
        line(&Out { id: 0, senses: vec![] }),
        line(&Out { id: 7, senses: vec![sense(&[0], "无")] }),
        line(&Out {
            id: 0,
            senses: vec![OutSense {
                from: vec![1, 0],
                text: "甲合".into(),
                reg: "书".into(),
                col: " 搭 ".into(),
            }],
        }),
        line(&Out { id: 0, senses: vec![sense(&[0, 1], "迟")] }),
    ];
    let r = import(&s, &lines);
    assert_eq!((r.total, r.missing, r.too_many, r.bad_from, r.uncovered), (8, 2, 1, 1, 1));
    let got: Vec<(u32, &str)> = r.kept.iter().map(|(id, s)| (*id, s[0].text.as_str())).collect();
    assert_eq!(got, vec![(0, "甲合"), (1, "乙合")]);
    let k = &r.kept[0].1[0];
    assert_eq!((k.pos.as_str(), k.reg.as_str(), k.note.as_str()), ("动", "书", "搭配 搭"));
    assert_eq!(r.kept[1].1[0].note, "");
}

#[test]
fn a_run_goes_on_where_it_stopped() {
    let work = strings(&["{\"id\":1}", " ", "{\"id\":2}", "junk", "{\"id\":3}"]);
    let done = done_ids(&strings(&["{\"id\":2,\"senses\":[]}", "junk"]));
    assert_eq!(done.len(), 1);
    let todo = remaining(&work, &done);
    assert_eq!(todo, vec![(1, "{\"id\":1}".to_string()), (3, "{\"id\":3}".to_string())]);
}

#[test]
fn batches_are_full_but_for_the_last() {
    let todo: Vec<(u32, String)> = (0..7u32).map(|i| (i, format!("l{i}"))).collect();
    let b = batches(&todo, 3);
    assert_eq!(b.iter().map(|x| x.len()).collect::<Vec<_>>(), vec![3, 3, 1]);
    assert_eq!(payload(&b[1]), "l3\nl4\nl5");
    assert_eq!(sent_in_batch(&b[2]), sent(&[(6, 0)]));
    assert!(batches(&Vec::new(), 4).is_empty());
    assert_eq!(batches(&todo, 100).len(), 1);
    assert_eq!(payload(&Vec::new()), "");
}

#[test]
fn rewriting_starts_from_the_source() {
    let img = image(&[entry("甲", 0, 0.9, 3)]);
    let ov = StoreWriter::write_overlay(
        1,
        &vec![(0, vec![Sense { text: "旧".into(), ..Default::default() }])],
    );
    let none = || (0..7).map(|_| IndexFiles { fst: None, post: None }).collect::<Vec<_>>();
    let s = Store::open(&StoreFiles {
        meta: &img.meta,
        entries: &img.entries,
        idx: &img.idx,
        lanes: none(),
        tops: none(),
        overlay_bin: Some(&ov.bin),
        overlay_idx: Some(&ov.idx),
    })
    .unwrap();
    assert_eq!(s.entry(0).unwrap().senses.len(), 1);
    assert_eq!(export(&s, 9).unwrap(), export(&store_of(&img), 9).unwrap());
    let line = out_json(&Out { id: 0, senses: vec![sense(&[0, 1, 2], "新")] });
    assert_eq!(import(&s, &vec![line]).kept.len(), 1);
}
