use yinyidict::engine::{
    engine_threads, is_cuda, path_with, pick_backend, pick_model, preload_order, retry_on_cpu,
    to_wav, usable_rate, Backend,
};
use yinyidict::voice::{
    carrier, file_list, model_file, model_plan, prefetched, speak, triage, utterance, Ask, FileName, ModelFault, SampleCache, Speak,
    Status, Wanted, CACHE_CAP,
};

fn strings(v: &[&str]) -> Vec<String> {
    v.iter().map(|s| s.to_string()).collect()
}

#[test]
fn the_carrier_follows_the_word_not_the_ui() {
    assert_eq!(carrier("将就"), "这个词是，将就");
    assert_eq!(carrier("compile"), "The word is, compile");
    assert_eq!(carrier("C 语言"), "这个词是，C 语言");
}

#[test]
fn the_carrier_keeps_the_pause() {
    assert!(carrier("银行").contains('，'));
    assert!(carrier("bank").contains(','));
}

#[test]
fn recognises_cuda_paths() {
    assert!(is_cuda("vendor/sherpa-onnx-v1-cuda-13.x/lib"));
    assert!(!is_cuda("vendor/sherpa-onnx-v1-win-x64-shared/lib"));
}

#[test]
fn wav_header_is_well_formed() {
    let pcm: Vec<i16> =
        [0.0f32, 1.0, -1.0].iter().map(|s| (s.clamp(-1.0, 1.0) * i16::MAX as f32) as i16).collect();
    let w = to_wav(&pcm, 24000);
    assert_eq!(&w[0..4], b"RIFF");
    assert_eq!(&w[8..12], b"WAVE");
    assert_eq!(&w[36..40], b"data");
    assert_eq!(w.len(), 44 + 6);
    assert_eq!(u32::from_le_bytes(w[24..28].try_into().unwrap()), 24000);
    assert_eq!(i16::from_le_bytes(w[46..48].try_into().unwrap()), i16::MAX);
    assert_eq!(i16::from_le_bytes(w[48..50].try_into().unwrap()), -i16::MAX);
}

#[test]
fn the_other_fields_of_a_sound_file() {
    let w = to_wav(&[1, -2], 8000);
    let at = |i: usize| u32::from_le_bytes(w[i..i + 4].try_into().unwrap());
    assert_eq!((at(4), at(16), at(28), at(40)), (40, 16, 16000, 4));
    assert_eq!(&w[20..24], &[1, 0, 1, 0]);
    assert_eq!(&w[32..36], &[2, 0, 16, 0]);
    assert_eq!(&w[44..], &[1, 0, 0xFE, 0xFF]);
    assert_eq!(usable_rate(0), 1);
    assert_eq!(usable_rate(-5), 1);
    assert_eq!(usable_rate(24000), 24000);
}

#[test]
fn engines_are_chosen_by_what_is_there() {
    let both = strings(&["a-cpu/lib", "b-CUDA/lib"]);
    let pick = |asked: Option<&str>, dirs: bool| pick_backend(&both, asked, dirs);
    assert_eq!(pick(None, true), Some(Backend { lib: 1, cuda: true }));
    assert_eq!(pick(None, false), Some(Backend { lib: 0, cuda: false }));
    assert_eq!(pick(Some("cuda"), false), Some(Backend { lib: 1, cuda: true }));
    assert_eq!(pick(Some("cpu"), true), Some(Backend { lib: 0, cuda: false }));
    assert_eq!(pick(Some("other"), true), Some(Backend { lib: 1, cuda: true }));
    let card = strings(&["x-cuda/lib"]);
    assert_eq!(pick_backend(&card, Some("cpu"), true), Some(Backend { lib: 0, cuda: false }));
    assert_eq!(pick_backend(&Vec::new(), None, true), None);
}

#[test]
fn voices_and_threads() {
    assert_eq!(pick_model(&strings(&["a", "kokoro-x", "kokoro-y"])), Some(1));
    assert_eq!(pick_model(&strings(&["a", "b"])), Some(0));
    assert_eq!(pick_model(&Vec::new()), None);
    assert_eq!(
        [Some(1), Some(4), Some(10), Some(64), None].map(engine_threads),
        [2, 2, 5, 8, 4]
    );
    assert!(retry_on_cpu("cuda") && !retry_on_cpu("cpu"));
    assert_eq!(path_with(&strings(&["a", "b"]), "p"), "b;a;p");
    assert_eq!(path_with(&Vec::new(), "p"), "p");
}

#[test]
fn libraries_load_in_the_order_they_need_each_other() {
    let names = strings(&["cublas64_13.dll", "cudart64_13.DLL", "notes.txt", "cublasLt64_13.dll"]);
    let order: Vec<&str> = preload_order(&names).into_iter().map(|i| names[i].as_str()).collect();
    assert_eq!(order[0], "cudart64_13.DLL");
    assert!(!order.contains(&"notes.txt"));
}

#[test]
fn what_is_said() {
    let ready = Status::Ready { sample_rate: 24000, model: "m".into() };
    let says = |text: &str, wrap: bool| match speak(Some(&ready), text, wrap) {
        Speak::Say(t) => t,
        Speak::Note(n) => panic!("{n}"),
    };
    assert_eq!(says("bank", true), "The word is, bank");
    assert_eq!(says("bank", false), "bank");
    assert_eq!(says("将就", true), "这个词是，将就");
    // a sentence, and what is longer than a word
    assert_eq!(says("I see.", true), "I see.");
    assert_eq!(says("compilers", true), "compilers");
    assert_eq!(utterance("银行", false), "银行");
    // what is made in advance is what a click then says
    for wrap in [true, false] {
        assert_eq!(prefetched("bank", wrap), says("bank", wrap));
    }
    assert!(matches!(speak(None, "x", true), Speak::Note(t) if t == "发音不可用"));
    assert!(matches!(speak(Some(&Status::Loading), "x", true), Speak::Note(t) if t == "语音模型还在加载"));
    let failed = Status::Failed("坏".into());
    assert!(matches!(speak(Some(&failed), "x", true), Speak::Note(t) if t == "语音模型加载失败: 坏"));
}

#[test]
fn piled_up_requests_are_sorted() {
    let t = triage(&vec![Ask::Play, Ask::Bench, Ask::Warm, Ask::Play, Ask::Bench]);
    assert_eq!((t.stop, t.play), (false, Some(3)));
    assert_eq!(t.benches, vec![1, 4]);
    assert!(t.warm.is_empty());
    let t = triage(&vec![Ask::Play, Ask::Stop, Ask::Warm, Ask::Warm]);
    assert_eq!((t.stop, t.play), (true, None));
    assert_eq!(t.warm, vec![2, 3]);
}

#[test]
fn the_cache_forgets_the_oldest() {
    let mut c: SampleCache<u32> = SampleCache::new();
    for i in 0..CACHE_CAP as u32 + 1 {
        c.put(&format!("t{i}"), i);
    }
    assert_eq!(c.get("t0"), None);
    assert_eq!(c.get("t1"), Some(&1));
    assert_eq!(c.get(&format!("t{CACHE_CAP}")), Some(&(CACHE_CAP as u32)));
    assert_eq!(c.get("never"), None);
}

#[test]
fn files_of_a_model() {
    let n = |v: &[&str]| {
        v.iter().map(|s| FileName { name: s.to_string(), path: format!("m/{s}") }).collect::<Vec<_>>()
    };
    let files = n(&["b.fst", "a.fst", "lexicon-zh.txt", "lexicon-us-en.txt", "tokens.txt"]);
    assert_eq!(file_list(Wanted::Rules, &files), "m/a.fst,m/b.fst");
    assert!(!file_list(Wanted::Lexicons, &files).contains("tokens"));
    assert_eq!(model_file(&strings(&["model.onnx", "x.onnx"])), Some(0));
}

#[test]
fn a_model_is_put_together_from_its_files() {
    let n = |v: &[&str]| {
        v.iter().map(|s| FileName { name: s.to_string(), path: format!("m/{s}") }).collect::<Vec<_>>()
    };
    let p = model_plan(&n(&["b.onnx", "a.onnx", "tokens.txt", "dict", "z.fst"])).ok().unwrap();
    assert_eq!((p.model.as_str(), p.tokens.as_str()), ("m/a.onnx", "m/tokens.txt"));
    assert_eq!((p.voices, p.data_dir, p.dict_dir.as_deref()), (None, None, Some("m/dict")));
    assert_eq!((p.lexicons.as_str(), p.rules.as_str()), ("", "m/z.fst"));
    let k = model_plan(&n(&["voices.bin", "model.int8.onnx", "a.onnx", "tokens.txt"])).ok().unwrap();
    assert_eq!((k.voices.as_deref(), k.model.as_str()), (Some("m/voices.bin"), "m/model.int8.onnx"));
    assert_eq!(model_plan(&n(&["tokens.txt"])).err(), Some(ModelFault::NoModel));
    assert_eq!(model_plan(&n(&["model.onnx"])).err(), Some(ModelFault::NoTokens));
}
