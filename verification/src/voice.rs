//! Speech: what is said, in which order, and with which engine.
//!
//! A neural voice reads a word alone without intonation, so a headword is put into a sentence
//! and the whole sentence is read. What was read is kept, as a word is often played again.
use crate::page::is_chinese;
use crate::search::has_cjk;
use crate::sorted::{sort_texts, sorted_texts, text_before, text_less};
use crate::text::{
    chars_of, ends_with, extend_str, has_prefix, has_suffix, join, join_strs, lemma_texts_push,
    same, starts_with, string_of, texts,
};
use std::collections::VecDeque;
use vstd::hash_map::StringHashMap;
use vstd::prelude::*;
use vstd::slice::*;
use vstd::std_specs::vecdeque::*;
use vstd::string::*;

verus! {

// ───────────────────────── what is said ─────────────────────────

/// The sentence that a headword is read in, in the language of the word. The comma makes a
/// short pause before the word.
pub open spec fn carrier_spec(word: Seq<char>) -> Seq<char> {
    if has_cjk(word) {
        "这个词是，"@ + word
    } else {
        "The word is, "@ + word
    }
}

pub fn carrier(word: &str) -> (r: String)
    ensures
        r@ == carrier_spec(word@),
{
    let mut o = if is_chinese(word) {
        chars_of("这个词是，")
    } else {
        chars_of("The word is, ")
    };
    extend_str(&mut o, word);
    string_of(&o)
}

/// A full stop or a comma, Chinese or Latin.
pub open spec fn is_pause(c: char) -> bool {
    c == '。' || c == '.' || c == '，' || c == ','
}

/// Whether a text is read as a word: at most eight characters and no pause.
pub open spec fn reads_as_word(s: Seq<char>) -> bool {
    s.len() <= 8 && forall|i: int| 0 <= i < s.len() ==> !is_pause(#[trigger] s[i])
}

/// What is said for a text. With `wrap`, the user's setting, a word is said in its sentence;
/// without it, and for anything longer, the text is said as it is.
pub open spec fn said(text: Seq<char>, wrap: bool) -> Seq<char> {
    if wrap && reads_as_word(text) {
        carrier_spec(text)
    } else {
        text
    }
}

pub fn utterance(text: &str, wrap: bool) -> (r: String)
    ensures
        r@ == said(text@, wrap),
{
    let c = chars_of(text);
    if !wrap || c.len() > 8 {
        return string_of(&c);
    }
    let mut i: usize = 0;
    while i < c.len()
        invariant
            c@ == text@,
            wrap,
            i <= c.len(),
            c.len() <= 8,
            forall|j: int| 0 <= j < i ==> !is_pause(#[trigger] c@[j]),
        decreases c.len() - i,
    {
        if c[i] == '。' || c[i] == '.' || c[i] == '，' || c[i] == ',' {
            assert(is_pause(text@[i as int]));
            return string_of(&c);
        }
        i = i + 1;
    }
    carrier(text)
}

/// What is made in advance for a headword: its sentence, or without `wrap` the word itself.
pub open spec fn made_ahead(word: Seq<char>, wrap: bool) -> Seq<char> {
    if wrap {
        carrier_spec(word)
    } else {
        word
    }
}

pub fn prefetched(word: &str, wrap: bool) -> (r: String)
    ensures
        r@ == made_ahead(word@, wrap),
{
    if wrap {
        carrier(word)
    } else {
        string_of(&chars_of(word))
    }
}

/// A headword that reads as a word is said as it was made in advance, so a click need not
/// wait.
pub proof fn law_a_word_is_said_as_made_ahead(word: Seq<char>, wrap: bool)
    requires
        reads_as_word(word),
    ensures
        said(word, wrap) == made_ahead(word, wrap),
{
}

/// How the engine is doing.
#[derive(Clone, Debug, PartialEq)]
pub enum Status {
    Loading,
    Ready { sample_rate: u32, model: String },
    Failed(String),
}

/// What a click on a text to be read comes to.
pub enum Speak {
    /// Tell the user this.
    Note(String),
    /// Say this.
    Say(String),
}

/// Says a text if the engine is ready, and else tells the user why not. `status` is missing
/// where there is no engine at all; `wrap` is the setting for words.
pub fn speak(status: Option<&Status>, text: &str, wrap: bool) -> (r: Speak)
    ensures
        match status {
            None => r matches Speak::Note(n) && n@ == "发音不可用"@,
            Some(Status::Failed(e)) => r matches Speak::Note(n) && n@ == "语音模型加载失败: "@ + e@,
            Some(Status::Loading) => r matches Speak::Note(n) && n@ == "语音模型还在加载"@,
            Some(Status::Ready { .. }) => r matches Speak::Say(s) && s@ == said(text@, wrap),
        },
{
    match status {
        None => Speak::Note("发音不可用".to_owned()),
        Some(s) => match s {
            Status::Failed(e) => {
                let mut o = chars_of("语音模型加载失败: ");
                extend_str(&mut o, e.as_str());
                Speak::Note(string_of(&o))
            },
            Status::Loading => Speak::Note("语音模型还在加载".to_owned()),
            Status::Ready { .. } => Speak::Say(utterance(text, wrap)),
        },
    }
}

// ───────────────────────── the queue ─────────────────────────

/// What the engine is asked for.
#[derive(Clone, Copy, Debug, PartialEq, Eq, Structural)]
pub enum Ask {
    /// Say it.
    Play,
    /// Make it and keep it, in silence.
    Warm,
    /// Make it and measure; somebody waits for the answer.
    Bench,
    /// Stop what is being said.
    Stop,
}

/// What becomes of the requests that piled up, by their places.
pub struct Triage {
    /// Playing is stopped first.
    pub stop: bool,
    pub benches: Vec<usize>,
    pub play: Option<usize>,
    pub warm: Vec<usize>,
}

/// The places of requests of a kind.
pub open spec fn places(q: Seq<Ask>, a: Ask) -> Seq<usize>
    decreases q.len(),
{
    if q.len() == 0 {
        Seq::empty()
    } else if q.last() == a {
        places(q.drop_last(), a).push((q.len() - 1) as usize)
    } else {
        places(q.drop_last(), a)
    }
}

/// The request to play that counts: the last one, unless a stop came after it.
pub open spec fn last_play(q: Seq<Ask>) -> Option<usize>
    decreases q.len(),
{
    if q.len() == 0 || q.last() == Ask::Stop {
        None
    } else if q.last() == Ask::Play {
        Some((q.len() - 1) as usize)
    } else {
        last_play(q.drop_last())
    }
}

/// Sorts the requests that piled up. None that somebody waits for is dropped; of those to
/// play the last one counts; those to make in advance give way to it.
pub fn triage(q: &Vec<Ask>) -> (r: Triage)
    ensures
        r.stop == (places(q@, Ask::Stop).len() > 0),
        r.benches@ == places(q@, Ask::Bench),
        r.play == last_play(q@),
        r.warm@ == if last_play(q@) is Some {
            Seq::empty()
        } else {
            places(q@, Ask::Warm)
        },
{
    let mut stop: bool = false;
    let mut benches: Vec<usize> = Vec::new();
    let mut play: Option<usize> = None;
    let mut warm: Vec<usize> = Vec::new();
    let mut i: usize = 0;
    assert(q@.take(0) =~= Seq::<Ask>::empty());
    while i < q.len()
        invariant
            i <= q.len(),
            stop == (places(q@.take(i as int), Ask::Stop).len() > 0),
            benches@ == places(q@.take(i as int), Ask::Bench),
            play == last_play(q@.take(i as int)),
            warm@ == places(q@.take(i as int), Ask::Warm),
        decreases q.len() - i,
    {
        assert(q@.take(i as int + 1).drop_last() =~= q@.take(i as int));
        match q[i] {
            Ask::Bench => {
                benches.push(i);
            },
            Ask::Play => {
                play = Some(i);
            },
            Ask::Warm => {
                warm.push(i);
            },
            Ask::Stop => {
                stop = true;
                play = None;
            },
        }
        i = i + 1;
    }
    assert(q@.take(i as int) =~= q@);
    if play.is_some() {
        warm = Vec::new();
    }
    Triage { stop, benches, play, warm }
}

/// Nobody who waits for a measurement is forgotten.
pub proof fn law_no_bench_is_dropped(q: Seq<Ask>, i: int)
    requires
        0 <= i < q.len(),
        q.len() <= usize::MAX,
        q[i] == Ask::Bench,
    ensures
        places(q, Ask::Bench).contains(i as usize),
    decreases q.len(),
{
    if i == q.len() - 1 {
        let p = places(q, Ask::Bench);
        assert(p.last() == i as usize);
        assert(p[p.len() - 1] == i as usize);
    } else {
        law_no_bench_is_dropped(q.drop_last(), i);
        let a = places(q.drop_last(), Ask::Bench);
        let k = choose|k: int| 0 <= k < a.len() && a[k] == i as usize;
        assert(places(q, Ask::Bench)[k] == i as usize);
    }
}

// ───────────────────────── the cache ─────────────────────────

/// How many pieces of speech are kept.
pub const CACHE_CAP: usize = 128;

/// Pieces of speech by their text; the oldest goes first.
#[verifier::reject_recursive_types(V)]
pub struct SampleCache<V> {
    pub map: StringHashMap<V>,
    pub order: VecDeque<String>,
}

impl<V> SampleCache<V> {
    /// The texts in the order they came.
    pub open spec fn kept(self) -> Seq<Seq<char>> {
        texts(self.order@)
    }

    /// Each text once, and the map has exactly those.
    pub open spec fn wf(self) -> bool {
        &&& self.kept().no_duplicates()
        &&& self.kept().len() <= CACHE_CAP
        &&& forall|k: Seq<char>| #[trigger] self.map@.contains_key(k) <==> self.kept().contains(k)
    }

    pub fn new() -> (r: Self)
        ensures
            r.wf(),
            r.kept() == Seq::<Seq<char>>::empty(),
    {
        let r = SampleCache { map: StringHashMap::new(), order: VecDeque::new() };
        assert(r.kept() =~= Seq::<Seq<char>>::empty());
        r
    }

    pub fn get(&self, text: &str) -> (r: Option<&V>)
        requires
            self.wf(),
        ensures
            match r {
                Some(v) => self.kept().contains(text@) && *v == self.map@[text@],
                None => !self.kept().contains(text@),
            },
    {
        assert(self.map@.contains_key(text@) <==> self.kept().contains(text@));
        self.map.get(text)
    }

    /// Keeps a new piece, and lets the oldest go where there are too many.
    pub fn put(&mut self, text: &str, v: V)
        requires
            old(self).wf(),
            !old(self).kept().contains(text@),
        ensures
            final(self).wf(),
            final(self).kept() == if old(self).kept().len() < CACHE_CAP {
                old(self).kept().push(text@)
            } else {
                old(self).kept().push(text@).drop_first()
            },
            final(self).map@[text@] == v,
            forall|k: Seq<char>|
                k != text@ && #[trigger] final(self).kept().contains(k) ==> final(self).map@[k]
                    == old(self).map@[k],
    {
        let ghost was = *self;
        let ghost before = self.kept();
        let ghost all = before.push(text@);
        self.map.insert(text.to_owned(), v);
        let owned = text.to_owned();
        self.order.push_back(owned);
        proof {
            assert(self.kept() =~= all);
            assert(all.no_duplicates()) by {
                assert forall|i: int, j: int|
                    0 <= i < all.len() && 0 <= j < all.len() && i != j implies all[i] != all[j] by {
                    if i == before.len() {
                        assert(before.contains(before[j]));
                    }
                    if j == before.len() {
                        assert(before.contains(before[i]));
                    }
                }
            }
            assert forall|k: Seq<char>| all.contains(k) <==> (before.contains(k) || k == text@) by {
                if before.contains(k) {
                    let i = choose|i: int| 0 <= i < before.len() && before[i] == k;
                    assert(all[i] == k);
                }
                assert(all[before.len() as int] == text@);
            }
        }
        if self.order.len() > CACHE_CAP {
            let ghost mid = self.map@;
            match self.order.pop_front() {
                Some(oldest) => {
                    self.map.remove(oldest.as_str());
                    proof {
                        assert(oldest@ == all[0]);
                        assert(self.kept() =~= all.drop_first());
                        let rest = all.drop_first();
                        assert forall|k: Seq<char>| #[trigger]
                            self.map@.contains_key(k) <==> rest.contains(k) by {
                            assert(mid.contains_key(k) <==> all.contains(k));
                            if rest.contains(k) {
                                let i = choose|i: int| 0 <= i < rest.len() && rest[i] == k;
                                assert(all[i + 1] == k);
                                assert(all[0] != all[i + 1]);
                            }
                            if all.contains(k) && k != oldest@ {
                                let i = choose|i: int| 0 <= i < all.len() && all[i] == k;
                                assert(rest[i - 1] == k);
                            }
                        }
                        assert(all[before.len() as int] == text@);
                        assert(all[0] != all[before.len() as int]);
                        assert(rest.no_duplicates()) by {
                            assert forall|i: int, j: int|
                                0 <= i < rest.len() && 0 <= j < rest.len() && i
                                    != j implies rest[i] != rest[j] by {
                                assert(all[i + 1] != all[j + 1]);
                            }
                        }
                    }
                },
                None => {},
            }
        }
    }
}

// ───────────────────────── files of the engine ─────────────────────────

/// What follows the last dot of a file name that does not begin with it.
pub open spec fn extension(name: Seq<char>) -> Option<Seq<char>>
    decreases name.len(),
{
    last_dot(name, name.len() as int)
}

/// What follows the last dot among the characters 1 to `k`.
pub open spec fn last_dot(name: Seq<char>, k: int) -> Option<Seq<char>>
    decreases k,
{
    if k <= 1 {
        None
    } else if name[k - 1] == '.' {
        Some(name.skip(k))
    } else {
        last_dot(name, k - 1)
    }
}

fn extension_of(name: &Vec<char>) -> (r: Option<usize>)
    ensures
        match r {
            Some(k) => 0 < k <= name.len() && extension(name@) == Some(name@.skip(k as int)),
            None => extension(name@) is None,
        },
{
    let mut k: usize = name.len();
    while k > 1
        invariant
            k <= name.len(),
            extension(name@) == last_dot(name@, k as int),
        decreases k,
    {
        if name[k - 1] == '.' {
            return Some(k);
        }
        k = k - 1;
    }
    None
}

fn has_extension(name: &Vec<char>, ext: &str) -> (r: bool)
    ensures
        r == (extension(name@) == Some(ext@)),
{
    match extension_of(name) {
        Some(k) => {
            let t = slice_subrange(name, k, name.len());
            assert(t@ =~= name@.skip(k as int));
            let e = chars_of(ext);
            same(t, &e)
        },
        None => false,
    }
}

/// A file of a directory: its name and its whole path.
pub struct FileName {
    pub name: String,
    pub path: String,
}

/// Which files are wanted.
#[derive(Clone, Copy, Debug, PartialEq, Eq, Structural)]
pub enum Wanted {
    /// Rules for numbers, dates and the like: everything that ends in `.fst`, as names differ.
    Rules,
    /// The lexicons: `lexicon*.txt`.
    Lexicons,
}

pub open spec fn wanted(w: Wanted, name: Seq<char>) -> bool {
    match w {
        Wanted::Rules => extension(name) == Some("fst"@),
        Wanted::Lexicons => starts_with(name, "lexicon"@) && ends_with(name, ".txt"@),
    }
}

/// The paths of the wanted files.
pub open spec fn wanted_paths(w: Wanted, files: Seq<FileName>) -> Seq<Seq<char>>
    decreases files.len(),
{
    if files.len() == 0 {
        Seq::empty()
    } else if wanted(w, files.last().name@) {
        wanted_paths(w, files.drop_last()).push(files.last().path@)
    } else {
        wanted_paths(w, files.drop_last())
    }
}

fn is_wanted(w: Wanted, name: &str) -> (r: bool)
    ensures
        r == wanted(w, name@),
{
    let c = chars_of(name);
    match w {
        Wanted::Rules => has_extension(&c, "fst"),
        Wanted::Lexicons => {
            let a = chars_of("lexicon");
            let b = chars_of(".txt");
            has_prefix(&c, &a) && has_suffix(&c, &b)
        },
    }
}

/// The wanted files of a directory, sorted, with commas between, as the engine takes them.
pub fn file_list(w: Wanted, files: &Vec<FileName>) -> (r: String)
    ensures
        r@ == join(sorted_texts(wanted_paths(w, files@)), ","@),
{
    let mut v: Vec<String> = Vec::new();
    let mut i: usize = 0;
    assert(files@.take(0) =~= Seq::<FileName>::empty());
    assert(texts(v@) =~= Seq::<Seq<char>>::empty());
    while i < files.len()
        invariant
            i <= files.len(),
            texts(v@) == wanted_paths(w, files@.take(i as int)),
        decreases files.len() - i,
    {
        assert(files@.take(i as int + 1).drop_last() =~= files@.take(i as int));
        if is_wanted(w, files[i].name.as_str()) {
            let p = files[i].path.clone();
            proof {
                lemma_texts_push(v@, p);
            }
            v.push(p);
        }
        i = i + 1;
    }
    assert(files@.take(i as int) =~= files@);
    let s = sort_texts(v);
    join_strs(&s, ",")
}

/// The place of the first name that is `want`.
pub open spec fn place_of(names: Seq<Seq<char>>, want: Seq<char>) -> Option<usize>
    decreases names.len(),
{
    if names.len() == 0 {
        None
    } else {
        match place_of(names.drop_last(), want) {
            Some(i) => Some(i),
            None => if names.last() == want {
                Some((names.len() - 1) as usize)
            } else {
                None
            },
        }
    }
}

/// The place of the least name that ends in `.onnx`, the first of equals.
pub open spec fn least_onnx(names: Seq<Seq<char>>) -> Option<usize>
    decreases names.len(),
{
    if names.len() == 0 {
        None
    } else {
        let a = least_onnx(names.drop_last());
        if extension(names.last()) != Some("onnx"@) {
            a
        } else {
            match a {
                Some(i) => if text_less(names.last(), names[i as int]) {
                    Some((names.len() - 1) as usize)
                } else {
                    a
                },
                None => Some((names.len() - 1) as usize),
            }
        }
    }
}

/// Which file of a directory is the model: `model.onnx`, else `model.int8.onnx`, else the
/// first that ends in `.onnx`.
pub open spec fn model_file_spec(names: Seq<Seq<char>>) -> Option<usize> {
    match place_of(names, "model.onnx"@) {
        Some(i) => Some(i),
        None => match place_of(names, "model.int8.onnx"@) {
            Some(i) => Some(i),
            None => least_onnx(names),
        },
    }
}

fn find_name(names: &Vec<String>, want: &str) -> (r: Option<usize>)
    ensures
        r == place_of(texts(names@), want@),
{
    let ghost all = texts(names@);
    let w = chars_of(want);
    let mut r: Option<usize> = None;
    let mut i: usize = 0;
    assert(all.take(0) =~= Seq::<Seq<char>>::empty());
    while i < names.len()
        invariant
            i <= names.len(),
            w@ == want@,
            all == texts(names@),
            r == place_of(all.take(i as int), want@),
        decreases names.len() - i,
    {
        proof {
            let t = all.take(i as int + 1);
            assert(t.drop_last() =~= all.take(i as int));
            assert(t.last() == names@[i as int]@);
        }
        let c = chars_of(names[i].as_str());
        if r.is_none() && same(&c, &w) {
            r = Some(i);
        }
        i = i + 1;
    }
    assert(all.take(i as int) =~= all);
    r
}

pub fn model_file(names: &Vec<String>) -> (r: Option<usize>)
    ensures
        r == model_file_spec(texts(names@)),
{
    let a = find_name(names, "model.onnx");
    if a.is_some() {
        return a;
    }
    let b = find_name(names, "model.int8.onnx");
    if b.is_some() {
        return b;
    }
    let ghost all = texts(names@);
    let mut r: Option<usize> = None;
    let mut i: usize = 0;
    assert(all.take(0) =~= Seq::<Seq<char>>::empty());
    while i < names.len()
        invariant
            i <= names.len(),
            all == texts(names@),
            place_of(all, "model.onnx"@) is None,
            place_of(all, "model.int8.onnx"@) is None,
            r == least_onnx(all.take(i as int)),
            r matches Some(k) ==> k < i,
        decreases names.len() - i,
    {
        proof {
            let t = all.take(i as int + 1);
            assert(t.drop_last() =~= all.take(i as int));
            assert(t.last() == names@[i as int]@);
        }
        let c = chars_of(names[i].as_str());
        if has_extension(&c, "onnx") {
            let better: bool = match r {
                Some(k) => text_before(names[i].as_str(), names[k].as_str()),
                None => true,
            };
            if better {
                r = Some(i);
            }
        }
        i = i + 1;
    }
    assert(all.take(i as int) =~= all);
    r
}

/// What an engine is made of: the files of a model directory, by path.
pub struct ModelPlan {
    pub model: String,
    pub tokens: String,
    /// The voices of a model that keeps them apart; a model without is whole in one file.
    pub voices: Option<String>,
    pub data_dir: Option<String>,
    pub dict_dir: Option<String>,
    pub lexicons: String,
    pub rules: String,
}

/// Why a directory holds no model that can be loaded.
#[derive(Clone, Copy, Debug, PartialEq, Eq, Structural)]
pub enum ModelFault {
    NoModel,
    NoTokens,
}

pub open spec fn names_of(files: Seq<FileName>) -> Seq<Seq<char>> {
    Seq::new(files.len(), |i: int| files[i].name@)
}

/// The path of a file by its name.
pub open spec fn path_of(files: Seq<FileName>, name: Seq<char>) -> Option<Seq<char>> {
    match place_of(names_of(files), name) {
        Some(i) => Some(files[i as int].path@),
        None => None,
    }
}

pub open spec fn opt_string(s: Option<String>) -> Option<Seq<char>> {
    match s {
        Some(x) => Some(x@),
        None => None,
    }
}

proof fn lemma_place_of(names: Seq<Seq<char>>, want: Seq<char>)
    ensures
        place_of(names, want) matches Some(i) ==> i < names.len() || names.len() > usize::MAX,
    decreases names.len(),
{
    if names.len() > 0 {
        lemma_place_of(names.drop_last(), want);
    }
}

proof fn lemma_least_onnx(names: Seq<Seq<char>>)
    ensures
        least_onnx(names) matches Some(i) ==> i < names.len() || names.len() > usize::MAX,
    decreases names.len(),
{
    if names.len() > 0 {
        lemma_least_onnx(names.drop_last());
    }
}

fn file_path(files: &Vec<FileName>, names: &Vec<String>, want: &str) -> (r: Option<String>)
    requires
        texts(names@) == names_of(files@),
    ensures
        opt_string(r) == path_of(files@, want@),
{
    let n: usize = files.len();
    proof {
        assert(names_of(files@).len() == n);
        lemma_place_of(names_of(files@), want@);
    }
    match find_name(names, want) {
        Some(i) => Some(files[i].path.clone()),
        None => None,
    }
}

fn file_names(files: &Vec<FileName>) -> (r: Vec<String>)
    ensures
        texts(r@) == names_of(files@),
{
    let mut r: Vec<String> = Vec::new();
    let mut i: usize = 0;
    while i < files.len()
        invariant
            i <= files.len(),
            r.len() == i,
            forall|j: int| 0 <= j < i ==> (#[trigger] r@[j])@ == files@[j].name@,
        decreases files.len() - i,
    {
        r.push(files[i].name.clone());
        i = i + 1;
    }
    assert(texts(r@) =~= names_of(files@));
    r
}

/// Puts an engine together from the files of a model directory. Without a model or without
/// `tokens.txt` there is none.
pub fn model_plan(files: &Vec<FileName>) -> (r: Result<ModelPlan, ModelFault>)
    ensures
        match r {
            Ok(p) => {
                &&& model_file_spec(names_of(files@)) matches Some(i) && p.model@
                    == files@[i as int].path@
                &&& path_of(files@, "tokens.txt"@) == Some(p.tokens@)
                &&& opt_string(p.voices) == path_of(files@, "voices.bin"@)
                &&& opt_string(p.data_dir) == path_of(files@, "espeak-ng-data"@)
                &&& opt_string(p.dict_dir) == path_of(files@, "dict"@)
                &&& p.lexicons@ == join(
                    sorted_texts(wanted_paths(Wanted::Lexicons, files@)),
                    ","@,
                )
                &&& p.rules@ == join(sorted_texts(wanted_paths(Wanted::Rules, files@)), ","@)
            },
            Err(ModelFault::NoModel) => model_file_spec(names_of(files@)) is None,
            Err(ModelFault::NoTokens) => model_file_spec(names_of(files@)) is Some && path_of(
                files@,
                "tokens.txt"@,
            ) is None,
        },
{
    let names = file_names(files);
    let n: usize = files.len();
    proof {
        let all = names_of(files@);
        assert(all.len() == n);
        lemma_place_of(all, "model.onnx"@);
        lemma_place_of(all, "model.int8.onnx"@);
        lemma_least_onnx(all);
    }
    let model = match model_file(&names) {
        Some(i) => files[i].path.clone(),
        None => {
            return Err(ModelFault::NoModel);
        },
    };
    let tokens = match file_path(files, &names, "tokens.txt") {
        Some(t) => t,
        None => {
            return Err(ModelFault::NoTokens);
        },
    };
    Ok(
        ModelPlan {
            model,
            tokens,
            voices: file_path(files, &names, "voices.bin"),
            data_dir: file_path(files, &names, "espeak-ng-data"),
            dict_dir: file_path(files, &names, "dict"),
            lexicons: file_list(Wanted::Lexicons, files),
            rules: file_list(Wanted::Rules, files),
        },
    )
}

} // verus!
