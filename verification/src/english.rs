//! Rows of ECDICT to English headwords.
//!
//! ECDICT is well structured: `translation` has one Chinese sense to a line with its part of
//! speech before it, `definition` has English ones, `exchange` has all inflected forms.
use crate::letters::{lower, lowercase};
use crate::model::{sense_views, Entry, EntryView, Sense, SenseView, KIND_EN};
use crate::number::{parse_i32, parsed_i32};
use crate::single::{Double, Single};
use crate::sorted::{sort_texts, sorted_texts};
use crate::text::{
    chars_of, copy, each_trimmed, extend, extend_str, is_latin, is_latin_spec, join, join_strs,
    keep_non_empty, lemma_texts_push, non_empty, position, rows, same, split, split_by, string_of,
    texts, trim, trim_each, trimmed, until, words, words_of, NotCjk, One, Space,
};
use vstd::prelude::*;
use vstd::slice::*;
use vstd::string::*;

verus! {

/// The columns of one row. The two ranks come as numbers, where the column holds one.
pub struct EcRow<'a> {
    pub word: &'a str,
    pub phonetic: &'a str,
    pub definition: &'a str,
    pub translation: &'a str,
    pub pos: &'a str,
    pub collins: &'a str,
    pub oxford: &'a str,
    pub tag: &'a str,
    pub bnc: Option<Double>,
    pub frq: Option<Double>,
    pub exchange: &'a str,
}

pub struct RawEn {
    pub entry: Entry,
    /// The BNC or COCA rank, smaller for more common words.
    pub rank: Option<Double>,
    /// The words of the Chinese glosses for the `trans` lane.
    pub trans_tokens: Vec<String>,
    /// The base form, so that `compiled` finds `compile`.
    pub lemma: Option<String>,
}

/// What an English headword holds.
#[verifier::ext_equal]
pub struct RawEnView {
    pub entry: EntryView,
    pub rank: Option<Double>,
    pub trans_tokens: Seq<Seq<char>>,
    pub lemma: Option<Seq<char>>,
}

impl View for RawEn {
    type V = RawEnView;

    open spec fn view(&self) -> RawEnView {
        RawEnView {
            entry: self.entry@,
            rank: self.rank,
            trans_tokens: texts(self.trans_tokens@),
            lemma: opt_text(self.lemma),
        }
    }
}

pub open spec fn opt_text(s: Option<String>) -> Option<Seq<char>> {
    match s {
        Some(x) => Some(x@),
        None => None,
    }
}

// ───────────────────────── labels ─────────────────────────

/// The name of an exam tag.
pub open spec fn tag_name(t: Seq<char>) -> Option<Seq<char>> {
    if t == "zk"@ {
        Some("中考"@)
    } else if t == "gk"@ {
        Some("高考"@)
    } else if t == "ky"@ {
        Some("考研"@)
    } else if t == "cet4"@ {
        Some("四级"@)
    } else if t == "cet6"@ {
        Some("六级"@)
    } else if t == "toefl"@ {
        Some("托福"@)
    } else if t == "ielts"@ {
        Some("雅思"@)
    } else if t == "gre"@ {
        Some("GRE"@)
    } else {
        None
    }
}

/// The name of an inflected form.
pub open spec fn form_name(k: Seq<char>) -> Option<Seq<char>> {
    if k == "p"@ {
        Some("过去式"@)
    } else if k == "d"@ {
        Some("过去分词"@)
    } else if k == "i"@ {
        Some("现在分词"@)
    } else if k == "3"@ {
        Some("三单"@)
    } else if k == "r"@ {
        Some("比较级"@)
    } else if k == "t"@ {
        Some("最高级"@)
    } else if k == "s"@ {
        Some("复数"@)
    } else {
        None
    }
}

pub(crate) fn is_text(s: &[char], lit: &str) -> (r: bool)
    ensures
        r == (s@ == lit@),
{
    let c = chars_of(lit);
    same(s, &c)
}

pub open spec fn opt_str(s: Option<&str>) -> Option<Seq<char>> {
    match s {
        Some(x) => Some(x@),
        None => None,
    }
}

fn tag_label(t: &[char]) -> (r: Option<&'static str>)
    ensures
        opt_str(r) == tag_name(t@),
{
    if is_text(t, "zk") {
        Some("中考")
    } else if is_text(t, "gk") {
        Some("高考")
    } else if is_text(t, "ky") {
        Some("考研")
    } else if is_text(t, "cet4") {
        Some("四级")
    } else if is_text(t, "cet6") {
        Some("六级")
    } else if is_text(t, "toefl") {
        Some("托福")
    } else if is_text(t, "ielts") {
        Some("雅思")
    } else if is_text(t, "gre") {
        Some("GRE")
    } else {
        None
    }
}

fn exchange_label(k: &[char]) -> (r: Option<&'static str>)
    ensures
        opt_str(r) == form_name(k@),
{
    if is_text(k, "p") {
        Some("过去式")
    } else if is_text(k, "d") {
        Some("过去分词")
    } else if is_text(k, "i") {
        Some("现在分词")
    } else if is_text(k, "3") {
        Some("三单")
    } else if is_text(k, "r") {
        Some("比较级")
    } else if is_text(k, "t") {
        Some("最高级")
    } else if is_text(k, "s") {
        Some("复数")
    } else {
        None
    }
}

// ───────────────────────── exchange ─────────────────────────

/// What stands before and after the first `c`.
pub open spec fn split_pair(s: Seq<char>, c: char) -> Option<(Seq<char>, Seq<char>)> {
    let k = until(s, One(c)) as int;
    if k < s.len() {
        Some((s.take(k), s.skip(k + 1)))
    } else {
        None
    }
}

/// The two sides of the first `c`.
pub(crate) fn split_once<'a>(s: &'a [char], c: char) -> (r: Option<(&'a [char], &'a [char])>)
    ensures
        match r {
            Some(p) => split_pair(s@, c) == Some((p.0@, p.1@)),
            None => split_pair(s@, c) is None,
        },
{
    let k: usize = position(s, &One(c));
    if k < s.len() {
        proof {
            assert(s@.take(k as int) =~= s@.subrange(0, k as int));
            assert(s@.skip(k as int + 1) =~= s@.subrange(k as int + 1, s@.len() as int));
        }
        Some((slice_subrange(s, 0, k), slice_subrange(s, k + 1, s.len())))
    } else {
        None
    }
}

/// The forms and the base form that the parts of an exchange field give. `0:` names the base
/// form, the last one counts; other parts of a known kind are forms.
pub open spec fn read_exchange(parts: Seq<Seq<char>>) -> (Seq<Seq<char>>, Option<Seq<char>>)
    decreases parts.len(),
{
    if parts.len() == 0 {
        (Seq::empty(), None)
    } else {
        let (forms, lemma) = read_exchange(parts.drop_last());
        match split_pair(parts.last(), ':') {
            None => (forms, lemma),
            Some((k, v)) => {
                let v = trimmed(v);
                if v.len() == 0 {
                    (forms, lemma)
                } else if k == "0"@ {
                    (forms, Some(lowercase(v)))
                } else {
                    match form_name(k) {
                        Some(name) => (forms.push(name + " "@ + v), lemma),
                        None => (forms, lemma),
                    }
                }
            },
        }
    }
}

/// The line of forms of an exchange field.
pub open spec fn forms_of(s: Seq<char>) -> Seq<char> {
    join(read_exchange(split_by(s, One('/'))).0, " · "@)
}

/// The base form of an exchange field.
pub open spec fn lemma_of(s: Seq<char>) -> Option<Seq<char>> {
    read_exchange(split_by(s, One('/'))).1
}

/// Reads a field such as `d:constructed/p:constructed/3:constructs`.
fn parse_exchange(s: &[char]) -> (r: (String, Option<String>))
    ensures
        r.0@ == forms_of(s@),
        opt_text(r.1) == lemma_of(s@),
{
    let parts = split(s, &One('/'));
    let mut forms: Vec<String> = Vec::new();
    let mut lemma: Option<String> = None;
    let ghost all = rows(parts@);
    let mut i: usize = 0;
    assert(all.take(0) =~= Seq::<Seq<char>>::empty());
    assert(texts(forms@) =~= Seq::<Seq<char>>::empty());
    while i < parts.len()
        invariant
            all == rows(parts@),
            i <= parts.len(),
            texts(forms@) == read_exchange(all.take(i as int)).0,
            opt_text(lemma) == read_exchange(all.take(i as int)).1,
        decreases parts.len() - i,
    {
        proof {
            let t = all.take(i as int + 1);
            assert(t.drop_last() =~= all.take(i as int));
            assert(t.last() == parts@[i as int]@);
        }
        match split_once(&parts[i], ':') {
            Some((k, v)) => {
                let v = trim(v);
                if v.len() > 0 {
                    if is_text(k, "0") {
                        let l = lower(v);
                        lemma = Some(string_of(&l));
                    } else {
                        match exchange_label(k) {
                            Some(name) => {
                                let mut out = chars_of(name);
                                extend_str(&mut out, " ");
                                extend(&mut out, v);
                                let x = string_of(&out);
                                proof {
                                    lemma_texts_push(forms@, x);
                                }
                                forms.push(x);
                            },
                            None => {},
                        }
                    }
                }
            },
            None => {},
        }
        i = i + 1;
    }
    assert(all.take(i as int) =~= all);
    (join_strs(&forms, " · "), lemma)
}

// ───────────────────────── part of speech ─────────────────────────

/// The part of speech with the greatest share among the parts of a field, the last of
/// several, with its share. A share that is no number counts as 0.
pub open spec fn best_pos(parts: Seq<Seq<char>>) -> Option<(Seq<char>, int)>
    decreases parts.len(),
{
    if parts.len() == 0 {
        None
    } else {
        let a = best_pos(parts.drop_last());
        match split_pair(parts.last(), ':') {
            None => a,
            Some((k, v)) => {
                let n = match parsed_i32(trimmed(v)) {
                    Some(n) => n,
                    None => 0,
                };
                match a {
                    Some((_, m)) => if n >= m {
                        Some((trimmed(k), n))
                    } else {
                        a
                    },
                    None => Some((trimmed(k), n)),
                }
            },
        }
    }
}

/// The part of speech that a field such as `n:50,v:30` gives, with a full stop.
pub open spec fn pos_of(s: Seq<char>) -> Seq<char> {
    match best_pos(split_by(s, One(','))) {
        Some((k, _)) => k + "."@,
        None => Seq::empty(),
    }
}

fn dominant_pos(s: &[char]) -> (r: String)
    ensures
        r@ == pos_of(s@),
{
    let parts = split(s, &One(','));
    let ghost all = rows(parts@);
    let mut best: Option<(Vec<char>, i32)> = None;
    let mut i: usize = 0;
    assert(all.take(0) =~= Seq::<Seq<char>>::empty());
    while i < parts.len()
        invariant
            all == rows(parts@),
            i <= parts.len(),
            match best {
                Some(p) => best_pos(all.take(i as int)) == Some((p.0@, p.1 as int)),
                None => best_pos(all.take(i as int)) is None,
            },
        decreases parts.len() - i,
    {
        proof {
            let t = all.take(i as int + 1);
            assert(t.drop_last() =~= all.take(i as int));
            assert(t.last() == parts@[i as int]@);
        }
        match split_once(&parts[i], ':') {
            Some((k, v)) => {
                let n: i32 = match parse_i32(trim(v)) {
                    Some(n) => n,
                    None => 0,
                };
                let better: bool = match &best {
                    Some(p) => n >= p.1,
                    None => true,
                };
                if better {
                    best = Some((copy(trim(k)), n));
                }
            },
            None => {},
        }
        i = i + 1;
    }
    assert(all.take(i as int) =~= all);
    match best {
        Some((k, _)) => {
            let mut out = k;
            extend_str(&mut out, ".");
            string_of(&out)
        },
        None => {
            let none: Vec<char> = Vec::new();
            assert(none@ =~= Seq::<char>::empty());
            string_of(&none)
        },
    }
}

/// A Latin abbreviation of up to eight characters with a full stop at its end.
pub open spec fn looks_like_pos(h: Seq<char>) -> bool {
    &&& h.len() > 0
    &&& h.last() == '.'
    &&& h.len() <= 8
    &&& forall|i: int| 0 <= i < h.len() ==> is_latin_spec(#[trigger] h[i]) || h[i] == '.'
}

/// Something in square brackets.
pub open spec fn looks_like_domain(h: Seq<char>) -> bool {
    h.len() > 0 && h[0] == '[' && h.last() == ']'
}

/// The part of speech (or the domain) that a gloss begins with, and the gloss without it.
pub open spec fn pos_prefix(line: Seq<char>) -> (Seq<char>, Seq<char>) {
    let t = trimmed(line);
    let k = until(t, Space) as int;
    let h = trimmed(t.take(k));
    if k < t.len() && (looks_like_pos(h) || looks_like_domain(h)) {
        (h, trimmed(t.skip(k + 1)))
    } else {
        (Seq::empty(), t)
    }
}

fn is_pos(h: &[char]) -> (r: bool)
    ensures
        r == looks_like_pos(h@),
{
    if h.len() == 0 || h.len() > 8 || h[h.len() - 1] != '.' {
        return false;
    }
    let mut i: usize = 0;
    while i < h.len()
        invariant
            i <= h.len(),
            forall|j: int| 0 <= j < i ==> is_latin_spec(#[trigger] h@[j]) || h@[j] == '.',
        decreases h.len() - i,
    {
        if !is_latin(h[i]) && h[i] != '.' {
            assert(!is_latin_spec(h@[i as int]));
            return false;
        }
        i = i + 1;
    }
    true
}

fn split_pos_prefix(line: &[char]) -> (r: (Vec<char>, Vec<char>))
    ensures
        (r.0@, r.1@) == pos_prefix(line@),
{
    let t = trim(line);
    let k: usize = position(t, &Space);
    if k < t.len() {
        proof {
            assert(t@.take(k as int) =~= t@.subrange(0, k as int));
            assert(t@.skip(k as int + 1) =~= t@.subrange(k as int + 1, t@.len() as int));
        }
        let h = trim(slice_subrange(t, 0, k));
        if is_pos(h) || (h.len() > 0 && h[0] == '[' && h[h.len() - 1] == ']') {
            return (copy(h), copy(trim(slice_subrange(t, k + 1, t.len()))));
        }
    }
    let none: Vec<char> = Vec::new();
    assert(none@ =~= Seq::<char>::empty());
    (none, copy(t))
}

// ───────────────────────── senses ─────────────────────────

/// The lines of a field, trimmed, without the empty ones.
pub open spec fn lines_of(s: Seq<char>) -> Seq<Seq<char>> {
    non_empty(each_trimmed(split_by(s, One('\n'))))
}

/// The runs of Han characters of a text.
pub open spec fn cjk_words(s: Seq<char>) -> Seq<Seq<char>> {
    non_empty(split_by(s, NotCjk))
}

/// The senses of a word: one to each Chinese line, with the English line of the same number
/// beside it where there are as many of them.
pub open spec fn senses_of(cn: Seq<Seq<char>>, en: Seq<Seq<char>>) -> Seq<SenseView> {
    Seq::new(
        cn.len(),
        |i: int|
            SenseView {
                pos: pos_prefix(cn[i]).0,
                text: pos_prefix(cn[i]).1,
                note: if en.len() == cn.len() {
                    en[i]
                } else {
                    Seq::empty()
                },
                reg: Seq::empty(),
            },
    )
}

/// The Han words of all glosses, one after the other.
pub open spec fn trans_words(cn: Seq<Seq<char>>) -> Seq<Seq<char>>
    decreases cn.len(),
{
    if cn.len() == 0 {
        Seq::empty()
    } else {
        trans_words(cn.drop_last()) + cjk_words(pos_prefix(cn.last()).1)
    }
}

/// The names of the known tags.
pub open spec fn tag_names(w: Seq<Seq<char>>) -> Seq<Seq<char>>
    decreases w.len(),
{
    if w.len() == 0 {
        Seq::empty()
    } else {
        match tag_name(w.last()) {
            Some(t) => tag_names(w.drop_last()).push(t),
            None => tag_names(w.drop_last()),
        }
    }
}

/// `n` stars.
pub open spec fn stars(n: nat) -> Seq<char> {
    Seq::new(n, |i: int| '★')
}

/// The tags of a row: exams, then Collins stars (five at most), then the Oxford core.
pub open spec fn tags_of(tag: Seq<char>, collins: Seq<char>, oxford: Seq<char>) -> Seq<Seq<char>> {
    let a = tag_names(words_of(tag));
    let b = match parsed_i32(trimmed(collins)) {
        Some(c) => if c > 0 {
            a.push(
                "柯林斯 "@ + stars(
                    if c < 5 {
                        c as nat
                    } else {
                        5
                    },
                ),
            )
        } else {
            a
        },
        None => a,
    };
    if trimmed(oxford) == "1"@ {
        b.push("牛津核心"@)
    } else {
        b
    }
}

/// A rank counts where it is greater than zero.
pub open spec fn positive(x: Option<Double>) -> Option<Double> {
    match x {
        Some(d) => if (Double { bits: 0 }).less_spec(d) {
            Some(d)
        } else {
            None
        },
        None => None,
    }
}

/// The smaller of the two ranks, where they count.
pub open spec fn rank_of(bnc: Option<Double>, frq: Option<Double>) -> Option<Double> {
    match (positive(bnc), positive(frq)) {
        (Some(a), Some(b)) => if b.less_spec(a) {
            Some(b)
        } else {
            Some(a)
        },
        (Some(a), None) => Some(a),
        (None, b) => b,
    }
}

/// The glosses as the source has them: the Chinese ones, then the English ones under a rule.
pub open spec fn raw_of(translation: Seq<char>, definition: Seq<char>) -> Seq<char> {
    let d = trimmed(definition);
    if d.len() == 0 {
        trimmed(translation)
    } else {
        trimmed(translation) + "\n— — —\n"@ + d
    }
}

/// The headword that a row gives. A row without a word or a Chinese gloss gives none. The
/// frequency shown is left at zero: it is the rank in single precision.
pub open spec fn row_headword(row: EcRow) -> Option<RawEnView> {
    let word = trimmed(row.word@);
    let phonetic = trimmed(row.phonetic@);
    let cn = lines_of(row.translation@);
    if word.len() == 0 || cn.len() == 0 {
        None
    } else {
        Some(
            RawEnView {
                entry: EntryView {
                    kind: KIND_EN,
                    word,
                    trad: Seq::empty(),
                    reading: if phonetic.len() == 0 {
                        Seq::empty()
                    } else {
                        "/"@ + phonetic + "/"@
                    },
                    tones: Seq::empty(),
                    freq: Single { bits: 0 },
                    pct: Single { bits: 0 },
                    pos: pos_of(row.pos@),
                    forms: forms_of(row.exchange@),
                    tags: join(tags_of(row.tag@, row.collins@, row.oxford@), " · "@),
                    senses: senses_of(cn, lines_of(row.definition@)),
                    examples: Seq::empty(),
                    raw: raw_of(row.translation@, row.definition@),
                    xrefs: Seq::empty(),
                },
                rank: rank_of(row.bnc, row.frq),
                trans_tokens: sorted_texts(trans_words(cn)),
                lemma: lemma_of(row.exchange@),
            },
        )
    }
}

fn lines(s: &str) -> (r: Vec<Vec<char>>)
    ensures
        rows(r@) == lines_of(s@),
{
    let c = chars_of(s);
    keep_non_empty(trim_each(split(&c, &One('\n'))))
}

fn push_rows(out: &mut Vec<String>, parts: &Vec<Vec<char>>)
    ensures
        texts(final(out)@) == texts(old(out)@) + rows(parts@),
{
    let ghost before = texts(out@);
    let mut i: usize = 0;
    assert(texts(out@) =~= before + rows(parts@).take(0));
    while i < parts.len()
        invariant
            i <= parts.len(),
            texts(out@) == before + rows(parts@).take(i as int),
        decreases parts.len() - i,
    {
        let x = string_of(&parts[i]);
        proof {
            lemma_texts_push(out@, x);
        }
        out.push(x);
        assert(texts(out@) =~= before + rows(parts@).take(i as int + 1));
        i = i + 1;
    }
    assert(rows(parts@).take(i as int) =~= rows(parts@));
}

fn build_senses(cn: &Vec<Vec<char>>, en: &Vec<Vec<char>>) -> (r: (Vec<Sense>, Vec<String>))
    ensures
        sense_views(r.0@) == senses_of(rows(cn@), rows(en@)),
        texts(r.1@) == trans_words(rows(cn@)),
{
    let pair_up: bool = en.len() == cn.len();
    let mut senses: Vec<Sense> = Vec::new();
    let mut tokens: Vec<String> = Vec::new();
    let ghost want = senses_of(rows(cn@), rows(en@));
    let mut i: usize = 0;
    assert(rows(cn@).take(0) =~= Seq::<Seq<char>>::empty());
    assert(texts(tokens@) =~= Seq::<Seq<char>>::empty());
    while i < cn.len()
        invariant
            i <= cn.len(),
            pair_up == (en.len() == cn.len()),
            want == senses_of(rows(cn@), rows(en@)),
            senses.len() == i,
            forall|j: int| 0 <= j < i ==> (#[trigger] senses@[j])@ == want[j],
            texts(tokens@) == trans_words(rows(cn@).take(i as int)),
        decreases cn.len() - i,
    {
        proof {
            let t = rows(cn@).take(i as int + 1);
            assert(t.drop_last() =~= rows(cn@).take(i as int));
            assert(t.last() == cn@[i as int]@);
            reveal_strlit("");
            assert(""@ =~= Seq::<char>::empty());
        }
        let (pos, text) = split_pos_prefix(&cn[i]);
        let w = keep_non_empty(split(&text, &NotCjk));
        push_rows(&mut tokens, &w);
        let s = Sense {
            pos: string_of(&pos),
            text: string_of(&text),
            note: if pair_up {
                string_of(&en[i])
            } else {
                String::new()
            },
            reg: String::new(),
        };
        assert(s@ =~= want[i as int]);
        senses.push(s);
        i = i + 1;
    }
    assert(rows(cn@).take(i as int) =~= rows(cn@));
    assert(sense_views(senses@) =~= want);
    (senses, tokens)
}

fn push_text(out: &mut Vec<String>, s: String)
    ensures
        texts(final(out)@) == texts(old(out)@).push(s@),
{
    proof {
        lemma_texts_push(out@, s);
    }
    out.push(s);
}

fn build_tags(tag: &str, collins: &str, oxford: &str) -> (r: Vec<String>)
    ensures
        texts(r@) == tags_of(tag@, collins@, oxford@),
{
    let c = chars_of(tag);
    let w = words(&c);
    let mut tags: Vec<String> = Vec::new();
    let mut i: usize = 0;
    assert(rows(w@).take(0) =~= Seq::<Seq<char>>::empty());
    assert(texts(tags@) =~= Seq::<Seq<char>>::empty());
    while i < w.len()
        invariant
            i <= w.len(),
            texts(tags@) == tag_names(rows(w@).take(i as int)),
        decreases w.len() - i,
    {
        proof {
            let t = rows(w@).take(i as int + 1);
            assert(t.drop_last() =~= rows(w@).take(i as int));
            assert(t.last() == w@[i as int]@);
        }
        match tag_label(&w[i]) {
            Some(name) => {
                let n = chars_of(name);
                push_text(&mut tags, string_of(&n));
            },
            None => {},
        }
        i = i + 1;
    }
    assert(rows(w@).take(i as int) =~= rows(w@));
    let col = chars_of(collins);
    match parse_i32(trim(&col)) {
        Some(n) => {
            if n > 0 {
                let m: i32 = if n < 5 {
                    n
                } else {
                    5
                };
                let mut out = chars_of("柯林斯 ");
                let ghost base = out@;
                let mut k: i32 = 0;
                assert(base + stars(0) =~= base);
                while k < m
                    invariant
                        0 <= k <= m,
                        out@ == base + stars(k as nat),
                    decreases m - k,
                {
                    out.push('★');
                    assert(stars((k + 1) as nat) =~= stars(k as nat).push('★'));
                    k = k + 1;
                }
                push_text(&mut tags, string_of(&out));
            }
        },
        None => {},
    }
    let ox = chars_of(oxford);
    if is_text(trim(&ox), "1") {
        let n = chars_of("牛津核心");
        push_text(&mut tags, string_of(&n));
    }
    tags
}

fn positive_rank(x: Option<Double>) -> (r: Option<Double>)
    ensures
        r == positive(x),
{
    match x {
        Some(d) => if (Double { bits: 0 }).less(d) {
            Some(d)
        } else {
            None
        },
        None => None,
    }
}

fn better_rank(bnc: Option<Double>, frq: Option<Double>) -> (r: Option<Double>)
    ensures
        r == rank_of(bnc, frq),
{
    match (positive_rank(bnc), positive_rank(frq)) {
        (Some(a), Some(b)) => if b.less(a) {
            Some(b)
        } else {
            Some(a)
        },
        (Some(a), None) => Some(a),
        (None, b) => b,
    }
}

fn trimmed_text(s: &str) -> (r: Vec<char>)
    ensures
        r@ == trimmed(s@),
{
    let c = chars_of(s);
    copy(trim(&c))
}

fn raw_text(translation: &str, definition: &str) -> (r: String)
    ensures
        r@ == raw_of(translation@, definition@),
{
    let mut out = trimmed_text(translation);
    let d = trimmed_text(definition);
    if d.len() > 0 {
        extend_str(&mut out, "\n— — —\n");
        extend(&mut out, &d);
    }
    string_of(&out)
}

/// Makes a headword of a row. A row without a word or a Chinese gloss gives none.
pub fn build(row: &EcRow<'_>) -> (r: Option<RawEn>)
    ensures
        match r {
            Some(x) => row_headword(*row) == Some(x@),
            None => row_headword(*row) is None,
        },
{
    let word = trimmed_text(row.word);
    if word.len() == 0 {
        return None;
    }
    let cn = lines(row.translation);
    let en = lines(row.definition);
    assert(rows(cn@).len() == cn@.len());
    if cn.len() == 0 {
        return None;
    }
    let (senses, trans) = build_senses(&cn, &en);
    let exchange = chars_of(row.exchange);
    let (forms, lemma) = parse_exchange(&exchange);
    let tags = build_tags(row.tag, row.collins, row.oxford);
    let phonetic = trimmed_text(row.phonetic);
    let mut reading: Vec<char> = Vec::new();
    assert(reading@ =~= Seq::<char>::empty());
    if phonetic.len() > 0 {
        extend_str(&mut reading, "/");
        extend(&mut reading, &phonetic);
        extend_str(&mut reading, "/");
        assert(reading@ =~= "/"@ + phonetic@ + "/"@);
    }
    let pos = chars_of(row.pos);
    let entry = Entry {
        kind: KIND_EN,
        word: string_of(&word),
        trad: String::new(),
        reading: string_of(&reading),
        tones: Vec::new(),
        freq: Single { bits: 0 },
        pct: Single { bits: 0 },
        pos: dominant_pos(&pos),
        forms,
        tags: join_strs(&tags, " · "),
        senses,
        examples: Vec::new(),
        raw: raw_text(row.translation, row.definition),
        xrefs: Vec::new(),
    };
    let r = RawEn {
        entry,
        rank: better_rank(row.bnc, row.frq),
        trans_tokens: sort_texts(trans),
        lemma,
    };
    proof {
        reveal_strlit("");
        assert(""@ =~= Seq::<char>::empty());
        assert(r@ =~= row_headword(*row)->0);
    }
    Some(r)
}

/// Letters, hyphens and apostrophes.
pub open spec fn is_word_char(c: char) -> bool {
    is_latin_spec(c) || c == '-' || c == '\''
}

/// Whether a headword is kept: ECDICT has millions of rows, many of them names and phrases
/// of no known frequency. Kept are those with a rank or a tag, and single words of 2 to 24
/// letters.
pub open spec fn kept(r: RawEnView) -> bool {
    ||| r.rank is Some
    ||| r.entry.tags.len() > 0
    ||| {
        &&& 2 <= r.entry.word.len() <= 24
        &&& forall|i: int| 0 <= i < r.entry.word.len() ==> is_word_char(#[trigger] r.entry.word[i])
    }
}

fn all_word_chars(w: &Vec<char>) -> (r: bool)
    ensures
        r == (forall|i: int| 0 <= i < w@.len() ==> is_word_char(#[trigger] w@[i])),
{
    let mut i: usize = 0;
    while i < w.len()
        invariant
            i <= w.len(),
            forall|j: int| 0 <= j < i ==> is_word_char(#[trigger] w@[j]),
        decreases w.len() - i,
    {
        if !(is_latin(w[i]) || w[i] == '-' || w[i] == '\'') {
            assert(!is_word_char(w@[i as int]));
            return false;
        }
        i = i + 1;
    }
    true
}

pub fn keep_en(r: &RawEn) -> (k: bool)
    ensures
        k == kept(r@),
{
    let w = chars_of(r.entry.word.as_str());
    if r.rank.is_some() || r.entry.tags.as_str().unicode_len() > 0 {
        return true;
    }
    2 <= w.len() && w.len() <= 24 && all_word_chars(&w)
}

} // verus!
