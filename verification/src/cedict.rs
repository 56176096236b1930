//! Lines of CC-CEDICT.
//!
//! A line reads `繁體 简体 [pin1 yin1] /gloss/gloss/`. The reading belongs to the word as a
//! whole: 银行 is `yin2 hang2`, which readings of its characters would not give.
use crate::letters::{lower, lowercase, lowers};
use crate::model::{sense_views, Entry, EntryView, Sense, SenseView, KIND_ZH};
use crate::pinyin::{
    initials_of, plain_text, reading_of, toned_text, tones_of, Reading, SyllableView,
};
use crate::single::Single;
use crate::sorted::{sort_texts, sorted_texts};
use crate::text::{
    chars_of, copy, drop_end, each_trimmed, extend_str, has_prefix, is_cjk, is_cjk_spec, join,
    join_strs, keep_non_empty, lemma_texts_push, lemma_until, non_empty, position, replace,
    replaced, rows, same, split, split_by, starts_with, str_same, string_of, texts, trim, trim_by,
    trim_each, trim_end_by, trim_matches, trimmed, until, words, words_of, CharClass, NotAlnum, One,
    PunctOrSpace,
};
use vstd::prelude::*;
use vstd::slice::*;
use vstd::string::*;

verus! {

/// A Chinese headword whose frequency is not known yet.
pub struct RawZh {
    pub entry: Entry,
    /// Plain pinyin for the `py` lane, and its spelling with `v` where it differs.
    pub pinyin_keys: Vec<String>,
    /// The initials for the `ini` lane.
    pub initials: String,
    /// The words of the English glosses for the `gloss` lane.
    pub gloss_tokens: Vec<String>,
}

/// What a headword holds.
#[verifier::ext_equal]
pub struct RawZhView {
    pub entry: EntryView,
    pub pinyin_keys: Seq<Seq<char>>,
    pub initials: Seq<char>,
    pub gloss_tokens: Seq<Seq<char>>,
}

impl View for RawZh {
    type V = RawZhView;

    open spec fn view(&self) -> RawZhView {
        RawZhView {
            entry: self.entry@,
            pinyin_keys: texts(self.pinyin_keys@),
            initials: self.initials@,
            gloss_tokens: texts(self.gloss_tokens@),
        }
    }
}

/// Han characters.
pub struct Cjk;

impl CharClass for Cjk {
    open spec fn holds(&self, c: char) -> bool {
        is_cjk_spec(c)
    }

    fn test(&self, c: char) -> (r: bool) {
        is_cjk(c)
    }
}

// ───────────────────────── markers in parentheses ─────────────────────────

/// Where, reading from `i` at nesting `depth`, the outermost parenthesis closes.
pub open spec fn closing(t: Seq<char>, i: int, depth: int) -> Option<int>
    decreases t.len() - i,
{
    if i < 0 || i >= t.len() {
        None
    } else if t[i] == '(' {
        closing(t, i + 1, depth + 1)
    } else if t[i] == ')' {
        if depth == 1 {
            Some(i)
        } else {
            closing(t, i + 1, depth - 1)
        }
    } else {
        closing(t, i + 1, depth)
    }
}

/// The register marker that a gloss opens with, and the gloss without it. A gloss that is
/// one parenthesis as a whole is left alone, or nothing would remain of it.
pub open spec fn leading_parens(s: Seq<char>) -> (Seq<char>, Seq<char>) {
    let t = trimmed(s);
    if t.len() == 0 || t[0] != '(' {
        (Seq::empty(), t)
    } else {
        match closing(t, 0, 0) {
            Some(i) => {
                let rest = trimmed(t.skip(i + 1));
                if rest.len() == 0 {
                    (Seq::empty(), t)
                } else {
                    (trimmed(t.subrange(1, i)), rest)
                }
            },
            None => (Seq::empty(), t),
        }
    }
}

fn find_closing(t: &[char]) -> (r: Option<usize>)
    requires
        t@.len() > 0,
        t@[0] == '(',
    ensures
        match r {
            Some(i) => closing(t@, 0, 0) == Some(i as int) && 1 <= i < t.len(),
            None => closing(t@, 0, 0) is None,
        },
{
    let mut depth: usize = 1;
    let mut i: usize = 1;
    assert(closing(t@, 0, 0) == closing(t@, 1, 1));
    while i < t.len()
        invariant
            1 <= i <= t.len(),
            1 <= depth <= i,
            closing(t@, 0, 0) == closing(t@, i as int, depth as int),
        decreases t.len() - i,
    {
        if t[i] == '(' {
            depth = depth + 1;
        } else if t[i] == ')' {
            if depth == 1 {
                return Some(i);
            }
            depth = depth - 1;
        }
        i = i + 1;
    }
    None
}

fn split_leading_parens(s: &[char]) -> (r: (Vec<char>, Vec<char>))
    ensures
        (r.0@, r.1@) == leading_parens(s@),
{
    let t = trim(s);
    let none: Vec<char> = Vec::new();
    assert(none@ =~= Seq::<char>::empty());
    if t.len() == 0 || t[0] != '(' {
        return (none, copy(t));
    }
    match find_closing(t) {
        Some(i) => {
            assert(t@.skip(i as int + 1) =~= t@.subrange(i as int + 1, t@.len() as int));
            let rest = trim(slice_subrange(t, i + 1, t.len()));
            if rest.len() == 0 {
                (none, copy(t))
            } else {
                (copy(trim(slice_subrange(t, 1, i))), copy(rest))
            }
        },
        None => (none, copy(t)),
    }
}

// ───────────────────────── cross references ─────────────────────────

/// What `out` ends in, as far as it is Han characters.
pub open spec fn cjk_tail(out: Seq<char>) -> Seq<char> {
    out.skip(trim_end_by(out, Cjk).len() as int)
}

/// Reads the rest of a gloss. A reading in square brackets is dropped, and the Han characters
/// before it are the word referred to; of `繁體|简体` the traditional form is dropped.
pub open spec fn refs_scan(rest: Seq<char>, out: Seq<char>, refs: Seq<Seq<char>>) -> (
    Seq<char>,
    Seq<Seq<char>>,
)
    decreases rest.len(),
{
    if rest.len() == 0 {
        (out, refs)
    } else {
        let end = until(rest, One(']')) as int;
        if rest[0] == '[' && end < rest.len() {
            let head = cjk_tail(out);
            refs_scan(
                rest.skip(end + 1),
                out,
                if head.len() == 0 {
                    refs
                } else {
                    refs.push(head)
                },
            )
        } else if rest[0] == '|' {
            refs_scan(rest.drop_first(), trim_end_by(out, Cjk), refs)
        } else {
            refs_scan(rest.drop_first(), out.push(rest[0]), refs)
        }
    }
}

/// The gloss as a reader sees it.
pub open spec fn clean_gloss(s: Seq<char>) -> Seq<char> {
    trimmed(refs_scan(s, Seq::empty(), Seq::empty()).0)
}

/// The words that a gloss refers to.
pub open spec fn gloss_refs(s: Seq<char>) -> Seq<Seq<char>> {
    refs_scan(s, Seq::empty(), Seq::empty()).1
}

/// References found before do not change what a gloss yields.
proof fn lemma_refs_append(rest: Seq<char>, out: Seq<char>, a: Seq<Seq<char>>, b: Seq<Seq<char>>)
    ensures
        refs_scan(rest, out, a + b).0 == refs_scan(rest, out, b).0,
        refs_scan(rest, out, a + b).1 == a + refs_scan(rest, out, b).1,
    decreases rest.len(),
{
    if rest.len() > 0 {
        let end = until(rest, One(']')) as int;
        let head = cjk_tail(out);
        if rest[0] == '[' && end < rest.len() {
            if head.len() == 0 {
                lemma_refs_append(rest.skip(end + 1), out, a, b);
            } else {
                lemma_refs_append(rest.skip(end + 1), out, a, b.push(head));
                assert((a + b).push(head) =~= a + b.push(head));
            }
        } else if rest[0] == '|' {
            lemma_refs_append(rest.drop_first(), trim_end_by(out, Cjk), a, b);
        } else {
            lemma_refs_append(rest.drop_first(), out.push(rest[0]), a, b);
        }
    }
}

fn extract_refs(s: &[char], xrefs: &mut Vec<String>) -> (r: Vec<char>)
    ensures
        r@ == clean_gloss(s@),
        texts(final(xrefs)@) == texts(old(xrefs)@) + gloss_refs(s@),
{
    let ghost start = texts(xrefs@);
    let mut out: Vec<char> = Vec::new();
    let mut rest: &[char] = s;
    proof {
        assert(out@ =~= Seq::<char>::empty());
        lemma_refs_append(s@, out@, start, Seq::empty());
        assert(start + Seq::<Seq<char>>::empty() =~= start);
    }
    while rest.len() > 0
        invariant
            refs_scan(rest@, out@, texts(xrefs@)) == refs_scan(s@, Seq::empty(), start),
        decreases rest.len(),
    {
        let first: char = rest[0];
        if first == '[' {
            let end: usize = position(rest, &One(']'));
            if end < rest.len() {
                let kept: usize = drop_end(&out, &Cjk).len();
                assert(cjk_tail(out@) =~= out@.subrange(kept as int, out@.len() as int));
                let head = slice_subrange(&out, kept, out.len());
                if head.len() > 0 {
                    let w = string_of(head);
                    proof {
                        lemma_texts_push(xrefs@, w);
                    }
                    xrefs.push(w);
                }
                assert(rest@.skip(end as int + 1) =~= rest@.subrange(
                    end as int + 1,
                    rest@.len() as int,
                ));
                rest = slice_subrange(rest, end + 1, rest.len());
                continue;
            }
        }
        assert(rest@.drop_first() =~= rest@.subrange(1, rest@.len() as int));
        if first == '|' {
            out = copy(drop_end(&out, &Cjk));
        } else {
            out.push(first);
        }
        rest = slice_subrange(rest, 1, rest.len());
    }
    copy(trim(&out))
}

// ───────────────────────── empty shells ─────────────────────────

/// Phrases that say nothing by themselves; what follows them does.
pub open spec fn is_stub(s: Seq<char>) -> bool {
    ||| s == "also pr"@
    ||| s == "also pr. or"@
    ||| s == "also pr or"@
    ||| s == "taiwan pr"@
    ||| s == "also written"@
    ||| s == "also known as"@
    ||| s == "also translated"@
    ||| s == "erhua variant of"@
    ||| s == "abbr. for"@
    ||| s == "abbr for"@
    ||| s == "see"@
    ||| s == "see also"@
    ||| s == "variant of"@
    ||| s == "old variant of"@
}

/// A gloss of which nothing is left once the reading in brackets is gone, such as
/// `also pr. [hua1]`. `variant of 裏|里[li3]` is none of these: 里 is left.
pub open spec fn degenerate(text: Seq<char>) -> bool {
    let t = trimmed(trim_end_by(trimmed(text), PunctOrSpace));
    t.len() == 0 || is_stub(trim_end_by(lowercase(t), PunctOrSpace))
}

fn text_is(s: &[char], lit: &str) -> (r: bool)
    ensures
        r == (s@ == lit@),
{
    let c = chars_of(lit);
    same(s, &c)
}

fn is_degenerate(text: &[char]) -> (r: bool)
    ensures
        r == degenerate(text@),
{
    let t = trim(drop_end(trim(text), &PunctOrSpace));
    if t.len() == 0 {
        return true;
    }
    let low = lower(t);
    let s = drop_end(&low, &PunctOrSpace);
    text_is(s, "also pr") || text_is(s, "also pr. or") || text_is(s, "also pr or") || text_is(
        s,
        "taiwan pr",
    ) || text_is(s, "also written") || text_is(s, "also known as") || text_is(s, "also translated")
        || text_is(s, "erhua variant of") || text_is(s, "abbr. for") || text_is(s, "abbr for")
        || text_is(s, "see") || text_is(s, "see also") || text_is(s, "variant of") || text_is(
        s,
        "old variant of",
    )
}

// ───────────────────────── words of a gloss ─────────────────────────

/// The parts of two characters or more, in lower case.
pub open spec fn long_tokens(parts: Seq<Seq<char>>) -> Seq<Seq<char>>
    decreases parts.len(),
{
    if parts.len() == 0 {
        Seq::empty()
    } else if parts.last().len() < 2 {
        long_tokens(parts.drop_last())
    } else {
        long_tokens(parts.drop_last()).push(lowercase(parts.last()))
    }
}

/// What the long parts are, one by one.
pub proof fn lemma_long_tokens(parts: Seq<Seq<char>>, w: Seq<char>)
    requires
        long_tokens(parts).contains(w),
    ensures
        exists|i: int|
            0 <= i < parts.len() && (#[trigger] parts[i]).len() >= 2 && lowercase(parts[i]) == w,
    decreases parts.len(),
{
    let k = choose|k: int| 0 <= k < long_tokens(parts).len() && long_tokens(parts)[k] == w;
    let a = long_tokens(parts.drop_last());
    if k < a.len() {
        assert(a[k] == w);
        lemma_long_tokens(parts.drop_last(), w);
        let i = choose|i: int|
            0 <= i < parts.drop_last().len() && (#[trigger] parts.drop_last()[i]).len() >= 2
                && lowercase(parts.drop_last()[i]) == w;
        assert(parts[i] == parts.drop_last()[i]);
    } else {
        assert(parts[parts.len() - 1] == parts.last());
    }
}

/// Long parts in lower case stay as they are.
pub proof fn lemma_long_tokens_kept(parts: Seq<Seq<char>>)
    requires
        forall|i: int|
            0 <= i < parts.len() ==> (#[trigger] parts[i]).len() >= 2 && lowercase(parts[i])
                == parts[i],
    ensures
        long_tokens(parts) == parts,
    decreases parts.len(),
{
    if parts.len() > 0 {
        let u = parts.drop_last();
        assert forall|i: int| 0 <= i < u.len() implies (#[trigger] u[i]).len() >= 2 && lowercase(
            u[i],
        ) == u[i] by {
            assert(u[i] == parts[i]);
        }
        lemma_long_tokens_kept(u);
        assert(parts[parts.len() - 1] == parts.last());
        assert(u.push(parts.last()) =~= parts);
    } else {
        assert(long_tokens(parts) =~= parts);
    }
}

/// The words of an English gloss.
pub open spec fn gloss_words(s: Seq<char>) -> Seq<Seq<char>> {
    long_tokens(split_by(s, NotAlnum))
}

/// Appends the parts of two characters or more, in lower case.
pub(crate) fn push_long_tokens(out: &mut Vec<String>, parts: &Vec<Vec<char>>)
    ensures
        texts(final(out)@) == texts(old(out)@) + long_tokens(rows(parts@)),
        forall|i: int|
            0 <= i < parts@.len() && (#[trigger] parts@[i])@.len() >= 2 ==> lowers(parts@[i]@),
{
    let ghost before = texts(out@);
    let mut i: usize = 0;
    assert(rows(parts@).take(0) =~= Seq::<Seq<char>>::empty());
    assert(texts(out@) =~= before + long_tokens(rows(parts@).take(0)));
    while i < parts.len()
        invariant
            i <= parts.len(),
            texts(out@) == before + long_tokens(rows(parts@).take(i as int)),
            forall|j: int|
                0 <= j < i && (#[trigger] parts@[j])@.len() >= 2 ==> lowers(parts@[j]@),
        decreases parts.len() - i,
    {
        proof {
            let t = rows(parts@).take(i as int + 1);
            assert(t.drop_last() =~= rows(parts@).take(i as int));
            assert(t.last() == parts@[i as int]@);
        }
        if parts[i].len() >= 2 {
            let w = lower(&parts[i]);
            let x = string_of(&w);
            proof {
                lemma_texts_push(out@, x);
            }
            out.push(x);
            assert(texts(out@) =~= before + long_tokens(rows(parts@).take(i as int + 1)));
        }
        i = i + 1;
    }
    assert(rows(parts@).take(i as int) =~= rows(parts@));
}

// ───────────────────────── a line ─────────────────────────

/// What the glosses of a line add up to.
#[verifier::ext_equal]
pub struct GlossView {
    pub xrefs: Seq<Seq<char>>,
    pub classifiers: Seq<Seq<char>>,
    pub senses: Seq<SenseView>,
    pub tokens: Seq<Seq<char>>,
}

/// A sense with a text and a register.
pub open spec fn plain_sense(text: Seq<char>, reg: Seq<char>) -> SenseView {
    SenseView { pos: Seq::empty(), text, note: Seq::empty(), reg }
}

/// Reads the glosses in order. A classifier (`CL:`) is no sense; a gloss that comes out empty
/// or as an empty shell is dropped, though what it refers to is kept.
pub open spec fn read_glosses(g: Seq<Seq<char>>) -> GlossView
    decreases g.len(),
{
    if g.len() == 0 {
        GlossView {
            xrefs: Seq::empty(),
            classifiers: Seq::empty(),
            senses: Seq::empty(),
            tokens: Seq::empty(),
        }
    } else {
        let a = read_glosses(g.drop_last());
        let x = g.last();
        if starts_with(x, "CL:"@) {
            GlossView { classifiers: a.classifiers.push(clean_gloss(x.skip(3))), ..a }
        } else {
            let (reg, rest) = leading_parens(x);
            let text = clean_gloss(rest);
            let xrefs = a.xrefs + gloss_refs(rest);
            if text.len() == 0 || degenerate(text) {
                GlossView { xrefs, ..a }
            } else {
                GlossView {
                    xrefs,
                    senses: a.senses.push(plain_sense(text, reg)),
                    tokens: a.tokens + gloss_words(text),
                    ..a
                }
            }
        }
    }
}

/// Every gloss that does not come out empty, as it is.
pub open spec fn all_glosses(g: Seq<Seq<char>>) -> Seq<SenseView>
    decreases g.len(),
{
    if g.len() == 0 {
        Seq::empty()
    } else {
        let (reg, rest) = leading_parens(g.last());
        let text = clean_gloss(rest);
        if text.len() == 0 {
            all_glosses(g.drop_last())
        } else {
            all_glosses(g.drop_last()).push(plain_sense(text, reg))
        }
    }
}

/// The texts that are neither `a` nor `b`.
pub open spec fn without(s: Seq<Seq<char>>, a: Seq<char>, b: Seq<char>) -> Seq<Seq<char>>
    decreases s.len(),
{
    if s.len() == 0 {
        Seq::empty()
    } else if s.last() == a || s.last() == b {
        without(s.drop_last(), a, b)
    } else {
        without(s.drop_last(), a, b).push(s.last())
    }
}

/// At most the first `n`.
pub open spec fn at_most<T>(s: Seq<T>, n: int) -> Seq<T> {
    if s.len() <= n {
        s
    } else {
        s.take(n)
    }
}

/// The glosses of a line: what stands between slashes, trimmed, the empty ones left out.
pub open spec fn glosses_of(body: Seq<char>) -> Seq<Seq<char>> {
    non_empty(each_trimmed(split_by(body, One('/'))))
}

/// The keys for the `py` lane: plain pinyin, and its spelling with `v` where it differs.
pub open spec fn pinyin_keys_of(r: Seq<SyllableView>) -> Seq<Seq<char>> {
    let p = plain_text(r, false);
    let v = plain_text(r, true);
    non_empty(
        if v == p {
            seq![p]
        } else {
            seq![p, v]
        },
    )
}

/// The headword of a line with its parts found: traditional and simplified form, reading and
/// glosses.
pub open spec fn headword(
    trad: Seq<char>,
    simp: Seq<char>,
    pinyin: Seq<char>,
    body: Seq<char>,
) -> Option<RawZhView> {
    let g = glosses_of(body);
    let read = read_glosses(g);
    let senses = if read.senses.len() == 0 {
        all_glosses(g)
    } else {
        read.senses
    };
    let r = reading_of(pinyin);
    if senses.len() == 0 {
        None
    } else {
        Some(
            RawZhView {
                entry: EntryView {
                    kind: KIND_ZH,
                    word: simp,
                    trad: if trad == simp {
                        Seq::empty()
                    } else {
                        trad
                    },
                    reading: toned_text(r),
                    tones: tones_of(r),
                    freq: Single { bits: 0 },
                    pct: Single { bits: 0 },
                    pos: Seq::empty(),
                    forms: if read.classifiers.len() == 0 {
                        Seq::empty()
                    } else {
                        "量词 "@ + join(read.classifiers, " · "@)
                    },
                    tags: Seq::empty(),
                    senses,
                    examples: Seq::empty(),
                    raw: replaced(trim_by(body, One('/')), seq!['/'], " / "@),
                    xrefs: at_most(without(sorted_texts(read.xrefs), simp, trad), 8),
                },
                pinyin_keys: pinyin_keys_of(r),
                initials: initials_of(r),
                gloss_tokens: sorted_texts(read.tokens),
            },
        )
    }
}

/// The headword of a line. Blank lines, comments and lines of another shape have none.
pub open spec fn line_headword(line: Seq<char>) -> Option<RawZhView> {
    let l = trimmed(line);
    let lb = until(l, One('[')) as int;
    let rb = lb + until(l.skip(lb), One(']'));
    if l.len() == 0 || l[0] == '#' || lb >= l.len() || rb >= l.len() {
        None
    } else {
        let parts = words_of(trimmed(l.take(lb)));
        if parts.len() < 2 {
            None
        } else {
            headword(parts[0], parts[1], l.subrange(lb + 1, rb), trimmed(l.skip(rb + 1)))
        }
    }
}

/// The glosses of a line as they are read.
struct Glosses {
    xrefs: Vec<String>,
    classifiers: Vec<String>,
    senses: Vec<Sense>,
    tokens: Vec<String>,
}

spec fn glosses_view(g: Glosses) -> GlossView {
    GlossView {
        xrefs: texts(g.xrefs@),
        classifiers: texts(g.classifiers@),
        senses: sense_views(g.senses@),
        tokens: texts(g.tokens@),
    }
}

fn make_sense(text: &Vec<char>, reg: &Vec<char>) -> (r: Sense)
    ensures
        r@ == plain_sense(text@, reg@),
{
    let r = Sense {
        pos: String::new(),
        text: string_of(text),
        note: String::new(),
        reg: string_of(reg),
    };
    proof {
        reveal_strlit("");
        assert(""@ =~= Seq::<char>::empty());
    }
    r
}

fn read_gloss(a: &mut Glosses, g: &Vec<char>, Ghost(done): Ghost<Seq<Seq<char>>>)
    requires
        glosses_view(*old(a)) == read_glosses(done),
    ensures
        glosses_view(*final(a)) == read_glosses(done.push(g@)),
{
    let ghost was = glosses_view(*a);
    let ghost next = read_glosses(done.push(g@));
    assert(done.push(g@).drop_last() =~= done);
    let cl = chars_of("CL:");
    proof {
        reveal_strlit("CL:");
        assert("CL:"@.len() == 3);
    }
    if has_prefix(g, &cl) {
        assert(g@.skip(3) =~= g@.subrange(3, g@.len() as int));
        let mut ignored: Vec<String> = Vec::new();
        let c = extract_refs(slice_subrange(g, 3, g.len()), &mut ignored);
        let s = string_of(&c);
        proof {
            lemma_texts_push(a.classifiers@, s);
        }
        a.classifiers.push(s);
        assert(glosses_view(*a) =~= next);
        return ;
    }
    let (reg, rest) = split_leading_parens(g);
    let text = extract_refs(&rest, &mut a.xrefs);
    if text.len() == 0 || is_degenerate(&text) {
        assert(glosses_view(*a) =~= next);
        return ;
    }
    let parts = split(&text, &NotAlnum);
    push_long_tokens(&mut a.tokens, &parts);
    let s = make_sense(&text, &reg);
    let ghost ss = a.senses@;
    a.senses.push(s);
    assert(sense_views(a.senses@) =~= sense_views(ss).push(s@));
    assert(glosses_view(*a) =~= next);
}

fn read_all(g: &Vec<Vec<char>>) -> (r: Glosses)
    ensures
        glosses_view(r) == read_glosses(rows(g@)),
{
    let mut a = Glosses {
        xrefs: Vec::new(),
        classifiers: Vec::new(),
        senses: Vec::new(),
        tokens: Vec::new(),
    };
    let mut i: usize = 0;
    assert(rows(g@).take(0) =~= Seq::<Seq<char>>::empty());
    assert(glosses_view(a) =~= read_glosses(rows(g@).take(0)));
    while i < g.len()
        invariant
            i <= g.len(),
            glosses_view(a) == read_glosses(rows(g@).take(i as int)),
        decreases g.len() - i,
    {
        read_gloss(&mut a, &g[i], Ghost(rows(g@).take(i as int)));
        assert(rows(g@).take(i as int + 1) =~= rows(g@).take(i as int).push(g@[i as int]@));
        i = i + 1;
    }
    assert(rows(g@).take(i as int) =~= rows(g@));
    a
}

fn keep_all(g: &Vec<Vec<char>>) -> (r: Vec<Sense>)
    ensures
        sense_views(r@) == all_glosses(rows(g@)),
{
    let mut r: Vec<Sense> = Vec::new();
    let mut i: usize = 0;
    assert(rows(g@).take(0) =~= Seq::<Seq<char>>::empty());
    assert(sense_views(r@) =~= Seq::<SenseView>::empty());
    while i < g.len()
        invariant
            i <= g.len(),
            sense_views(r@) == all_glosses(rows(g@).take(i as int)),
        decreases g.len() - i,
    {
        proof {
            let t = rows(g@).take(i as int + 1);
            assert(t.drop_last() =~= rows(g@).take(i as int));
            assert(t.last() == g@[i as int]@);
        }
        let (reg, rest) = split_leading_parens(&g[i]);
        let mut ignored: Vec<String> = Vec::new();
        let text = extract_refs(&rest, &mut ignored);
        if text.len() > 0 {
            let s = make_sense(&text, &reg);
            let ghost was = r@;
            r.push(s);
            assert(sense_views(r@) =~= sense_views(was).push(s@));
        }
        i = i + 1;
    }
    assert(rows(g@).take(i as int) =~= rows(g@));
    r
}

fn drop_two(s: &Vec<String>, a: &str, b: &str) -> (r: Vec<String>)
    ensures
        texts(r@) == without(texts(s@), a@, b@),
{
    let mut r: Vec<String> = Vec::new();
    let mut i: usize = 0;
    assert(texts(s@).take(0) =~= Seq::<Seq<char>>::empty());
    assert(texts(r@) =~= Seq::<Seq<char>>::empty());
    while i < s.len()
        invariant
            i <= s.len(),
            texts(r@) == without(texts(s@).take(i as int), a@, b@),
        decreases s.len() - i,
    {
        proof {
            let t = texts(s@).take(i as int + 1);
            assert(t.drop_last() =~= texts(s@).take(i as int));
            assert(t.last() == s@[i as int]@);
        }
        if !str_same(s[i].as_str(), a) && !str_same(s[i].as_str(), b) {
            let x = s[i].clone();
            proof {
                lemma_texts_push(r@, x);
            }
            r.push(x);
        }
        i = i + 1;
    }
    assert(texts(s@).take(i as int) =~= texts(s@));
    r
}

fn pinyin_keys(reading: &Reading) -> (r: Vec<String>)
    ensures
        texts(r@) == pinyin_keys_of(reading@),
{
    let p = reading.plain();
    let v = reading.plain_v();
    let mut r: Vec<String> = Vec::new();
    let differ: bool = !str_same(v.as_str(), p.as_str());
    let ghost pv = p@;
    let ghost vv = v@;
    reveal_with_fuel(non_empty, 3);
    proof {
        assert(seq![pv].drop_last() =~= Seq::<Seq<char>>::empty());
        assert(seq![pv, vv].drop_last() =~= seq![pv]);
        assert(seq![pv, vv].last() == vv);
        assert(seq![pv].last() == pv);
    }
    if !p.as_str().is_empty() {
        r.push(p);
    }
    let ghost one = texts(r@);
    assert(one =~= non_empty(seq![pv]));
    if differ && !v.as_str().is_empty() {
        proof {
            lemma_texts_push(r@, v);
        }
        r.push(v);
    }
    r
}

fn forms_line(classifiers: &Vec<String>) -> (r: String)
    ensures
        r@ == if classifiers@.len() == 0 {
            Seq::empty()
        } else {
            "量词 "@ + join(texts(classifiers@), " · "@)
        },
{
    if classifiers.len() == 0 {
        return String::new();
    }
    let mut out = chars_of("量词 ");
    let list = join_strs(classifiers, " · ");
    extend_str(&mut out, list.as_str());
    string_of(&out)
}

fn build_headword(trad: String, simp: String, pinyin: &[char], body: &[char]) -> (r: Option<RawZh>)
    ensures
        match r {
            Some(x) => headword(trad@, simp@, pinyin@, body@) == Some(x@),
            None => headword(trad@, simp@, pinyin@, body@) is None,
        },
{
    let glosses = keep_non_empty(trim_each(split(body, &One('/'))));
    let read = read_all(&glosses);
    let ghost rv = read_glosses(glosses_of(body@));
    assert(glosses_view(read) == rv);
    let Glosses { xrefs, classifiers, senses, tokens } = read;
    let senses = if senses.len() == 0 {
        keep_all(&glosses)
    } else {
        senses
    };
    if senses.len() == 0 {
        return None;
    }
    let reading = Reading::parse(string_of(pinyin).as_str());
    let mut refs = drop_two(&sort_texts(xrefs), simp.as_str(), trad.as_str());
    let ghost refs_before = texts(refs@);
    if refs.len() > 8 {
        refs.truncate(8);
    }
    assert(texts(refs@) =~= at_most(refs_before, 8));
    let slash: [char; 1] = ['/'];
    assert(slash@ =~= seq!['/']);
    let gap = chars_of(" / ");
    let raw = replace(trim_matches(body, &One('/')), &slash, &gap);
    let forms = forms_line(&classifiers);
    let keys = pinyin_keys(&reading);
    let same_form: bool = str_same(trad.as_str(), simp.as_str());
    let entry = Entry {
        kind: KIND_ZH,
        word: simp.clone(),
        trad: if same_form {
            String::new()
        } else {
            trad.clone()
        },
        reading: reading.toned(),
        tones: reading.tones(),
        freq: Single { bits: 0 },
        pct: Single { bits: 0 },
        pos: String::new(),
        forms,
        tags: String::new(),
        senses,
        examples: Vec::new(),
        raw: string_of(&raw),
        xrefs: refs,
    };
    let r = RawZh {
        entry,
        pinyin_keys: keys,
        initials: reading.initials(),
        gloss_tokens: sort_texts(tokens),
    };
    proof {
        reveal_strlit("");
        assert(""@ =~= Seq::<char>::empty());
        assert(r@ =~= headword(trad@, simp@, pinyin@, body@)->0);
    }
    Some(r)
}

/// Reads one line of CC-CEDICT. Comments and lines of another shape give nothing.
pub fn parse_line(line: &str) -> (r: Option<RawZh>)
    ensures
        match r {
            Some(x) => line_headword(line@) == Some(x@),
            None => line_headword(line@) is None,
        },
{
    let c = chars_of(line);
    let l = trim(&c);
    if l.len() == 0 || l[0] == '#' {
        return None;
    }
    let lb: usize = position(l, &One('['));
    if lb == l.len() {
        return None;
    }
    assert(l@.skip(lb as int) =~= l@.subrange(lb as int, l@.len() as int));
    let tail = slice_subrange(l, lb, l.len());
    let close: usize = position(tail, &One(']'));
    if close == tail.len() {
        return None;
    }
    let rb: usize = lb + close;
    proof {
        lemma_until(l@, One('['));
        lemma_until(tail@, One(']'));
        assert(l@[lb as int] == '[');
        assert(tail@[close as int] == ']');
        assert(rb > lb);
        assert(l@.take(lb as int) =~= l@.subrange(0, lb as int));
        assert(l@.skip(rb as int + 1) =~= l@.subrange(rb as int + 1, l@.len() as int));
    }
    let parts = words(trim(slice_subrange(l, 0, lb)));
    if parts.len() < 2 {
        assert(rows(parts@).len() < 2);
        return None;
    }
    let trad = string_of(&parts[0]);
    let simp = string_of(&parts[1]);
    proof {
        assert(rows(parts@)[0] == trad@);
        assert(rows(parts@)[1] == simp@);
    }
    build_headword(
        trad,
        simp,
        slice_subrange(l, lb + 1, rb),
        trim(slice_subrange(l, rb + 1, l.len())),
    )
}

proof fn lemma_read_is_kept(g: Seq<Seq<char>>)
    ensures
        read_glosses(g).senses.len() > 0 ==> all_glosses(g).len() > 0,
    decreases g.len(),
{
    if g.len() > 0 {
        lemma_read_is_kept(g.drop_last());
    }
}

/// A line is dropped only where no gloss of it has any text. One whose glosses are all empty
/// shells is kept: ids are given by line, and the rewritten senses go by id.
pub proof fn law_shells_do_not_lose_an_entry(
    trad: Seq<char>,
    simp: Seq<char>,
    pinyin: Seq<char>,
    body: Seq<char>,
)
    ensures
        headword(trad, simp, pinyin, body) is Some <==> all_glosses(glosses_of(body)).len() > 0,
{
    lemma_read_is_kept(glosses_of(body));
}

proof fn lemma_without(s: Seq<Seq<char>>, a: Seq<char>, b: Seq<char>)
    ensures
        forall|i: int|
            0 <= i < without(s, a, b).len() ==> (#[trigger] without(s, a, b)[i]) != a && without(
                s,
                a,
                b,
            )[i] != b,
    decreases s.len(),
{
    if s.len() > 0 {
        lemma_without(s.drop_last(), a, b);
        let short = without(s.drop_last(), a, b);
        assert forall|i: int| 0 <= i < without(s, a, b).len() implies (#[trigger] without(
            s,
            a,
            b,
        )[i]) != a && without(s, a, b)[i] != b by {
            if i < short.len() {
                assert(short[i] == without(s, a, b)[i]);
            }
        }
    }
}

/// A headword refers to at most eight others, and never to itself.
pub proof fn law_no_reference_to_itself(
    trad: Seq<char>,
    simp: Seq<char>,
    pinyin: Seq<char>,
    body: Seq<char>,
)
    ensures
        headword(trad, simp, pinyin, body) matches Some(h) ==> h.entry.xrefs.len() <= 8 && forall|
            i: int,
        |
            0 <= i < h.entry.xrefs.len() ==> (#[trigger] h.entry.xrefs[i]) != simp
                && h.entry.xrefs[i] != trad,
{
    let read = read_glosses(glosses_of(body));
    lemma_without(sorted_texts(read.xrefs), simp, trad);
}

} // verus!
