//! What a line of CC-CEDICT comes to: how its glosses add up, and what becomes of each.
use crate::cedict::{
    all_glosses, at_most, clean_gloss, closing, degenerate, gloss_refs, gloss_words, glosses_of,
    headword, is_stub, leading_parens, line_headword, long_tokens, read_glosses, refs_scan,
    without, Cjk,
};
use crate::letters::lowercase;
use crate::model::SenseView;
use crate::pinyin::{initials_of, plain_text, reading_of, toned_text, tones_of};
use crate::sorted::{law_sorted_texts_are_sorted, sorted_texts, text_less, text_order};
use crate::text::{
    each_trimmed, ends_bare, is_cjk_spec, is_space_spec, join, lacks, lemma_non_empty_cat,
    lemma_split_cat, lemma_trimmed_keeps, lemma_until, lemma_until_is, non_empty, replaced,
    split_by, starts_with, trim_by, trim_end_by, trim_start_by, trimmed, until, words_of,
    CharClass, NotAlnum, One, PunctOrSpace, Space,
};
use vstd::prelude::*;
use vstd::string::*;

verus! {

// ───────────────────────── glosses add up ─────────────────────────

/// Glosses are read one by one, whatever came before: what two lists of glosses hold together
/// is what the first holds and then what the second holds.
pub proof fn law_glosses_add_up(a: Seq<Seq<char>>, b: Seq<Seq<char>>)
    ensures
        read_glosses(a + b).senses == read_glosses(a).senses + read_glosses(b).senses,
        read_glosses(a + b).tokens == read_glosses(a).tokens + read_glosses(b).tokens,
        read_glosses(a + b).xrefs == read_glosses(a).xrefs + read_glosses(b).xrefs,
        read_glosses(a + b).classifiers == read_glosses(a).classifiers + read_glosses(
            b,
        ).classifiers,
        all_glosses(a + b) == all_glosses(a) + all_glosses(b),
    decreases b.len(),
{
    let x = read_glosses(a + b);
    let p = read_glosses(a);
    let q = read_glosses(b);
    if b.len() == 0 {
        assert(a + b =~= a);
    } else {
        law_glosses_add_up(a, b.drop_last());
        assert((a + b).drop_last() =~= a + b.drop_last());
        assert((a + b).last() == b.last());
    }
    assert(x.senses =~= p.senses + q.senses);
    assert(x.tokens =~= p.tokens + q.tokens);
    assert(x.xrefs =~= p.xrefs + q.xrefs);
    assert(x.classifiers =~= p.classifiers + q.classifiers);
    assert(all_glosses(a + b) =~= all_glosses(a) + all_glosses(b));
}

proof fn lemma_glosses_cat(a: Seq<char>, b: Seq<char>)
    ensures
        glosses_of(a + seq!['/'] + b) == glosses_of(a) + glosses_of(b),
{
    lemma_split_cat(a, '/', b, One('/'));
    let x = split_by(a, One('/'));
    let y = split_by(b, One('/'));
    assert(each_trimmed(x + y) =~= each_trimmed(x) + each_trimmed(y));
    lemma_non_empty_cat(each_trimmed(x), each_trimmed(y));
}

/// Two bodies with a slash between them give the senses of the first and then those of the
/// second, however many there are, and the words of both.
pub proof fn law_senses_of_a_line_add_up(
    trad: Seq<char>,
    simp: Seq<char>,
    pinyin: Seq<char>,
    a: Seq<char>,
    b: Seq<char>,
)
    requires
        read_glosses(glosses_of(a)).senses.len() > 0,
        read_glosses(glosses_of(b)).senses.len() > 0,
    ensures
        headword(trad, simp, pinyin, a) is Some,
        headword(trad, simp, pinyin, b) is Some,
        headword(trad, simp, pinyin, a + seq!['/'] + b) matches Some(h) && h.entry.senses
            == headword(trad, simp, pinyin, a)->0.entry.senses + headword(
            trad,
            simp,
            pinyin,
            b,
        )->0.entry.senses,
        forall|w: Seq<char>| #[trigger]
            headword(trad, simp, pinyin, a + seq!['/'] + b)->0.gloss_tokens.contains(w)
                <==> headword(trad, simp, pinyin, a)->0.gloss_tokens.contains(w) || headword(
                trad,
                simp,
                pinyin,
                b,
            )->0.gloss_tokens.contains(w),
{
    lemma_glosses_cat(a, b);
    let x = glosses_of(a);
    let y = glosses_of(b);
    law_glosses_add_up(x, y);
    let s = read_glosses(x).tokens;
    let t = read_glosses(y).tokens;
    law_sorted_texts_are_sorted(s);
    law_sorted_texts_are_sorted(t);
    law_sorted_texts_are_sorted(s + t);
    assert forall|w: Seq<char>| #[trigger] sorted_texts(s + t).contains(w) <==> sorted_texts(
        s,
    ).contains(w) || sorted_texts(t).contains(w) by {
        if s.contains(w) {
            let i = choose|i: int| 0 <= i < s.len() && s[i] == w;
            assert((s + t)[i] == w);
        }
        if t.contains(w) {
            let i = choose|i: int| 0 <= i < t.len() && t[i] == w;
            assert((s + t)[s.len() + i] == w);
        }
        if (s + t).contains(w) {
            let i = choose|i: int| 0 <= i < (s + t).len() && (s + t)[i] == w;
            if i < s.len() {
                assert(s[i] == w);
            } else {
                assert(t[i - s.len()] == w);
            }
        }
    }
}

// ───────────────────────── one gloss ─────────────────────────

proof fn lemma_no_glosses()
    ensures
        read_glosses(Seq::empty()).senses == Seq::<SenseView>::empty(),
        read_glosses(Seq::empty()).tokens == Seq::<Seq<char>>::empty(),
        read_glosses(Seq::empty()).xrefs == Seq::<Seq<char>>::empty(),
        read_glosses(Seq::empty()).classifiers == Seq::<Seq<char>>::empty(),
        all_glosses(Seq::empty()) == Seq::<SenseView>::empty(),
{
}

/// A text in which nothing is marked up: no reading in square brackets and no bar.
pub open spec fn unmarked(s: Seq<char>) -> bool {
    lacks(s, '[') && lacks(s, '|')
}

/// The phrases that say nothing by themselves.
pub open spec fn says_nothing(s: Seq<char>) -> bool {
    seq![
        "also pr"@,
        "also pr. or"@,
        "also pr or"@,
        "taiwan pr"@,
        "also written"@,
        "also known as"@,
        "also translated"@,
        "erhua variant of"@,
        "abbr. for"@,
        "abbr for"@,
        "see"@,
        "see also"@,
        "variant of"@,
        "old variant of"@,
    ].contains(s)
}

/// A text from which blanks and ASCII punctuation at its end are taken off.
pub open spec fn unpunctuated(s: Seq<char>) -> Seq<char>
    decreases s.len(),
{
    if s.len() == 0 {
        s
    } else if is_space_spec(s.last()) || ('!' <= s.last() <= '/') || (':' <= s.last() <= '@') || (
    '[' <= s.last() <= '`') || ('{' <= s.last() <= '~') {
        unpunctuated(s.drop_last())
    } else {
        s
    }
}

proof fn lemma_unpunctuated(s: Seq<char>)
    ensures
        unpunctuated(s) == trim_end_by(s, PunctOrSpace),
    decreases s.len(),
{
    if s.len() > 0 {
        lemma_unpunctuated(s.drop_last());
    }
}

/// A gloss of which nothing but a phrase is left.
pub open spec fn shell(text: Seq<char>) -> bool {
    let t = trimmed(unpunctuated(trimmed(text)));
    t.len() == 0 || says_nothing(unpunctuated(lowercase(t)))
}

proof fn lemma_shell(text: Seq<char>)
    ensures
        shell(text) == degenerate(text),
{
    let t = trimmed(trim_end_by(trimmed(text), PunctOrSpace));
    lemma_unpunctuated(trimmed(text));
    lemma_unpunctuated(lowercase(t));
    let s = unpunctuated(lowercase(t));
    let all = seq![
        "also pr"@,
        "also pr. or"@,
        "also pr or"@,
        "taiwan pr"@,
        "also written"@,
        "also known as"@,
        "also translated"@,
        "erhua variant of"@,
        "abbr. for"@,
        "abbr for"@,
        "see"@,
        "see also"@,
        "variant of"@,
        "old variant of"@,
    ];
    assert(all[0] == "also pr"@ && all[1] == "also pr. or"@ && all[2] == "also pr or"@ && all[3]
        == "taiwan pr"@ && all[4] == "also written"@ && all[5] == "also known as"@ && all[6]
        == "also translated"@ && all[7] == "erhua variant of"@ && all[8] == "abbr. for"@ && all[9]
        == "abbr for"@ && all[10] == "see"@ && all[11] == "see also"@ && all[12] == "variant of"@
        && all[13] == "old variant of"@);
    if is_stub(s) {
        assert(all.contains(s));
    }
    if all.contains(s) {
        let i = choose|i: int| 0 <= i < all.len() && all[i] == s;
        assert(is_stub(s));
    }
}

/// What has no mark-up is copied as it is.
proof fn lemma_scan_unmarked(
    a: Seq<char>,
    rest: Seq<char>,
    out: Seq<char>,
    refs: Seq<Seq<char>>,
)
    requires
        unmarked(a),
    ensures
        refs_scan(a + rest, out, refs) == refs_scan(rest, out + a, refs),
    decreases a.len(),
{
    if a.len() == 0 {
        assert(a + rest =~= rest);
        assert(out + a =~= out);
    } else {
        let t = a.drop_first();
        assert(a[0] != '[' && a[0] != '|');
        assert forall|i: int| 0 <= i < t.len() implies #[trigger] t[i] != '[' && t[i] != '|' by {
            assert(t[i] == a[i + 1]);
        }
        lemma_scan_unmarked(t, rest, out.push(a[0]), refs);
        assert((a + rest).drop_first() =~= t + rest);
        assert(out.push(a[0]) + t =~= out + a);
    }
}

/// A gloss without mark-up that is no classifier, opens with no bracket and is more than a
/// phrase is a sense by itself: its text is the gloss, and its words are indexed.
pub proof fn law_a_plain_gloss_is_a_sense(x: Seq<char>)
    requires
        x.len() > 0,
        ends_bare(x),
        unmarked(x),
        x[0] != '(',
        !"CL:"@.is_prefix_of(x),
        !shell(x),
    ensures
        read_glosses(seq![x]).senses == seq![
            SenseView { pos: Seq::empty(), text: x, note: Seq::empty(), reg: Seq::empty() },
        ],
        read_glosses(seq![x]).tokens == gloss_words(x),
        read_glosses(seq![x]).xrefs.len() == 0,
        read_glosses(seq![x]).classifiers.len() == 0,
{
    let e = Seq::<char>::empty();
    lemma_trimmed_keeps(x);
    lemma_shell(x);
    lemma_scan_unmarked(x, e, e, Seq::empty());
    assert(x + e =~= x);
    assert(e + x =~= x);
    if starts_with(x, "CL:"@) {
        assert("CL:"@ =~= x.take("CL:"@.len() as int));
        assert("CL:"@.is_prefix_of(x));
    }
    let g = seq![x];
    lemma_no_glosses();
    assert(g.drop_last() =~= Seq::<Seq<char>>::empty());
    assert(g.last() == x);
    assert(read_glosses(g).senses =~= seq![
        SenseView { pos: e, text: x, note: e, reg: e },
    ]);
    assert(read_glosses(g).tokens =~= gloss_words(x));
}

/// A note in brackets at the front of a gloss is its register, and the rest its text.
pub proof fn law_a_note_in_front_is_the_register(reg: Seq<char>, x: Seq<char>)
    requires
        lacks(reg, '('),
        lacks(reg, ')'),
        x.len() > 0,
        ends_bare(x),
        unmarked(x),
        !shell(x),
    ensures
        read_glosses(seq![seq!['('] + reg + seq![')', ' '] + x]).senses == seq![
            SenseView { pos: Seq::empty(), text: x, note: Seq::empty(), reg: trimmed(reg) },
        ],
{
    let e = Seq::<char>::empty();
    let t = seq!['('] + reg + seq![')', ' '] + x;
    let n = reg.len() as int;
    assert(t[0] == '(' && t.last() == x.last());
    lemma_trimmed_keeps(t);
    assert forall|i: int| 1 <= i < n + 1 implies #[trigger] t[i] != '(' && t[i] != ')' by {
        assert(t[i] == reg[i - 1]);
    }
    assert(t[n + 1] == ')');
    lemma_closing(t, 1, n + 1);
    assert(closing(t, 0, 0) == Some(n + 1));
    assert(t.subrange(1, n + 1) =~= reg);
    let rest = seq![' '] + x;
    assert(t.skip(n + 2) =~= rest);
    assert(rest.drop_first() =~= x);
    assert(trim_start_by(x, Space) == x);
    assert(trim_start_by(rest, Space) == x);
    assert(trim_end_by(x, Space) == x);
    lemma_shell(x);
    lemma_trimmed_keeps(x);
    lemma_scan_unmarked(x, e, e, Seq::empty());
    assert(x + e =~= x);
    assert(e + x =~= x);
    reveal_strlit("CL:");
    if starts_with(t, "CL:"@) {
        assert(t.take(3)[0] == "CL:"@[0]);
    }
    let g = seq![t];
    lemma_no_glosses();
    assert(g.drop_last() =~= Seq::<Seq<char>>::empty());
    assert(g.last() == t);
    assert(read_glosses(g).senses =~= seq![
        SenseView { pos: e, text: x, note: e, reg: trimmed(reg) },
    ]);
}

proof fn lemma_closing(t: Seq<char>, i: int, k: int)
    requires
        0 <= i <= k < t.len(),
        t[k] == ')',
        forall|j: int| i <= j < k ==> #[trigger] t[j] != '(' && t[j] != ')',
    ensures
        closing(t, i, 1) == Some(k),
    decreases k - i,
{
    if i < k {
        lemma_closing(t, i + 1, k);
    }
}

/// A gloss of which only a phrase is left gives no sense and no words, unless the line has
/// nothing else.
pub proof fn law_shells_are_no_senses(x: Seq<char>)
    requires
        ends_bare(x),
        unmarked(x),
        x.len() > 0,
        x[0] != '(',
        !"CL:"@.is_prefix_of(x),
        shell(x),
    ensures
        read_glosses(seq![x]).senses.len() == 0,
        read_glosses(seq![x]).tokens.len() == 0,
        all_glosses(seq![x]) == seq![
            SenseView { pos: Seq::empty(), text: x, note: Seq::empty(), reg: Seq::empty() },
        ],
{
    let e = Seq::<char>::empty();
    lemma_trimmed_keeps(x);
    lemma_shell(x);
    lemma_scan_unmarked(x, e, e, Seq::empty());
    assert(x + e =~= x);
    assert(e + x =~= x);
    if starts_with(x, "CL:"@) {
        assert("CL:"@ =~= x.take("CL:"@.len() as int));
        assert("CL:"@.is_prefix_of(x));
    }
    let g = seq![x];
    lemma_no_glosses();
    assert(g.drop_last() =~= Seq::<Seq<char>>::empty());
    assert(g.last() == x);
    assert(all_glosses(g) =~= seq![SenseView { pos: e, text: x, note: e, reg: e }]);
}

/// Han characters at the end of a text, behind one that is none.
proof fn lemma_han_tail(out: Seq<char>, h: Seq<char>)
    requires
        out.len() > 0 ==> !is_cjk_spec(out.last()),
        forall|i: int| 0 <= i < h.len() ==> is_cjk_spec(#[trigger] h[i]),
    ensures
        trim_end_by(out + h, Cjk) == out,
    decreases h.len(),
{
    if h.len() == 0 {
        assert(out + h =~= out);
    } else {
        assert((out + h).last() == h[h.len() - 1]);
        assert((out + h).drop_last() =~= out + h.drop_last());
        lemma_han_tail(out, h.drop_last());
    }
}

/// A reference `繁|简[pin1 yin1]` in a gloss: the traditional form and the reading are taken
/// out of the text, and the simplified form is referred to.
pub proof fn law_references_are_taken_out(
    pre: Seq<char>,
    trad: Seq<char>,
    simp: Seq<char>,
    pinyin: Seq<char>,
    post: Seq<char>,
)
    requires
        unmarked(pre),
        unmarked(post),
        pre.len() > 0 ==> !is_cjk_spec(pre.last()),
        simp.len() > 0,
        forall|i: int| 0 <= i < trad.len() ==> is_cjk_spec(#[trigger] trad[i]),
        forall|i: int| 0 <= i < simp.len() ==> is_cjk_spec(#[trigger] simp[i]),
        lacks(pinyin, ']'),
    ensures
        clean_gloss(pre + trad + seq!['|'] + simp + seq!['['] + pinyin + seq![']'] + post)
            == trimmed(pre + simp + post),
        gloss_refs(pre + trad + seq!['|'] + simp + seq!['['] + pinyin + seq![']'] + post) == seq![
            simp,
        ],
        clean_gloss(pre + simp + seq!['['] + pinyin + seq![']'] + post) == trimmed(
            pre + simp + post,
        ),
        gloss_refs(pre + simp + seq!['['] + pinyin + seq![']'] + post) == seq![simp],
{
    let e = Seq::<char>::empty();
    let none = Seq::<Seq<char>>::empty();
    let tail = seq!['['] + pinyin + seq![']'] + post;
    let bar = seq!['|'] + simp + tail;
    lemma_han_unmarked(trad);
    lemma_han_unmarked(simp);
    let a = pre + trad + seq!['|'] + simp + seq!['['] + pinyin + seq![']'] + post;
    let b = pre + simp + seq!['['] + pinyin + seq![']'] + post;
    assert(a =~= pre + (trad + bar));
    assert(b =~= pre + (simp + tail));
    lemma_scan_unmarked(pre, trad + bar, e, none);
    assert(e + pre =~= pre);
    lemma_scan_unmarked(trad, bar, pre, none);
    lemma_han_tail(pre, trad);
    assert(bar[0] == '|');
    assert(bar.drop_first() =~= simp + tail);
    assert(refs_scan(bar, pre + trad, none) == refs_scan(simp + tail, pre, none));
    lemma_scan_unmarked(pre, simp + tail, e, none);
    lemma_scan_unmarked(simp, tail, pre, none);
    lemma_han_tail(pre, simp);
    assert((pre + simp).skip(pre.len() as int) =~= simp);
    let n = pinyin.len() as int;
    assert(tail[0] == '[' && tail[n + 1] == ']');
    assert forall|i: int| 0 <= i < n + 1 implies !One(']').holds(#[trigger] tail[i]) by {
        if i > 0 {
            assert(tail[i] == pinyin[i - 1]);
        }
    }
    lemma_until_is(tail, One(']'), n + 1);
    assert(tail.skip(n + 2) =~= post);
    assert(none.push(simp) =~= seq![simp]);
    assert(refs_scan(tail, pre + simp, none) == refs_scan(post, pre + simp, seq![simp]));
    lemma_scan_unmarked(post, e, pre + simp, seq![simp]);
    assert(post + e =~= post);
}

proof fn lemma_han_unmarked(h: Seq<char>)
    requires
        forall|i: int| 0 <= i < h.len() ==> is_cjk_spec(#[trigger] h[i]),
    ensures
        unmarked(h),
{
    assert forall|i: int| 0 <= i < h.len() implies #[trigger] h[i] != '[' && h[i] != '|' by {
        assert(is_cjk_spec(h[i]));
    }
}

/// The words of a gloss that are indexed are its runs of ASCII letters, digits and apostrophes
/// of two characters or more, in lower case: words with blanks between them are all indexed.
pub proof fn law_words_of_a_gloss_are_indexed(a: Seq<char>, c: char, b: Seq<char>)
    requires
        !('a' <= c <= 'z') && !('A' <= c <= 'Z') && !('0' <= c <= '9') && c != '\'',
    ensures
        gloss_words(a + seq![c] + b) == gloss_words(a) + gloss_words(b),
{
    lemma_split_cat(a, c, b, NotAlnum);
    lemma_long_cat(split_by(a, NotAlnum), split_by(b, NotAlnum));
}

/// One run of ASCII letters, digits and apostrophes is one word, from two characters on.
pub proof fn law_a_run_is_a_word(w: Seq<char>)
    requires
        forall|i: int|
            0 <= i < w.len() ==> ('a' <= #[trigger] w[i] <= 'z') || ('A' <= w[i] <= 'Z') || ('0'
                <= w[i] <= '9') || w[i] == '\'',
    ensures
        gloss_words(w) == if w.len() >= 2 {
            seq![lowercase(w)]
        } else {
            Seq::empty()
        },
{
    assert forall|i: int| 0 <= i < w.len() implies !NotAlnum.holds(
        #[trigger] w[i],
    ) by {}
    lemma_until_is(w, NotAlnum, w.len() as int);
    let parts = seq![w];
    assert(split_by(w, NotAlnum) == parts);
    assert(parts.drop_last() =~= Seq::<Seq<char>>::empty());
    assert(parts.last() == w);
    assert(long_tokens(parts.drop_last()) =~= Seq::<Seq<char>>::empty());
    assert(gloss_words(w) =~= if w.len() >= 2 {
        seq![lowercase(w)]
    } else {
        Seq::empty()
    });
}

pub proof fn lemma_long_cat(a: Seq<Seq<char>>, b: Seq<Seq<char>>)
    ensures
        long_tokens(a + b) == long_tokens(a) + long_tokens(b),
    decreases b.len(),
{
    if b.len() == 0 {
        assert(a + b =~= a);
    } else {
        lemma_long_cat(a, b.drop_last());
        assert((a + b).drop_last() =~= a + b.drop_last());
        assert((a + b).last() == b.last());
    }
    assert(long_tokens(a + b) =~= long_tokens(a) + long_tokens(b));
}

// ───────────────────────── a line ─────────────────────────

/// The line `繁體 简体 [pin1 yin1] /义项/` is taken apart at its blanks and its first square
/// brackets, and what stands there goes where it belongs: the simplified form is the word, the
/// traditional one is kept where it differs, the reading is that of the brackets, and the
/// source text is the body with blanks round its slashes.
pub proof fn law_fields_of_a_line(
    trad: Seq<char>,
    simp: Seq<char>,
    pinyin: Seq<char>,
    body: Seq<char>,
)
    requires
        trad.len() > 0 && simp.len() > 0,
        trad[0] != '#',
        word(trad) && word(simp),
        lacks(pinyin, ']'),
    ensures
        ({
            let line = trad + seq![' '] + simp + seq![' ', '['] + pinyin + seq![']', ' '] + body;
            let h = line_headword(line);
            let r = reading_of(pinyin);
            &&& h == headword(trad, simp, pinyin, trimmed(body))
            &&& h is Some ==> {
                &&& h->0.entry.kind == 0
                &&& h->0.entry.word == simp
                &&& trad != simp ==> h->0.entry.trad == trad
                &&& trad == simp ==> h->0.entry.trad.len() == 0
                &&& h->0.entry.reading == toned_text(r)
                &&& h->0.entry.tones == tones_of(r)
                &&& h->0.initials == initials_of(r)
                &&& h->0.entry.raw == replaced(
                    trim_by(trimmed(body), One('/')),
                    seq!['/'],
                    seq![' ', '/', ' '],
                )
                &&& plain_text(r, false).len() > 0 ==> h->0.pinyin_keys.contains(
                    plain_text(r, false),
                )
                &&& plain_text(r, true).len() > 0 ==> h->0.pinyin_keys.contains(
                    plain_text(r, true),
                )
                &&& forall|i: int|
                    0 <= i < h->0.pinyin_keys.len() ==> #[trigger] h->0.pinyin_keys[i]
                        == plain_text(r, false) || h->0.pinyin_keys[i] == plain_text(r, true)
                &&& h->0.entry.pos.len() == 0
                &&& h->0.entry.tags.len() == 0
                &&& h->0.entry.examples.len() == 0
            }
        }),
{
    lemma_line_apart(trad, simp, pinyin, body);
    let h = headword(trad, simp, pinyin, trimmed(body));
    let r = reading_of(pinyin);
    reveal_strlit(" / ");
    assert(" / "@ =~= seq![' ', '/', ' ']);
    let p = plain_text(r, false);
    let v = plain_text(r, true);
    let one = seq![p];
    let two = seq![p, v];
    assert(one.drop_last() =~= Seq::<Seq<char>>::empty() && one.last() == p);
    assert(two.drop_last() =~= one && two.last() == v);
    assert(non_empty(Seq::<Seq<char>>::empty()) =~= Seq::<Seq<char>>::empty());
    assert(non_empty(one) =~= if p.len() == 0 {
        Seq::<Seq<char>>::empty()
    } else {
        one
    });
    assert(non_empty(two) =~= if v.len() == 0 {
        non_empty(one)
    } else {
        non_empty(one).push(v)
    });
    if h is Some {
        let k = h->0.pinyin_keys;
        if p.len() > 0 {
            assert(k[0] == p);
        }
        if v.len() > 0 {
            assert(k.last() == v);
            assert(k[k.len() - 1] == v);
        }
    }
}

/// A text that is one word and opens no brackets.
pub open spec fn word(s: Seq<char>) -> bool {
    lacks(s, '[') && forall|i: int| 0 <= i < s.len() ==> !is_space_spec(#[trigger] s[i])
}

proof fn lemma_words_pair(a: Seq<char>, b: Seq<char>)
    requires
        word(a),
        word(b),
        a.len() > 0,
        b.len() > 0,
    ensures
        words_of(a + seq![' '] + b) == seq![a, b],
{
    lemma_split_cat(a, ' ', b, Space);
    lemma_one_word(a);
    lemma_one_word(b);
    let two = seq![a, b];
    assert(seq![a] + seq![b] =~= two);
    let one = seq![a];
    assert(two.drop_last() =~= one && two.last() == b);
    assert(one.drop_last() =~= Seq::<Seq<char>>::empty() && one.last() == a);
    assert(non_empty(one.drop_last()) =~= Seq::<Seq<char>>::empty());
    assert(non_empty(one) =~= one);
    assert(non_empty(two) =~= two);
}

proof fn lemma_one_word(a: Seq<char>)
    requires
        word(a),
    ensures
        split_by(a, Space) == seq![a],
{
    assert forall|i: int| 0 <= i < a.len() implies !Space.holds(#[trigger] a[i]) by {}
    lemma_until_is(a, Space, a.len() as int);
}

proof fn lemma_line_apart(trad: Seq<char>, simp: Seq<char>, pinyin: Seq<char>, body: Seq<char>)
    requires
        trad.len() > 0 && simp.len() > 0,
        trad[0] != '#',
        word(trad) && word(simp),
        lacks(pinyin, ']'),
    ensures
        line_headword(trad + seq![' '] + simp + seq![' ', '['] + pinyin + seq![']', ' '] + body)
            == headword(trad, simp, pinyin, trimmed(body)),
{
    let head = trad + seq![' '] + simp + seq![' '];
    let front = head + seq!['['] + pinyin + seq![']'];
    let line = trad + seq![' '] + simp + seq![' ', '['] + pinyin + seq![']', ' '] + body;
    let tail = seq![' '] + body;
    assert(line =~= front + tail);
    let l = trimmed(line);
    lemma_trim_behind(front, tail);
    let kept = trim_end_by(tail, Space);
    assert(l == front + kept);
    let n = head.len() as int;
    assert forall|i: int| 0 <= i < n implies !One('[').holds(#[trigger] l[i]) by {
        assert(l[i] == head[i]);
        if i < trad.len() {
            assert(head[i] == trad[i]);
        } else if trad.len() < i < n - 1 {
            assert(head[i] == simp[i - trad.len() - 1]);
        }
    }
    assert(l[n] == '[');
    lemma_until_is(l, One('['), n);
    let rest = l.skip(n);
    let m = pinyin.len() as int;
    assert(rest =~= seq!['['] + pinyin + seq![']'] + kept);
    assert forall|i: int| 0 <= i < m + 1 implies !One(']').holds(#[trigger] rest[i]) by {
        if i > 0 {
            assert(rest[i] == pinyin[i - 1]);
        }
    }
    assert(rest[m + 1] == ']');
    lemma_until_is(rest, One(']'), m + 1);
    assert(l.take(n) =~= head);
    let both = trad + seq![' '] + simp;
    assert(head =~= both + seq![' ']);
    assert(head.drop_last() =~= both);
    assert(both[0] == trad[0] && both.last() == simp[simp.len() - 1]);
    assert(trim_start_by(head, Space) == head);
    assert(trim_end_by(both, Space) == both);
    assert(trim_end_by(head, Space) == both);
    lemma_words_pair(trad, simp);
    assert(seq![trad, simp][0] == trad && seq![trad, simp][1] == simp);
    assert(l.subrange(n + 1, n + m + 1) =~= pinyin);
    assert(l.skip(n + m + 2) =~= kept);
    lemma_trim_twice(body);
}

/// Trimming a text whose front is no blank leaves the front and trims the end.
proof fn lemma_trim_behind(front: Seq<char>, tail: Seq<char>)
    requires
        front.len() > 0,
        !is_space_spec(front[0]),
        !is_space_spec(front.last()),
    ensures
        trimmed(front + tail) == front + trim_end_by(tail, Space),
{
    let s = front + tail;
    assert(s[0] == front[0]);
    assert(trim_start_by(s, Space) == s);
    lemma_trim_end_behind(front, tail);
}

proof fn lemma_trim_end_behind(front: Seq<char>, tail: Seq<char>)
    requires
        front.len() > 0,
        !is_space_spec(front.last()),
    ensures
        trim_end_by(front + tail, Space) == front + trim_end_by(tail, Space),
    decreases tail.len(),
{
    let s = front + tail;
    if tail.len() == 0 {
        assert(s =~= front);
        assert(front + tail =~= front);
    } else {
        assert(s.last() == tail.last());
        assert(s.drop_last() =~= front + tail.drop_last());
        if is_space_spec(tail.last()) {
            lemma_trim_end_behind(front, tail.drop_last());
        }
    }
}

/// A blank in front and blanks taken off the end first make no difference to trimming.
proof fn lemma_trim_twice(body: Seq<char>)
    ensures
        trimmed(trim_end_by(seq![' '] + body, Space)) == trimmed(body),
{
    let s = seq![' '] + body;
    lemma_trim_commutes(s);
    lemma_trim_end_again(trim_start_by(s, Space));
    assert(s.drop_first() =~= body);
    assert(trim_start_by(s, Space) == trim_start_by(body, Space));
}

proof fn lemma_trim_end_again(s: Seq<char>)
    ensures
        trim_end_by(trim_end_by(s, Space), Space) == trim_end_by(s, Space),
    decreases s.len(),
{
    if s.len() > 0 && is_space_spec(s.last()) {
        lemma_trim_end_again(s.drop_last());
    }
}

/// It makes no difference which end is trimmed first.
proof fn lemma_trim_commutes(s: Seq<char>)
    ensures
        trim_start_by(trim_end_by(s, Space), Space) == trim_end_by(
            trim_start_by(s, Space),
            Space,
        ),
    decreases s.len(),
{
    if s.len() > 0 {
        let t = s.drop_last();
        if is_space_spec(s.last()) {
            lemma_trim_commutes(t);
            lemma_start_push(t, s.last());
            assert(t.push(s.last()) =~= s);
        } else if is_space_spec(s[0]) {
            let u = s.drop_first();
            lemma_trim_commutes(u);
            if u.len() > 0 {
                assert(u.last() == s.last());
            }
        }
    }
}

/// A blank at the end stays there when the front is trimmed, unless all is blank.
proof fn lemma_start_push(t: Seq<char>, c: char)
    requires
        is_space_spec(c),
    ensures
        trim_start_by(t, Space).len() > 0 ==> trim_start_by(t.push(c), Space) == trim_start_by(
            t,
            Space,
        ).push(c),
        trim_start_by(t, Space).len() == 0 ==> trim_start_by(t.push(c), Space).len() == 0,
        trim_end_by(trim_start_by(t.push(c), Space), Space) == trim_end_by(
            trim_start_by(t, Space),
            Space,
        ),
    decreases t.len(),
{
    let s = t.push(c);
    if t.len() == 0 {
        assert(s.drop_first() =~= t);
        assert(trim_start_by(t, Space) == t);
        assert(trim_start_by(s, Space) == t);
    } else if is_space_spec(t[0]) {
        assert(s.drop_first() =~= t.drop_first().push(c));
        lemma_start_push(t.drop_first(), c);
    } else {
        assert(trim_start_by(s, Space) == s);
        assert(s.drop_last() =~= t);
    }
}

/// A comment is no headword, and neither is a line without square brackets.
pub proof fn law_comments_are_no_headwords(line: Seq<char>)
    requires
        ends_bare(line),
        line.len() == 0 || line[0] == '#' || lacks(line, '[') || lacks(line, ']'),
    ensures
        line_headword(line) is None,
{
    lemma_trimmed_keeps(line);
    lemma_until(line, One('['));
    let lb = until(line, One('[')) as int;
    lemma_until(line.skip(lb), One(']'));
    let rb = lb + until(line.skip(lb), One(']'));
    if line.len() > 0 && lb < line.len() && rb < line.len() {
        assert(line[lb] == '[');
        assert(line.skip(lb)[rb - lb] == line[rb]);
    }
}

/// Classifiers are listed behind their name, in order, and are no senses.
pub proof fn law_classifiers_are_listed(
    trad: Seq<char>,
    simp: Seq<char>,
    pinyin: Seq<char>,
    body: Seq<char>,
)
    ensures
        headword(trad, simp, pinyin, body) matches Some(h) ==> h.entry.forms == if read_glosses(
            glosses_of(body),
        ).classifiers.len() == 0 {
            Seq::empty()
        } else {
            seq!['量', '词', ' '] + join(
                read_glosses(glosses_of(body)).classifiers,
                seq![' ', '·', ' '],
            )
        },
{
    reveal_strlit("量词 ");
    reveal_strlit(" · ");
    assert("量词 "@ =~= seq!['量', '词', ' ']);
    assert(" · "@ =~= seq![' ', '·', ' ']);
}

/// A gloss that opens with `CL:` is a classifier without its mark-up.
pub proof fn law_a_classifier_is_no_sense(x: Seq<char>)
    ensures
        read_glosses(seq![seq!['C', 'L', ':'] + x]).classifiers == seq![clean_gloss(x)],
        read_glosses(seq![seq!['C', 'L', ':'] + x]).senses.len() == 0,
        read_glosses(seq![seq!['C', 'L', ':'] + x]).tokens.len() == 0,
        read_glosses(seq![seq!['C', 'L', ':'] + x]).xrefs.len() == 0,
{
    let t = seq!['C', 'L', ':'] + x;
    reveal_strlit("CL:");
    assert(t.take(3) =~= "CL:"@);
    assert(t.skip(3) =~= x);
    let g = seq![t];
    lemma_no_glosses();
    assert(g.drop_last() =~= Seq::<Seq<char>>::empty());
    assert(g.last() == t);
    assert(read_glosses(g).classifiers =~= seq![clean_gloss(x)]);
}

proof fn lemma_without_keeps(s: Seq<Seq<char>>, a: Seq<char>, b: Seq<char>, x: Seq<char>)
    ensures
        without(s, a, b).contains(x) <==> s.contains(x) && x != a && x != b,
    decreases s.len(),
{
    if s.len() > 0 {
        let t = s.drop_last();
        let w = without(s, a, b);
        let u = without(t, a, b);
        lemma_without_keeps(t, a, b, x);
        if s.contains(x) {
            let i = choose|i: int| 0 <= i < s.len() && s[i] == x;
            if i < t.len() {
                assert(t[i] == x);
            }
        }
        if t.contains(x) {
            let i = choose|i: int| 0 <= i < t.len() && t[i] == x;
            assert(s[i] == x);
        }
        if s.last() == x {
            assert(s[s.len() - 1] == x);
        }
        if u.contains(x) {
            let i = choose|i: int| 0 <= i < u.len() && u[i] == x;
            assert(w[i] == x);
        }
        if w.contains(x) && !u.contains(x) {
            let i = choose|i: int| 0 <= i < w.len() && w[i] == x;
            if i < u.len() {
                assert(u[i] == x);
            }
        }
        if s.last() != a && s.last() != b && s.last() == x {
            assert(w[w.len() - 1] == x);
        }
    }
}

/// A headword refers to every word that its glosses refer to but itself, where they are no
/// more than eight, and to no other; and the indexed words of its glosses are all kept.
pub proof fn law_references_and_words_are_kept(
    trad: Seq<char>,
    simp: Seq<char>,
    pinyin: Seq<char>,
    body: Seq<char>,
    x: Seq<char>,
)
    requires
        headword(trad, simp, pinyin, body) is Some,
    ensures
        headword(trad, simp, pinyin, body)->0.entry.xrefs.contains(x) ==> read_glosses(
            glosses_of(body),
        ).xrefs.contains(x) && x != simp && x != trad,
        headword(trad, simp, pinyin, body)->0.entry.xrefs.len() < 8 && read_glosses(
            glosses_of(body),
        ).xrefs.contains(x) && x != simp && x != trad ==> headword(
            trad,
            simp,
            pinyin,
            body,
        )->0.entry.xrefs.contains(x),
        headword(trad, simp, pinyin, body)->0.gloss_tokens.contains(x) <==> read_glosses(
            glosses_of(body),
        ).tokens.contains(x),
{
    let read = read_glosses(glosses_of(body));
    law_sorted_texts_are_sorted(read.xrefs);
    law_sorted_texts_are_sorted(read.tokens);
    let s = sorted_texts(read.xrefs);
    let w = without(s, simp, trad);
    lemma_without_keeps(s, simp, trad, x);
    let k = at_most(w, 8);
    if k.contains(x) {
        let i = choose|i: int| 0 <= i < k.len() && k[i] == x;
        assert(w[i] == x);
    }
}

/// Where every gloss is a shell, the senses are the glosses themselves.
pub proof fn law_a_line_of_shells_keeps_them(
    trad: Seq<char>,
    simp: Seq<char>,
    pinyin: Seq<char>,
    body: Seq<char>,
)
    ensures
        headword(trad, simp, pinyin, body) matches Some(h) ==> h.entry.senses == if read_glosses(
            glosses_of(body),
        ).senses.len() > 0 {
            read_glosses(glosses_of(body)).senses
        } else {
            all_glosses(glosses_of(body))
        },
{
}

// ───────────────────────── marks inside a gloss ─────────────────────────

/// How many brackets are open after the first `n` characters.
pub open spec fn open_brackets(t: Seq<char>, n: nat) -> int
    decreases n,
{
    if n == 0 {
        0
    } else {
        open_brackets(t, (n - 1) as nat) + if t[n - 1] == '(' {
            1int
        } else if t[n - 1] == ')' {
            -1int
        } else {
            0int
        }
    }
}

proof fn lemma_closing_is(t: Seq<char>, i: int, k: int)
    requires
        0 <= i <= k < t.len(),
        t[k] == ')',
        open_brackets(t, (k + 1) as nat) == 0,
        forall|j: int| 0 < j <= k ==> #[trigger] open_brackets(t, j as nat) > 0,
        i > 0 || t[0] == '(',
    ensures
        closing(t, i, open_brackets(t, i as nat)) == Some(k),
    decreases k - i,
{
    let d = open_brackets(t, i as nat);
    assert(open_brackets(t, (i + 1) as nat) == d + if t[i] == '(' {
        1int
    } else if t[i] == ')' {
        -1int
    } else {
        0int
    });
    if i < k {
        assert(open_brackets(t, (i + 1) as nat) > 0);
        if i > 0 {
            assert(open_brackets(t, i as nat) > 0);
        }
        lemma_closing_is(t, i + 1, k);
    }
}

/// The note at the front of a gloss goes to the bracket that closes it, whatever brackets stand
/// inside it.
pub proof fn law_a_note_goes_to_its_closing_bracket(t: Seq<char>, k: int)
    requires
        ends_bare(t),
        0 < k < t.len() - 1,
        t[0] == '(',
        t[k] == ')',
        open_brackets(t, (k + 1) as nat) == 0,
        forall|j: int| 0 < j <= k ==> #[trigger] open_brackets(t, j as nat) > 0,
        trimmed(t.skip(k + 1)).len() > 0,
    ensures
        leading_parens(t) == (trimmed(t.subrange(1, k)), trimmed(t.skip(k + 1))),
{
    lemma_trimmed_keeps(t);
    lemma_closing_is(t, 0, k);
}

/// A gloss that is one note and nothing else is all text.
pub proof fn law_a_note_alone_is_the_text(reg: Seq<char>)
    requires
        lacks(reg, '('),
        lacks(reg, ')'),
    ensures
        leading_parens(seq!['('] + reg + seq![')']) == (
            Seq::<char>::empty(),
            seq!['('] + reg + seq![')'],
        ),
{
    let t = seq!['('] + reg + seq![')'];
    let n = reg.len() as int;
    assert(t[0] == '(' && t.last() == ')');
    lemma_trimmed_keeps(t);
    assert forall|i: int| 1 <= i < n + 1 implies #[trigger] t[i] != '(' && t[i] != ')' by {
        assert(t[i] == reg[i - 1]);
    }
    assert(t[n + 1] == ')');
    lemma_closing(t, 1, n + 1);
    assert(closing(t, 0, 0) == Some(n + 1));
    let e = t.skip(n + 2);
    assert(e.len() == 0);
    assert(trimmed(e).len() == 0);
}

/// References are taken one by one, whatever came before: after any text that ends in no Han
/// character, a reference adds its simplified form to the text and to the references.
pub proof fn law_references_are_taken_one_by_one(
    out: Seq<char>,
    refs: Seq<Seq<char>>,
    trad: Seq<char>,
    simp: Seq<char>,
    pinyin: Seq<char>,
    rest: Seq<char>,
)
    requires
        out.len() > 0 ==> !is_cjk_spec(out.last()),
        simp.len() > 0,
        forall|i: int| 0 <= i < trad.len() ==> is_cjk_spec(#[trigger] trad[i]),
        forall|i: int| 0 <= i < simp.len() ==> is_cjk_spec(#[trigger] simp[i]),
        lacks(pinyin, ']'),
    ensures
        refs_scan(
            trad + (seq!['|'] + (simp + (seq!['['] + pinyin + seq![']'] + rest))),
            out,
            refs,
        ) == refs_scan(rest, out + simp, refs.push(simp)),
        refs_scan(simp + (seq!['['] + pinyin + seq![']'] + rest), out, refs) == refs_scan(
            rest,
            out + simp,
            refs.push(simp),
        ),
{
    let tail = seq!['['] + pinyin + seq![']'] + rest;
    let bar = seq!['|'] + (simp + tail);
    lemma_han_unmarked(trad);
    lemma_han_unmarked(simp);
    lemma_scan_unmarked(trad, bar, out, refs);
    lemma_han_tail(out, trad);
    assert(bar[0] == '|');
    assert(bar.drop_first() =~= simp + tail);
    lemma_scan_unmarked(simp, tail, out, refs);
    lemma_han_tail(out, simp);
    assert((out + simp).skip(out.len() as int) =~= simp);
    let n = pinyin.len() as int;
    assert(tail[0] == '[' && tail[n + 1] == ']');
    assert forall|i: int| 0 <= i < n + 1 implies !One(']').holds(#[trigger] tail[i]) by {
        if i > 0 {
            assert(tail[i] == pinyin[i - 1]);
        }
    }
    lemma_until_is(tail, One(']'), n + 1);
    assert(tail.skip(n + 2) =~= rest);
}

proof fn lemma_without_rises(s: Seq<Seq<char>>, a: Seq<char>, b: Seq<char>)
    requires
        forall|i: int, j: int| 0 <= i < j < s.len() ==> text_less(#[trigger] s[i], #[trigger] s[j]),
    ensures
        forall|i: int, j: int|
            0 <= i < j < without(s, a, b).len() ==> text_less(
                #[trigger] without(s, a, b)[i],
                #[trigger] without(s, a, b)[j],
            ),
    decreases s.len(),
{
    if s.len() > 0 {
        let t = s.drop_last();
        assert forall|i: int, j: int| 0 <= i < j < t.len() implies text_less(
            #[trigger] t[i],
            #[trigger] t[j],
        ) by {
            assert(text_less(s[i], s[j]));
        }
        lemma_without_rises(t, a, b);
        let u = without(t, a, b);
        let w = without(s, a, b);
        assert forall|i: int, j: int| 0 <= i < j < w.len() implies text_less(
            #[trigger] w[i],
            #[trigger] w[j],
        ) by {
            if j < u.len() {
                assert(text_less(u[i], u[j]));
            } else {
                lemma_without_keeps(t, a, b, u[i]);
                assert(u.contains(u[i]));
                let m = choose|m: int| 0 <= m < t.len() && t[m] == u[i];
                assert(text_less(s[m], s[s.len() - 1]));
            }
        }
    }
}

/// The references of a headword stand in order, each once, and where there are more than it has
/// room for the first in order are kept; its indexed words stand in order too.
pub proof fn law_references_and_words_rise(
    trad: Seq<char>,
    simp: Seq<char>,
    pinyin: Seq<char>,
    body: Seq<char>,
    i: int,
    j: int,
    y: Seq<char>,
)
    requires
        headword(trad, simp, pinyin, body) is Some,
    ensures
        ({
            let h = headword(trad, simp, pinyin, body)->0;
            let all = read_glosses(glosses_of(body)).xrefs;
            &&& 0 <= i < j < h.entry.xrefs.len() ==> text_less(h.entry.xrefs[i], h.entry.xrefs[j])
            &&& 0 <= i < j < h.gloss_tokens.len() ==> text_less(h.gloss_tokens[i], h.gloss_tokens[j])
            &&& h.entry.xrefs.len() <= 8
            &&& 0 <= i < h.entry.xrefs.len() && all.contains(y) && y != simp && y != trad
                && !h.entry.xrefs.contains(y) ==> text_less(h.entry.xrefs[i], y)
        }),
{
    let h = headword(trad, simp, pinyin, body)->0;
    let read = read_glosses(glosses_of(body));
    let s = sorted_texts(read.xrefs);
    law_sorted_texts_are_sorted(read.xrefs);
    law_sorted_texts_are_sorted(read.tokens);
    assert forall|a: int, b: int| 0 <= a < b < s.len() implies text_less(
        #[trigger] s[a],
        #[trigger] s[b],
    ) by {
        assert(text_order()(s[a], s[b]));
    }
    lemma_without_rises(s, simp, trad);
    let w = without(s, simp, trad);
    let x = h.entry.xrefs;
    assert(x == at_most(w, 8));
    assert(forall|a: int| 0 <= a < x.len() ==> x[a] == w[a]);
    if 0 <= i < j < x.len() {
        assert(text_less(w[i], w[j]));
    }
    if 0 <= i < j < h.gloss_tokens.len() {
        assert(text_order()(h.gloss_tokens[i], h.gloss_tokens[j]));
    }
    if 0 <= i < x.len() && read.xrefs.contains(y) && y != simp && y != trad && !x.contains(y) {
        lemma_without_keeps(s, simp, trad, y);
        assert(s.contains(y));
        let m = choose|m: int| 0 <= m < w.len() && w[m] == y;
        if m < x.len() {
            assert(x[m] == y);
        }
        assert(text_less(w[i], w[m]));
    }
}

/// A headword has no frequency before one is looked up for it.
pub proof fn law_a_headword_starts_without_frequency(
    trad: Seq<char>,
    simp: Seq<char>,
    pinyin: Seq<char>,
    body: Seq<char>,
)
    ensures
        headword(trad, simp, pinyin, body) matches Some(h) ==> h.entry.freq.bits == 0
            && h.entry.pct.bits == 0,
{
}

/// How a gloss is read character by character: a bar takes the Han characters before it away, a
/// reading in brackets refers to the Han characters before it, and anything else stays.
pub proof fn law_a_gloss_character_by_character(
    c: char,
    rest: Seq<char>,
    pinyin: Seq<char>,
    out: Seq<char>,
    refs: Seq<Seq<char>>,
)
    ensures
        refs_scan(Seq::empty(), out, refs) == (out, refs),
        c != '[' && c != '|' ==> refs_scan(seq![c] + rest, out, refs) == refs_scan(
            rest,
            out.push(c),
            refs,
        ),
        lacks(rest, ']') ==> refs_scan(seq!['['] + rest, out, refs) == refs_scan(
            rest,
            out.push('['),
            refs,
        ),
        lacks(pinyin, ']') && (out.len() == 0 || !is_cjk_spec(out.last())) ==> refs_scan(
            seq!['['] + pinyin + seq![']'] + rest,
            out,
            refs,
        ) == refs_scan(rest, out, refs),
        (out.len() == 0 || !is_cjk_spec(out.last())) ==> refs_scan(seq!['|'] + rest, out, refs)
            == refs_scan(rest, out, refs),
{
    let a = seq![c] + rest;
    assert(a.drop_first() =~= rest);
    let b = seq!['['] + rest;
    assert(b.drop_first() =~= rest);
    if lacks(rest, ']') {
        assert forall|i: int| 0 <= i < b.len() implies !One(']').holds(#[trigger] b[i]) by {
            if i > 0 {
                assert(b[i] == rest[i - 1]);
            }
        }
        lemma_until_is(b, One(']'), b.len() as int);
    }
    let d = seq!['['] + pinyin + seq![']'] + rest;
    if lacks(pinyin, ']') {
        let n = pinyin.len() as int + 1;
        assert forall|i: int| 0 <= i < n implies !One(']').holds(#[trigger] d[i]) by {
            if i > 0 {
                assert(d[i] == pinyin[i - 1]);
            }
        }
        assert(d[n] == ']');
        lemma_until_is(d, One(']'), n);
        assert(d.skip(n + 1) =~= rest);
        assert(d[0] == '[');
    }
    if out.len() == 0 || !is_cjk_spec(out.last()) {
        assert(trim_end_by(out, Cjk) == out);
        assert(out.skip(out.len() as int).len() == 0);
    }
    let e = seq!['|'] + rest;
    assert(e.drop_first() =~= rest);
}

/// The glosses of a body stand between its slashes, without the blanks round them; what is
/// blank is none.
pub proof fn law_glosses_stand_between_slashes(a: Seq<char>, b: Seq<char>)
    ensures
        glosses_of(a + seq!['/'] + b) == glosses_of(a) + glosses_of(b),
        lacks(a, '/') && trimmed(a).len() > 0 ==> glosses_of(a) == seq![trimmed(a)],
        lacks(a, '/') && trimmed(a).len() == 0 ==> glosses_of(a).len() == 0,
{
    lemma_glosses_cat(a, b);
    if lacks(a, '/') {
        assert forall|i: int| 0 <= i < a.len() implies !One('/').holds(#[trigger] a[i]) by {}
        lemma_until_is(a, One('/'), a.len() as int);
        let g = each_trimmed(seq![a]);
        assert(g =~= seq![trimmed(a)]);
        assert(g.drop_last() =~= Seq::<Seq<char>>::empty());
        assert(non_empty(g.drop_last()) =~= Seq::<Seq<char>>::empty());
        assert(non_empty(g) =~= if trimmed(a).len() > 0 {
            seq![trimmed(a)]
        } else {
            Seq::empty()
        });
    }
}

proof fn lemma_never_closed(t: Seq<char>, i: int)
    requires
        0 <= i <= t.len(),
        t.len() > 0 && t[0] == '(',
        forall|j: int| 0 < j <= t.len() ==> #[trigger] open_brackets(t, j as nat) > 0,
    ensures
        closing(t, i, open_brackets(t, i as nat)) is None,
    decreases t.len() - i,
{
    if i < t.len() {
        assert(open_brackets(t, (i + 1) as nat) > 0);
        assert(open_brackets(t, (i + 1) as nat) == open_brackets(t, i as nat) + if t[i] == '(' {
            1int
        } else if t[i] == ')' {
            -1int
        } else {
            0int
        });
        lemma_never_closed(t, i + 1);
    }
}

/// A text that opens with no bracket, or with one that is never closed, has no note.
pub proof fn law_texts_without_a_note(s: Seq<char>, t: Seq<char>)
    ensures
        trimmed(s).len() == 0 || trimmed(s)[0] != '(' ==> leading_parens(s) == (
            Seq::<char>::empty(),
            trimmed(s),
        ),
        ends_bare(t) && t.len() > 0 && t[0] == '(' && (forall|j: int|
            0 < j <= t.len() ==> #[trigger] open_brackets(t, j as nat) > 0) ==> leading_parens(t)
            == (Seq::<char>::empty(), t),
{
    if ends_bare(t) && t.len() > 0 && t[0] == '(' && (forall|j: int|
        0 < j <= t.len() ==> #[trigger] open_brackets(t, j as nat) > 0) {
        lemma_trimmed_keeps(t);
        lemma_never_closed(t, 0);
    }
}

/// A line with fewer than two words before its bracket is no headword.
pub proof fn law_a_headword_has_two_spellings(line: Seq<char>, k: int)
    requires
        ends_bare(line),
        0 <= k < line.len(),
        line[k] == '[',
        lacks(line.take(k), '['),
        words_of(trimmed(line.take(k))).len() < 2,
    ensures
        line_headword(line) is None,
{
    lemma_trimmed_keeps(line);
    assert forall|i: int| 0 <= i < k implies !One('[').holds(#[trigger] line[i]) by {
        assert(line.take(k)[i] == line[i]);
    }
    lemma_until_is(line, One('['), k);
}

} // verus!
