//! Example sentences for headwords.
//!
//! The pairs come shortest first, and whoever comes first is served first: short sentences
//! make better examples.
use crate::assemble::{en_views, zh_views};
use crate::cedict::{RawZh, RawZhView};
use crate::corpus::{
    en_words_in, english_words, longest_upto, pair_views, zh_words_in, Pairs, Vocab,
};
use crate::english::{RawEn, RawEnView};
use crate::letters::{lower_str, lowercase};
use crate::model::{example_views, EntryView, Example, ExampleView};
use crate::sorted::{is_sorted_set, lemma_text_irreflexive, sorted_texts, text_order};
use crate::text::texts;
use vstd::hash_map::StringHashMap;
use vstd::prelude::*;
use vstd::string::*;

verus! {

/// How many examples a headword gets.
pub const MAX_EXAMPLES: usize = 3;

/// How long the words are that are looked for in Chinese sentences.
pub const MAX_ZH_WORD: usize = 6;

/// The headword that gets the examples of a spelling. Several may share it, with different
/// readings; the most common one gets them, the first of equals.
pub open spec fn zh_slot(zh: Seq<RawZhView>, w: Seq<char>) -> Option<int>
    decreases zh.len(),
{
    if zh.len() == 0 {
        None
    } else {
        let a = zh_slot(zh.drop_last(), w);
        let n = zh.len() - 1;
        if zh.last().entry.word != w {
            a
        } else {
            match a {
                Some(b) => if zh[b].entry.pct.less_spec(zh.last().entry.pct) {
                    Some(n)
                } else {
                    a
                },
                None => Some(n),
            }
        }
    }
}

/// The English headword that gets the examples of a spelling: the first one.
pub open spec fn en_slot(en: Seq<RawEnView>, w: Seq<char>) -> Option<int>
    decreases en.len(),
{
    if en.len() == 0 {
        None
    } else {
        match en_slot(en.drop_last(), w) {
            Some(b) => Some(b),
            None => if lowercase(en.last().entry.word) == w {
                Some(en.len() - 1)
            } else {
                None
            },
        }
    }
}

/// The words that Chinese sentences are searched for.
pub open spec fn zh_vocab(zh: Seq<RawZhView>) -> Set<Seq<char>>
    decreases zh.len(),
{
    if zh.len() == 0 {
        Set::empty()
    } else {
        zh_vocab(zh.drop_last()).insert(zh.last().entry.word)
    }
}

/// The words found in a Chinese sentence.
pub open spec fn zh_found(zh: Seq<RawZhView>, s: Seq<char>) -> Seq<Seq<char>> {
    sorted_texts(longest_upto(s, zh_vocab(zh), MAX_ZH_WORD as nat, s.len()))
}

/// Examples with one more, while there is room.
pub open spec fn grown(ex: Seq<ExampleView>, x: ExampleView) -> Seq<ExampleView> {
    if ex.len() < MAX_EXAMPLES {
        ex.push(x)
    } else {
        ex
    }
}

/// The examples of Chinese headword `i` after `n` pairs.
pub open spec fn zh_examples(
    zh: Seq<RawZhView>,
    pairs: Seq<(Seq<char>, Seq<char>)>,
    n: nat,
    i: int,
) -> Seq<ExampleView>
    decreases n,
{
    if n == 0 {
        zh[i].entry.examples
    } else {
        let ex = zh_examples(zh, pairs, (n - 1) as nat, i);
        let (a, b) = pairs[n - 1];
        let w = zh[i].entry.word;
        if zh_slot(zh, w) == Some(i) && zh_found(zh, a).contains(w) {
            grown(ex, ExampleView { a, b })
        } else {
            ex
        }
    }
}

/// The examples of English headword `i` after `n` pairs.
pub open spec fn en_examples(
    en: Seq<RawEnView>,
    pairs: Seq<(Seq<char>, Seq<char>)>,
    n: nat,
    i: int,
) -> Seq<ExampleView>
    decreases n,
{
    if n == 0 {
        en[i].entry.examples
    } else {
        let ex = en_examples(en, pairs, (n - 1) as nat, i);
        let (a, b) = pairs[n - 1];
        let w = lowercase(en[i].entry.word);
        if en_slot(en, w) == Some(i) && english_words(b).contains(w) {
            grown(ex, ExampleView { a: b, b: a })
        } else {
            ex
        }
    }
}

/// A Chinese headword with other examples.
pub open spec fn zh_with(r: RawZhView, ex: Seq<ExampleView>) -> RawZhView {
    RawZhView { entry: EntryView { examples: ex, ..r.entry }, ..r }
}

/// An English headword with other examples.
pub open spec fn en_with(r: RawEnView, ex: Seq<ExampleView>) -> RawEnView {
    RawEnView { entry: EntryView { examples: ex, ..r.entry }, ..r }
}

proof fn lemma_zh_slot(zh: Seq<RawZhView>, w: Seq<char>)
    ensures
        zh_slot(zh, w) matches Some(i) ==> 0 <= i < zh.len() && zh[i].entry.word == w,
    decreases zh.len(),
{
    if zh.len() > 0 {
        lemma_zh_slot(zh.drop_last(), w);
    }
}

proof fn lemma_en_slot(en: Seq<RawEnView>, w: Seq<char>)
    ensures
        en_slot(en, w) matches Some(i) ==> 0 <= i < en.len() && lowercase(en[i].entry.word) == w,
    decreases en.len(),
{
    if en.len() > 0 {
        lemma_en_slot(en.drop_last(), w);
    }
}

fn zh_slots(zh: &Vec<RawZh>) -> (r: StringHashMap<usize>)
    ensures
        forall|w: Seq<char>| #[trigger]
            r@.contains_key(w) <==> zh_slot(zh_views(zh@), w) is Some,
        forall|w: Seq<char>| #[trigger]
            r@.contains_key(w) ==> zh_slot(zh_views(zh@), w) == Some(r@[w] as int),
{
    let mut r: StringHashMap<usize> = StringHashMap::new();
    let ghost all = zh_views(zh@);
    let mut i: usize = 0;
    assert(all.take(0) =~= Seq::<RawZhView>::empty());
    while i < zh.len()
        invariant
            i <= zh.len(),
            all == zh_views(zh@),
            forall|w: Seq<char>| #[trigger]
                r@.contains_key(w) <==> zh_slot(all.take(i as int), w) is Some,
            forall|w: Seq<char>| #[trigger]
                r@.contains_key(w) ==> zh_slot(all.take(i as int), w) == Some(r@[w] as int),
        decreases zh.len() - i,
    {
        let w = zh[i].entry.word.as_str();
        proof {
            let t = all.take(i as int + 1);
            assert(t.drop_last() =~= all.take(i as int));
            assert(t.last() == zh@[i as int]@);
            lemma_zh_slot(all.take(i as int), w@);
        }
        let better: bool = match r.get(w) {
            Some(b) => {
                let k: usize = *b;
                zh[k].entry.pct.less(zh[i].entry.pct)
            },
            None => true,
        };
        if better {
            r.insert(w.to_owned(), i);
        }
        i = i + 1;
    }
    assert(all.take(i as int) =~= all);
    r
}

fn en_slots(en: &Vec<RawEn>) -> (r: StringHashMap<usize>)
    ensures
        forall|w: Seq<char>| #[trigger]
            r@.contains_key(w) <==> en_slot(en_views(en@), w) is Some,
        forall|w: Seq<char>| #[trigger]
            r@.contains_key(w) ==> en_slot(en_views(en@), w) == Some(r@[w] as int),
{
    let mut r: StringHashMap<usize> = StringHashMap::new();
    let ghost all = en_views(en@);
    let mut i: usize = 0;
    assert(all.take(0) =~= Seq::<RawEnView>::empty());
    while i < en.len()
        invariant
            i <= en.len(),
            all == en_views(en@),
            forall|w: Seq<char>| #[trigger]
                r@.contains_key(w) <==> en_slot(all.take(i as int), w) is Some,
            forall|w: Seq<char>| #[trigger]
                r@.contains_key(w) ==> en_slot(all.take(i as int), w) == Some(r@[w] as int),
        decreases en.len() - i,
    {
        let w = lower_str(en[i].entry.word.as_str());
        proof {
            let t = all.take(i as int + 1);
            assert(t.drop_last() =~= all.take(i as int));
            assert(t.last() == en@[i as int]@);
        }
        if !r.contains_key(w.as_str()) {
            r.insert(w, i);
        }
        i = i + 1;
    }
    assert(all.take(i as int) =~= all);
    r
}

fn vocab_of(zh: &Vec<RawZh>) -> (r: Vocab)
    ensures
        r.set@ == zh_vocab(zh_views(zh@)),
{
    let mut r = Vocab::new();
    let ghost all = zh_views(zh@);
    let mut i: usize = 0;
    assert(all.take(0) =~= Seq::<RawZhView>::empty());
    while i < zh.len()
        invariant
            i <= zh.len(),
            all == zh_views(zh@),
            r.set@ == zh_vocab(all.take(i as int)),
        decreases zh.len() - i,
    {
        proof {
            let t = all.take(i as int + 1);
            assert(t.drop_last() =~= all.take(i as int));
            assert(t.last() == zh@[i as int]@);
        }
        r.insert(zh[i].entry.word.clone());
        i = i + 1;
    }
    assert(all.take(i as int) =~= all);
    r
}

/// Gives one pair to the Chinese headwords found in it.
fn attach_zh(zh: &mut Vec<RawZh>, slots: &StringHashMap<usize>, found: &Vec<String>, a: &String, b: &String)
    requires
        forall|i: int, j: int|
            0 <= i < j < found@.len() ==> (#[trigger] found@[i])@ != (#[trigger] found@[j])@,
        forall|w: Seq<char>| #[trigger]
            slots@.contains_key(w) ==> slots@[w] < old(zh)@.len() && old(zh)@[slots@[w] as int]@.entry.word
                == w,
    ensures
        final(zh)@.len() == old(zh)@.len(),
        forall|i: int|
            0 <= i < old(zh)@.len() ==> (#[trigger] final(zh)@[i])@ == {
                let r = old(zh)@[i]@;
                let w = r.entry.word;
                if slots@.contains_key(w) && slots@[w] == i && texts(found@).contains(w) {
                    zh_with(r, grown(r.entry.examples, ExampleView { a: a@, b: b@ }))
                } else {
                    r
                }
            },
{
    let ghost was = zh@;
    let ghost t = texts(found@);
    let mut m: usize = 0;
    while m < found.len()
        invariant
            m <= found.len(),
            t == texts(found@),
            zh@.len() == was.len(),
            forall|i: int, j: int|
                0 <= i < j < found@.len() ==> (#[trigger] found@[i])@ != (#[trigger] found@[j])@,
            forall|w: Seq<char>| #[trigger]
                slots@.contains_key(w) ==> slots@[w] < was.len() && was[slots@[w] as int]@.entry.word
                    == w,
            forall|i: int|
                0 <= i < was.len() ==> (#[trigger] zh@[i])@ == {
                    let r = was[i]@;
                    let w = r.entry.word;
                    if slots@.contains_key(w) && slots@[w] == i && t.take(m as int).contains(w) {
                        zh_with(r, grown(r.entry.examples, ExampleView { a: a@, b: b@ }))
                    } else {
                        r
                    }
                },
        decreases found.len() - m,
    {
        let w = found[m].as_str();
        let ghost mid = zh@;
        let ghost tm = t.take(m as int);
        let ghost tn = t.take(m as int + 1);
        proof {
            assert(tn =~= tm.push(w@));
            assert forall|x: Seq<char>| tn.contains(x) <==> (tm.contains(x) || x == w@) by {
                if tm.contains(x) {
                    let q = choose|q: int| 0 <= q < tm.len() && tm[q] == x;
                    assert(tn[q] == x);
                }
                assert(tn[m as int] == w@);
            }
            if tm.contains(w@) {
                let q = choose|q: int| 0 <= q < tm.len() && tm[q] == w@;
                assert(found@[q]@ != found@[m as int]@);
            }
        }
        match slots.get(w) {
            Some(k) => {
                let i: usize = *k;
                assert(mid[i as int]@ == was[i as int]@);
                if zh[i].entry.examples.len() < MAX_EXAMPLES {
                    let x = Example { a: a.clone(), b: b.clone() };
                    zh[i].entry.examples.push(x);
                    proof {
                        assert(example_views(zh@[i as int].entry.examples@) =~= example_views(
                            mid[i as int].entry.examples@,
                        ).push(x@));
                        assert(zh@[i as int]@ =~= zh_with(
                            was[i as int]@,
                            grown(was[i as int]@.entry.examples, ExampleView { a: a@, b: b@ }),
                        ));
                    }
                } else {
                    assert(zh@[i as int]@ =~= zh_with(
                        was[i as int]@,
                        grown(was[i as int]@.entry.examples, ExampleView { a: a@, b: b@ }),
                    ));
                }
            },
            None => {},
        }
        m = m + 1;
    }
    assert(t.take(m as int) =~= t);
}

/// Gives one pair to the English headwords found in it.
fn attach_en(en: &mut Vec<RawEn>, slots: &StringHashMap<usize>, found: &Vec<String>, a: &String, b: &String)
    requires
        forall|i: int, j: int|
            0 <= i < j < found@.len() ==> (#[trigger] found@[i])@ != (#[trigger] found@[j])@,
        forall|w: Seq<char>| #[trigger]
            slots@.contains_key(w) ==> slots@[w] < old(en)@.len() && lowercase(
                old(en)@[slots@[w] as int]@.entry.word,
            ) == w,
    ensures
        final(en)@.len() == old(en)@.len(),
        forall|i: int|
            0 <= i < old(en)@.len() ==> (#[trigger] final(en)@[i])@ == {
                let r = old(en)@[i]@;
                let w = lowercase(r.entry.word);
                if slots@.contains_key(w) && slots@[w] == i && texts(found@).contains(w) {
                    en_with(r, grown(r.entry.examples, ExampleView { a: a@, b: b@ }))
                } else {
                    r
                }
            },
{
    let ghost was = en@;
    let ghost t = texts(found@);
    let mut m: usize = 0;
    while m < found.len()
        invariant
            m <= found.len(),
            t == texts(found@),
            en@.len() == was.len(),
            forall|i: int, j: int|
                0 <= i < j < found@.len() ==> (#[trigger] found@[i])@ != (#[trigger] found@[j])@,
            forall|w: Seq<char>| #[trigger]
                slots@.contains_key(w) ==> slots@[w] < was.len() && lowercase(
                    was[slots@[w] as int]@.entry.word,
                ) == w,
            forall|i: int|
                0 <= i < was.len() ==> (#[trigger] en@[i])@ == {
                    let r = was[i]@;
                    let w = lowercase(r.entry.word);
                    if slots@.contains_key(w) && slots@[w] == i && t.take(m as int).contains(w) {
                        en_with(r, grown(r.entry.examples, ExampleView { a: a@, b: b@ }))
                    } else {
                        r
                    }
                },
        decreases found.len() - m,
    {
        let w = found[m].as_str();
        let ghost mid = en@;
        let ghost tm = t.take(m as int);
        let ghost tn = t.take(m as int + 1);
        proof {
            assert(tn =~= tm.push(w@));
            assert forall|x: Seq<char>| tn.contains(x) <==> (tm.contains(x) || x == w@) by {
                if tm.contains(x) {
                    let q = choose|q: int| 0 <= q < tm.len() && tm[q] == x;
                    assert(tn[q] == x);
                }
                assert(tn[m as int] == w@);
            }
            if tm.contains(w@) {
                let q = choose|q: int| 0 <= q < tm.len() && tm[q] == w@;
                assert(found@[q]@ != found@[m as int]@);
            }
        }
        match slots.get(w) {
            Some(k) => {
                let i: usize = *k;
                assert(mid[i as int]@ == was[i as int]@);
                if en[i].entry.examples.len() < MAX_EXAMPLES {
                    let x = Example { a: a.clone(), b: b.clone() };
                    en[i].entry.examples.push(x);
                    proof {
                        assert(example_views(en@[i as int].entry.examples@) =~= example_views(
                            mid[i as int].entry.examples@,
                        ).push(x@));
                        assert(en@[i as int]@ =~= en_with(
                            was[i as int]@,
                            grown(was[i as int]@.entry.examples, ExampleView { a: a@, b: b@ }),
                        ));
                    }
                } else {
                    assert(en@[i as int]@ =~= en_with(
                        was[i as int]@,
                        grown(was[i as int]@.entry.examples, ExampleView { a: a@, b: b@ }),
                    ));
                }
            },
            None => {},
        }
        m = m + 1;
    }
    assert(t.take(m as int) =~= t);
}

proof fn lemma_distinct(v: Seq<String>, s: Seq<Seq<char>>)
    requires
        is_sorted_set(text_order(), texts(v), s),
    ensures
        forall|i: int, j: int| 0 <= i < j < v.len() ==> (#[trigger] v[i])@ != (#[trigger] v[j])@,
{
    assert forall|i: int, j: int| 0 <= i < j < v.len() implies (#[trigger] v[i])@ != (
    #[trigger] v[j])@ by {
        let t = texts(v);
        assert(text_order()(t[i], t[j]));
        lemma_text_irreflexive(t[i]);
    }
}

/// The headwords with the examples of the first `n` pairs.
pub open spec fn zh_attached(
    zh: Seq<RawZhView>,
    pairs: Seq<(Seq<char>, Seq<char>)>,
    n: nat,
) -> Seq<RawZhView> {
    Seq::new(zh.len(), |i: int| zh_with(zh[i], zh_examples(zh, pairs, n, i)))
}

/// The headwords with the examples of the first `n` pairs.
pub open spec fn en_attached(
    en: Seq<RawEnView>,
    pairs: Seq<(Seq<char>, Seq<char>)>,
    n: nat,
) -> Seq<RawEnView> {
    Seq::new(en.len(), |i: int| en_with(en[i], en_examples(en, pairs, n, i)))
}

/// Gives the headwords their examples: every pair to the headwords found in it, as long as
/// they have room. Nothing else of a headword changes.
pub fn attach_examples(zh: &mut Vec<RawZh>, en: &mut Vec<RawEn>, pairs: &Pairs)
    ensures
        zh_views(final(zh)@) == zh_attached(
            zh_views(old(zh)@),
            pair_views(pairs.sorted@),
            pairs.sorted@.len(),
        ),
        en_views(final(en)@) == en_attached(
            en_views(old(en)@),
            pair_views(pairs.sorted@),
            pairs.sorted@.len(),
        ),
{
    let ghost zv = zh_views(zh@);
    let ghost ev = en_views(en@);
    let ghost pv = pair_views(pairs.sorted@);
    let zs = zh_slots(zh);
    let es = en_slots(en);
    let vocab = vocab_of(zh);
    let mut n: usize = 0;
    assert(zh_views(zh@) =~= zh_attached(zv, pv, 0));
    assert(en_views(en@) =~= en_attached(ev, pv, 0));
    while n < pairs.sorted.len()
        invariant
            n <= pairs.sorted.len(),
            pv == pair_views(pairs.sorted@),
            vocab.set@ == zh_vocab(zv),
            forall|w: Seq<char>| #[trigger] zs@.contains_key(w) <==> zh_slot(zv, w) is Some,
            forall|w: Seq<char>| #[trigger]
                zs@.contains_key(w) ==> zh_slot(zv, w) == Some(zs@[w] as int),
            forall|w: Seq<char>| #[trigger] es@.contains_key(w) <==> en_slot(ev, w) is Some,
            forall|w: Seq<char>| #[trigger]
                es@.contains_key(w) ==> en_slot(ev, w) == Some(es@[w] as int),
            zh_views(zh@) == zh_attached(zv, pv, n as nat),
            en_views(en@) == en_attached(ev, pv, n as nat),
        decreases pairs.sorted.len() - n,
    {
        let a = &pairs.sorted[n].0;
        let b = &pairs.sorted[n].1;
        let wz = zh_words_in(a.as_str(), &vocab, MAX_ZH_WORD);
        let we = en_words_in(b.as_str());
        let ghost zwas = zh@;
        let ghost ewas = en@;
        proof {
            lemma_distinct(
                wz@,
                longest_upto(a@, vocab.set@, MAX_ZH_WORD as nat, a@.len()),
            );
            lemma_distinct(
                we@,
                crate::cedict::long_tokens(crate::text::split_by(b@, crate::text::NotLatin)),
            );
            assert(zh_views(zwas).len() == zv.len());
            assert(en_views(ewas).len() == ev.len());
            assert forall|i: int| 0 <= i < zwas.len() implies (#[trigger] zwas[i])@.entry.word
                == zv[i].entry.word by {
                assert(zh_views(zwas)[i] == zwas[i]@);
            }
            assert forall|i: int| 0 <= i < ewas.len() implies (#[trigger] ewas[i])@.entry.word
                == ev[i].entry.word by {
                assert(en_views(ewas)[i] == ewas[i]@);
            }
            assert forall|w: Seq<char>| #[trigger] zs@.contains_key(w) implies zs@[w]
                < zwas.len() && zwas[zs@[w] as int]@.entry.word == w by {
                lemma_zh_slot(zv, w);
            }
            assert forall|w: Seq<char>| #[trigger] es@.contains_key(w) implies es@[w]
                < ewas.len() && lowercase(ewas[es@[w] as int]@.entry.word) == w by {
                lemma_en_slot(ev, w);
            }
        }
        attach_zh(zh, &zs, &wz, a, b);
        attach_en(en, &es, &we, b, a);
        proof {
            assert(pv[n as int] == (a@, b@));
            assert(zh_views(zh@) =~= zh_attached(zv, pv, (n + 1) as nat)) by {
                assert forall|i: int| 0 <= i < zv.len() implies zh_views(zh@)[i] == zh_attached(
                    zv,
                    pv,
                    (n + 1) as nat,
                )[i] by {
                    assert(zh_views(zwas)[i] == zwas[i]@);
                    assert(zh@[i]@ == zh_views(zh@)[i]);
                    let w = zv[i].entry.word;
                    assert(zs@.contains_key(w) <==> zh_slot(zv, w) is Some);
                }
            }
            assert(en_views(en@) =~= en_attached(ev, pv, (n + 1) as nat)) by {
                assert forall|i: int| 0 <= i < ev.len() implies en_views(en@)[i] == en_attached(
                    ev,
                    pv,
                    (n + 1) as nat,
                )[i] by {
                    assert(en_views(ewas)[i] == ewas[i]@);
                    assert(en@[i]@ == en_views(en@)[i]);
                    let w = lowercase(ev[i].entry.word);
                    assert(es@.contains_key(w) <==> en_slot(ev, w) is Some);
                }
            }
        }
        n = n + 1;
    }
}

/// A headword that came without examples never gets more than the limit.
pub proof fn law_examples_are_capped(
    zh: Seq<RawZhView>,
    en: Seq<RawEnView>,
    pairs: Seq<(Seq<char>, Seq<char>)>,
    n: nat,
    i: int,
)
    requires
        n <= pairs.len(),
    ensures
        0 <= i < zh.len() && zh[i].entry.examples.len() == 0 ==> zh_examples(
            zh,
            pairs,
            n,
            i,
        ).len() <= MAX_EXAMPLES,
        0 <= i < en.len() && en[i].entry.examples.len() == 0 ==> en_examples(
            en,
            pairs,
            n,
            i,
        ).len() <= MAX_EXAMPLES,
    decreases n,
{
    if n > 0 {
        law_examples_are_capped(zh, en, pairs, (n - 1) as nat, i);
    }
}

} // verus!
