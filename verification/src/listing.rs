//! Which keys lead to an entry, how frequencies rank, and what the tables of short prefixes
//! list.
use crate::assemble::{
    all_postings, base_id, each_lower, en_id, en_postings, en_postings_upto, posted, same_id,
    suffixes, zh_postings, zh_postings_upto, zh_spellings, Posting,
};
use crate::cedict::{at_most, RawZhView};
use crate::corpus::{all_spellings, Variants};
use crate::english::RawEnView;
use crate::lane::Lane;
use crate::letters::lowercase;
use crate::order::{
    law_keys_can_be_ordered, lemma_perm_reaches, permuted, stable_order, stable_perm,
};
use crate::percentile::{are_ranks, commoner, known_count};
use crate::single::{Double, Single};
use crate::text::starts_with;
use crate::tops::{
    best_candidates, candidates_under, count_under, falling_scores, first_of_each, is_heavy,
    key_candidates, lists_id, packed, prefix_spec, TopCandidate,
};
use vstd::prelude::*;

verus! {

// ───────────────────────── keys of an entry ─────────────────────────

proof fn lemma_same_id(lane: Lane, keys: Seq<Seq<char>>, id: u32, k: int)
    requires
        0 <= k < keys.len(),
    ensures
        same_id(lane, keys, id).contains((lane, keys[k], id)),
{
    assert(same_id(lane, keys, id)[k] == (lane, keys[k], id));
}

proof fn lemma_cat_has<T>(a: Seq<T>, b: Seq<T>, x: T)
    ensures
        (a + b).contains(x) <==> a.contains(x) || b.contains(x),
{
    if a.contains(x) {
        let i = choose|i: int| 0 <= i < a.len() && a[i] == x;
        assert((a + b)[i] == x);
    }
    if b.contains(x) {
        let i = choose|i: int| 0 <= i < b.len() && b[i] == x;
        assert((a + b)[a.len() + i] == x);
    }
    if (a + b).contains(x) {
        let i = choose|i: int| 0 <= i < (a + b).len() && (a + b)[i] == x;
        if i < a.len() {
            assert(a[i] == x);
        } else {
            assert(b[i - a.len()] == x);
        }
    }
}

proof fn lemma_zh_parts(r: RawZhView, v: Variants, id: u32, x: Posting)
    ensures
        zh_postings(r, v, id).contains(x) <==> same_id(Lane::Zh, zh_spellings(r, v), id).contains(x)
            || same_id(Lane::ZhSub, suffixes(r.entry.word), id).contains(x) || same_id(
            Lane::Py,
            r.pinyin_keys,
            id,
        ).contains(x) || same_id(Lane::Ini, seq![r.initials], id).contains(x) || same_id(
            Lane::Gloss,
            r.gloss_tokens,
            id,
        ).contains(x),
{
    let a = same_id(Lane::Zh, zh_spellings(r, v), id);
    let b = same_id(Lane::ZhSub, suffixes(r.entry.word), id);
    let c = same_id(Lane::Py, r.pinyin_keys, id);
    let d = same_id(Lane::Ini, seq![r.initials], id);
    let e = same_id(Lane::Gloss, r.gloss_tokens, id);
    lemma_cat_has(a, b, x);
    lemma_cat_has(a + b, c, x);
    lemma_cat_has(a + b + c, d, x);
    lemma_cat_has(a + b + c + d, e, x);
}

/// A Chinese headword is indexed under its spelling, its traditional form, every part of it from
/// a later character to the end, each of its pinyin keys, its initials and every word of its
/// glosses, each in its own lane.
pub proof fn law_keys_of_a_chinese_headword(r: RawZhView, v: Variants, id: u32, k: int)
    ensures
        zh_postings(r, v, id).contains((Lane::Zh, lowercase(r.entry.word), id)),
        r.entry.trad.len() > 0 ==> zh_postings(r, v, id).contains(
            (Lane::Zh, lowercase(r.entry.trad), id),
        ),
        0 < k < r.entry.word.len() ==> zh_postings(r, v, id).contains(
            (Lane::ZhSub, lowercase(r.entry.word.skip(k)), id),
        ),
        0 <= k < r.pinyin_keys.len() ==> zh_postings(r, v, id).contains(
            (Lane::Py, r.pinyin_keys[k], id),
        ),
        zh_postings(r, v, id).contains((Lane::Ini, r.initials, id)),
        0 <= k < r.gloss_tokens.len() ==> zh_postings(r, v, id).contains(
            (Lane::Gloss, r.gloss_tokens[k], id),
        ),
        0 <= k < all_spellings(v, r.entry.word).len() && k < 6 ==> zh_postings(r, v, id).contains(
            (Lane::Zh, lowercase(all_spellings(v, r.entry.word)[k]), id),
        ),
{
    let e = r.entry;
    let s = zh_spellings(r, v);
    let t = if e.trad.len() > 0 {
        seq![lowercase(e.trad)]
    } else {
        Seq::<Seq<char>>::empty()
    };
    let w = each_lower(at_most(all_spellings(v, e.word), 6));
    assert(s == seq![lowercase(e.word)] + t + w);
    assert(s[0] == lowercase(e.word));
    lemma_same_id(Lane::Zh, s, id, 0);
    lemma_zh_parts(r, v, id, (Lane::Zh, lowercase(e.word), id));
    if e.trad.len() > 0 {
        assert(s[1] == lowercase(e.trad));
        lemma_same_id(Lane::Zh, s, id, 1);
        lemma_zh_parts(r, v, id, (Lane::Zh, lowercase(e.trad), id));
    }
    if 0 < k < e.word.len() {
        assert(suffixes(e.word)[k - 1] == lowercase(e.word.skip(k)));
        lemma_same_id(Lane::ZhSub, suffixes(e.word), id, k - 1);
        lemma_zh_parts(r, v, id, (Lane::ZhSub, lowercase(e.word.skip(k)), id));
    }
    if 0 <= k < r.pinyin_keys.len() {
        lemma_same_id(Lane::Py, r.pinyin_keys, id, k);
        lemma_zh_parts(r, v, id, (Lane::Py, r.pinyin_keys[k], id));
    }
    lemma_same_id(Lane::Ini, seq![r.initials], id, 0);
    lemma_zh_parts(r, v, id, (Lane::Ini, r.initials, id));
    if 0 <= k < r.gloss_tokens.len() {
        lemma_same_id(Lane::Gloss, r.gloss_tokens, id, k);
        lemma_zh_parts(r, v, id, (Lane::Gloss, r.gloss_tokens[k], id));
    }
    if 0 <= k < all_spellings(v, e.word).len() && k < 6 {
        let at = 1 + t.len() + k;
        assert(w[k] == lowercase(all_spellings(v, e.word)[k]));
        assert(s[at] == w[k]);
        lemma_same_id(Lane::Zh, s, id, at);
        lemma_zh_parts(r, v, id, (Lane::Zh, lowercase(all_spellings(v, e.word)[k]), id));
    }
}

/// A Chinese headword is indexed under nothing else, and under no other number.
pub proof fn law_no_other_keys_of_a_chinese_headword(
    r: RawZhView,
    v: Variants,
    id: u32,
    x: Posting,
)
    requires
        zh_postings(r, v, id).contains(x),
    ensures
        x.2 == id,
        x.0 == Lane::Zh ==> x.1 == lowercase(r.entry.word) || x.1 == lowercase(r.entry.trad)
            || exists|k: int|
            0 <= k < all_spellings(v, r.entry.word).len() && k < 6 && x.1 == lowercase(
                #[trigger] all_spellings(v, r.entry.word)[k],
            ),
        x.0 == Lane::ZhSub ==> exists|k: int|
            0 < k < r.entry.word.len() && x.1 == lowercase(#[trigger] r.entry.word.skip(k)),
        x.0 == Lane::Py ==> r.pinyin_keys.contains(x.1),
        x.0 == Lane::Ini ==> x.1 == r.initials,
        x.0 == Lane::Gloss ==> r.gloss_tokens.contains(x.1),
        x.0 != Lane::Enw && x.0 != Lane::Trans,
{
    lemma_zh_parts(r, v, id, x);
    let e = r.entry;
    let s = zh_spellings(r, v);
    let t = if e.trad.len() > 0 {
        seq![lowercase(e.trad)]
    } else {
        Seq::<Seq<char>>::empty()
    };
    let w = each_lower(at_most(all_spellings(v, e.word), 6));
    let a = same_id(Lane::Zh, s, id);
    let b = same_id(Lane::ZhSub, suffixes(e.word), id);
    let c = same_id(Lane::Py, r.pinyin_keys, id);
    let d = same_id(Lane::Ini, seq![r.initials], id);
    let g = same_id(Lane::Gloss, r.gloss_tokens, id);
    if a.contains(x) {
        let i = choose|i: int| 0 <= i < a.len() && a[i] == x;
        assert(x.1 == s[i]);
        if i > t.len() {
            let k = i - 1 - t.len();
            assert(s[i] == w[k]);
            assert(w[k] == lowercase(all_spellings(v, e.word)[k]));
        }
    } else if b.contains(x) {
        let i = choose|i: int| 0 <= i < b.len() && b[i] == x;
        assert(x.1 == lowercase(e.word.skip(i + 1)));
    } else if c.contains(x) {
        let i = choose|i: int| 0 <= i < c.len() && c[i] == x;
        assert(r.pinyin_keys[i] == x.1);
    } else if d.contains(x) {
        let i = choose|i: int| 0 <= i < d.len() && d[i] == x;
    } else {
        let i = choose|i: int| 0 <= i < g.len() && g[i] == x;
        assert(r.gloss_tokens[i] == x.1);
    }
}

/// An English headword is indexed under its spelling and every Han run of its glosses; and its
/// spelling leads to its base form as well.
pub proof fn law_keys_of_an_english_headword(
    r: RawEnView,
    id: u32,
    base: Option<u32>,
    k: int,
    x: Posting,
)
    ensures
        en_postings(r, id, base).contains((Lane::Enw, lowercase(r.entry.word), id)),
        base is Some ==> en_postings(r, id, base).contains(
            (Lane::Enw, lowercase(r.entry.word), base->0),
        ),
        0 <= k < r.trans_tokens.len() ==> en_postings(r, id, base).contains(
            (Lane::Trans, r.trans_tokens[k], id),
        ),
        en_postings(r, id, base).contains(x) ==> {
            ||| x.0 == Lane::Enw && x.1 == lowercase(r.entry.word) && (x.2 == id || base == Some(
                x.2,
            ))
            ||| x.0 == Lane::Trans && r.trans_tokens.contains(x.1) && x.2 == id
        },
{
    let w = lowercase(r.entry.word);
    let p = en_postings(r, id, base);
    let b = match base {
        Some(b) => if b != id {
            seq![(Lane::Enw, w, b)]
        } else {
            Seq::<Posting>::empty()
        },
        None => Seq::<Posting>::empty(),
    };
    let t = same_id(Lane::Trans, r.trans_tokens, id);
    assert(p == seq![(Lane::Enw, w, id)] + b + t);
    assert(p[0] == (Lane::Enw, w, id));
    if let Some(n) = base {
        if n != id {
            assert(p[1] == (Lane::Enw, w, n));
        }
    }
    if 0 <= k < r.trans_tokens.len() {
        assert(p[1 + b.len() + k] == (Lane::Trans, r.trans_tokens[k], id));
    }
    if p.contains(x) {
        let i = choose|i: int| 0 <= i < p.len() && p[i] == x;
        if i > b.len() {
            assert(t[i - 1 - b.len()] == x);
            assert(r.trans_tokens[i - 1 - b.len()] == x.1);
        }
    }
}

/// The base form of a headword is the last headword spelt so.
pub proof fn law_the_base_form_is_a_headword(en: Seq<RawEnView>, first: nat, j: int, w: Seq<char>)
    requires
        0 <= j < en.len(),
        lowercase(en[j].entry.word) == w,
        forall|m: int| j < m < en.len() ==> lowercase((#[trigger] en[m]).entry.word) != w,
    ensures
        en_id(en, first, w) == Some((first + j) as u32),
    decreases en.len(),
{
    if j < en.len() - 1 {
        let u = en.drop_last();
        assert(lowercase(en[en.len() - 1].entry.word) != w);
        assert(u[j] == en[j]);
        assert forall|m: int| j < m < u.len() implies lowercase((#[trigger] u[m]).entry.word) != w by {
            assert(u[m] == en[m]);
        }
        law_the_base_form_is_a_headword(u, first, j, w);
    }
}

/// A headword without a base form, or whose base form is no headword, leads to itself alone.
pub proof fn law_no_base_form(en: Seq<RawEnView>, first: nat, r: RawEnView)
    ensures
        r.lemma is None ==> base_id(en, first, r) is None,
        r.lemma is Some && (forall|m: int|
            0 <= m < en.len() ==> lowercase((#[trigger] en[m]).entry.word) != r.lemma->0) ==> base_id(
            en,
            first,
            r,
        ) is None,
        r.lemma is Some ==> base_id(en, first, r) == en_id(en, first, r.lemma->0),
{
    if r.lemma is Some && (forall|m: int|
        0 <= m < en.len() ==> lowercase((#[trigger] en[m]).entry.word) != r.lemma->0) {
        lemma_no_en_id(en, first, r.lemma->0);
    }
}

proof fn lemma_no_en_id(en: Seq<RawEnView>, first: nat, w: Seq<char>)
    requires
        forall|m: int| 0 <= m < en.len() ==> lowercase((#[trigger] en[m]).entry.word) != w,
    ensures
        en_id(en, first, w) is None,
    decreases en.len(),
{
    if en.len() > 0 {
        assert(lowercase(en[en.len() - 1].entry.word) != w);
        let u = en.drop_last();
        assert forall|m: int| 0 <= m < u.len() implies lowercase((#[trigger] u[m]).entry.word) != w by {
            assert(u[m] == en[m]);
        }
        lemma_no_en_id(u, first, w);
    }
}

/// What stands under a key of a lane are the numbers that were posted there, in order.
pub proof fn law_what_is_posted_stands_under_its_key(
    p: Seq<Posting>,
    x: Posting,
    lane: Lane,
    key: Seq<char>,
)
    ensures
        posted(p.push(x), lane, key) == if x.0 == lane && x.1 == key && key.len() > 0 {
            posted(p, lane, key).push(x.2)
        } else {
            posted(p, lane, key)
        },
        posted(Seq::empty(), lane, key).len() == 0,
{
    assert(p.push(x).drop_last() =~= p);
    assert(p.push(x).last() == x);
}

// ───────────────────────── ranks of frequencies ─────────────────────────

/// Of two known frequencies the more common one has the smaller rank: the larger count, or the
/// smaller rank number; and of two equal ones the first.
pub proof fn law_the_more_common_ranks_first(
    f: Seq<Option<Double>>,
    bigger: bool,
    r: Seq<Option<usize>>,
    i: int,
    j: int,
)
    requires
        are_ranks(f, bigger, r),
        0 <= i < f.len(),
        0 <= j < f.len(),
        i != j,
        f[i] is Some,
        f[j] is Some,
    ensures
        bigger && f[i]->0.order() > f[j]->0.order() ==> r[i]->0 < r[j]->0,
        !bigger && f[i]->0.order() < f[j]->0.order() ==> r[i]->0 < r[j]->0,
        f[i]->0.order() == f[j]->0.order() && i < j ==> r[i]->0 < r[j]->0,
        r[i] is Some && r[j] is Some,
        r[i] != r[j],
{
    assert(r[i]->0 < r[j]->0 <==> commoner(f, bigger, i, j));
    assert(r[j]->0 < r[i]->0 <==> commoner(f, bigger, j, i));
}

/// How many frequencies are known.
pub proof fn law_known_frequencies_are_counted(f: Seq<Option<Double>>)
    ensures
        known_count(f) == f.filter(|x: Option<Double>| x is Some).len(),
    decreases f.len(),
{
    reveal(Seq::filter);
    if f.len() > 0 {
        law_known_frequencies_are_counted(f.drop_last());
    }
}

// ───────────────────────── tables of short prefixes ─────────────────────────

/// A prefix of one or two characters gets a table where more than 1500 keys begin with it.
pub proof fn law_which_prefixes_get_a_table(keys: Seq<(Seq<char>, Seq<u32>)>, p: Seq<char>)
    ensures
        is_heavy(keys, p) <==> (p.len() == 1 || p.len() == 2) && keys.filter(
            |k: (Seq<char>, Seq<u32>)| p.is_prefix_of(k.0),
        ).len() > 1500,
{
    lemma_count_under(keys, p);
}

proof fn lemma_count_under(keys: Seq<(Seq<char>, Seq<u32>)>, p: Seq<char>)
    ensures
        count_under(keys, p) == keys.filter(
            |k: (Seq<char>, Seq<u32>)| p.is_prefix_of(k.0),
        ).len(),
    decreases keys.len(),
{
    reveal(Seq::filter);
    if keys.len() > 0 {
        lemma_count_under(keys.drop_last(), p);
        lemma_begins(keys.last().0, p);
    }
}

proof fn lemma_begins(k: Seq<char>, p: Seq<char>)
    ensures
        starts_with(k, p) <==> p.is_prefix_of(k),
{
    if p.len() <= k.len() {
        if p.is_prefix_of(k) {
            assert(k.take(p.len() as int) =~= p);
        }
        if starts_with(k, p) {
            assert(p =~= k.subrange(0, p.len() as int));
        }
    }
}

/// The candidates for a table are every entry under every key that begins so, with the length
/// of the key.
pub proof fn law_candidates_for_a_table(
    keys: Seq<(Seq<char>, Seq<u32>)>,
    p: Seq<char>,
    k: int,
    i: int,
)
    requires
        0 <= k < keys.len(),
        p.is_prefix_of(keys[k].0),
        0 <= i < keys[k].1.len(),
    ensures
        candidates_under(keys, p).contains(
            (TopCandidate { key_len: keys[k].0.len() as usize, id: keys[k].1[i] }),
        ),
    decreases keys.len(),
{
    let u = keys.drop_last();
    let x = TopCandidate { key_len: keys[k].0.len() as usize, id: keys[k].1[i] };
    let a = candidates_under(u, p);
    let all = candidates_under(keys, p);
    lemma_begins(keys.last().0, p);
    if k < u.len() {
        assert(u[k] == keys[k]);
        law_candidates_for_a_table(u, p, k, i);
        let j = choose|j: int| 0 <= j < a.len() && a[j] == x;
        assert(all[j] == x);
    } else {
        assert(keys.last() == keys[k]);
        let b = key_candidates(keys[k].0.len(), keys[k].1);
        assert(b[i] == x);
        assert((a + b)[a.len() + i] == x);
    }
}

proof fn lemma_first_of_each(c: Seq<TopCandidate>, k: int) -> (i: int)
    requires
        0 <= k < c.len(),
        forall|j: int| 0 <= j < k ==> (#[trigger] c[j]).id != c[k].id,
    ensures
        0 <= i < first_of_each(c).len(),
        first_of_each(c)[i] == c[k],
        i <= k,
    decreases c.len(),
{
    let u = c.drop_last();
    lemma_first_len(u);
    if k < u.len() {
        assert(u[k] == c[k]);
        assert forall|j: int| 0 <= j < k implies (#[trigger] u[j]).id != u[k].id by {
            assert(u[j] == c[j]);
        }
        let i = lemma_first_of_each(u, k);
        assert(first_of_each(c)[i] == first_of_each(u)[i]);
        i
    } else {
        lemma_lists(u, c[k].id);
        if lists_id(u, c[k].id) {
            let j = choose|j: int| 0 <= j < u.len() && (#[trigger] u[j]).id == c[k].id;
            assert(c[j].id == c[k].id);
        }
        first_of_each(c).len() - 1
    }
}

proof fn lemma_first_len(c: Seq<TopCandidate>)
    ensures
        first_of_each(c).len() <= c.len(),
    decreases c.len(),
{
    if c.len() > 0 {
        lemma_first_len(c.drop_last());
    }
}

proof fn lemma_lists(c: Seq<TopCandidate>, id: u32)
    ensures
        lists_id(c, id) <==> exists|j: int| 0 <= j < c.len() && (#[trigger] c[j]).id == id,
    decreases c.len(),
{
    if c.len() > 0 {
        let u = c.drop_last();
        lemma_lists(u, id);
        if exists|j: int| 0 <= j < u.len() && (#[trigger] u[j]).id == id {
            let j = choose|j: int| 0 <= j < u.len() && (#[trigger] u[j]).id == id;
            assert(c[j].id == id);
        }
        if exists|j: int| 0 <= j < c.len() && (#[trigger] c[j]).id == id {
            let j = choose|j: int| 0 <= j < c.len() && (#[trigger] c[j]).id == id;
            if j < u.len() {
                assert(u[j].id == id);
            }
        }
        if c.last().id == id {
            assert(c[c.len() - 1].id == id);
        }
    }
}

/// The first candidate of an entry.
proof fn lemma_first_with(c: Seq<TopCandidate>, k: int) -> (m: int)
    requires
        0 <= k < c.len(),
    ensures
        0 <= m <= k,
        c[m].id == c[k].id,
        forall|j: int| 0 <= j < m ==> (#[trigger] c[j]).id != c[k].id,
    decreases k,
{
    if exists|j: int| 0 <= j < k && (#[trigger] c[j]).id == c[k].id {
        let j = choose|j: int| 0 <= j < k && (#[trigger] c[j]).id == c[k].id;
        lemma_first_with(c, j)
    } else {
        k
    }
}

/// Where a listed candidate comes from, and that those before it in the list come from earlier
/// places.
proof fn lemma_first_from(c: Seq<TopCandidate>, i: int) -> (m: int)
    requires
        0 <= i < first_of_each(c).len(),
    ensures
        i <= m < c.len(),
        first_of_each(c)[i] == c[m],
        first_of_each(c.take(m)).len() == i,
        first_of_each(c.take(m)).is_prefix_of(first_of_each(c)),
        !lists_id(c.take(m), c[m].id),
    decreases c.len(),
{
    let u = c.drop_last();
    if i < first_of_each(u).len() {
        let m = lemma_first_from(u, i);
        assert(u.take(m) =~= c.take(m));
        m
    } else {
        lemma_first_len(u);
        assert(c.take(c.len() - 1) =~= u);
        c.len() - 1
    }
}

/// A table lists at most 400 entries, each once and by its best score. An entry that was found
/// is left out only where the table is full of entries that score as much at least.
pub proof fn law_a_table_lists_the_best(c: Seq<TopCandidate>, s: Seq<Single>, k: int)
    requires
        c.len() == s.len(),
        c.len() <= usize::MAX,
        0 <= k < c.len(),
    ensures
        best_candidates(c, s).len() <= 400,
        (exists|i: int, m: int|
            0 <= i < best_candidates(c, s).len() && 0 <= m < c.len()
                && #[trigger] best_candidates(c, s)[i] == #[trigger] c[m] && c[m].id == c[k].id
                && s[k].order() <= s[m].order()) || (best_candidates(c, s).len() == 400 && forall|
            i: int,
        |
            0 <= i < 400 ==> scores_at_least(c, s, #[trigger] best_candidates(c, s)[i], s[k])),
{
    let keys = falling_scores(s);
    let p = stable_perm(keys);
    law_keys_can_be_ordered(keys);
    assert(stable_order(keys, p));
    let t = permuted(c, p);
    let f = first_of_each(t);
    let b = best_candidates(c, s);
    let z = lemma_perm_reaches(keys, p, k);
    assert(t[z] == c[k]);
    let m = lemma_first_with(t, z);
    assert forall|j: int| 0 <= j < m implies (#[trigger] t[j]).id != t[m].id by {}
    let i = lemma_first_of_each(t, m);
    lemma_falls(s, p, m, z);
    if i < b.len() {
        assert(b[i] == f[i]);
        assert(c[p[m] as int] == t[m]);
        assert(b[i] == c[p[m] as int]);
        assert(c[p[m] as int].id == c[k].id);
    } else {
        assert(b.len() == 400);
        assert forall|q: int| 0 <= q < 400 implies scores_at_least(c, s, #[trigger] b[q], s[k]) by {
            assert(b[q] == f[q]);
            let y = lemma_first_from(t, q);
            let w = lemma_first_from(t, i);
            if y > z {
                lemma_prefix_grows(t, z, y);
                lemma_prefix_grows(t, m, z);
                lemma_i_before(t, m, i);
                assert(false);
            }
            lemma_falls(s, p, y, z);
            assert(c[p[y] as int] == b[q]);
        }
    }
}

/// A candidate stands somewhere with at least a score.
pub open spec fn scores_at_least(
    c: Seq<TopCandidate>,
    s: Seq<Single>,
    x: TopCandidate,
    low: Single,
) -> bool {
    exists|m: int| 0 <= m < c.len() && #[trigger] c[m] == x && low.order() <= s[m].order()
}

proof fn lemma_falls(s: Seq<Single>, p: Seq<usize>, a: int, b: int)
    requires
        stable_order(falling_scores(s), p),
        0 <= a <= b < p.len(),
    ensures
        s[p[b] as int].order() <= s[p[a] as int].order(),
{
    let keys = falling_scores(s);
    if a < b {
        assert(keys[p[a] as int] <= keys[p[b] as int]);
    }
    lemma_small(s[p[a] as int]);
    lemma_small(s[p[b] as int]);
}

proof fn lemma_small(s: Single)
    ensures
        -0x8000_0000 <= s.order() <= 0x8000_0000,
{
}

/// More candidates list no fewer.
proof fn lemma_prefix_grows(c: Seq<TopCandidate>, a: int, b: int)
    requires
        0 <= a <= b <= c.len(),
    ensures
        first_of_each(c.take(a)).len() <= first_of_each(c.take(b)).len(),
    decreases b - a,
{
    if a < b {
        lemma_prefix_grows(c, a, b - 1);
        assert(c.take(b).drop_last() =~= c.take(b - 1));
    }
}

/// The first candidate of an entry at place `m` is listed behind those of the places before it.
proof fn lemma_i_before(c: Seq<TopCandidate>, m: int, i: int)
    requires
        0 <= m < c.len(),
        0 <= i < first_of_each(c).len(),
        forall|j: int| 0 <= j < m ==> (#[trigger] c[j]).id != c[m].id,
        first_of_each(c)[i] == c[m],
    ensures
        i == first_of_each(c.take(m)).len(),
{
    let w = lemma_first_from(c, i);
    assert(c[w].id == c[m].id);
    if w > m {
        lemma_lists(c.take(w), c[w].id);
        assert(c.take(w)[m].id == c[w].id);
    }
    if w < m {
        assert(c[w].id != c[m].id);
    }
}

/// A list packs each candidate into one number: the length of the key, 255 at most, in the high
/// eight bits and the entry in the rest.
pub proof fn law_lists_are_packed(c: Seq<TopCandidate>, i: int)
    requires
        0 <= i < c.len(),
        c[i].id < 0x100_0000,
    ensures
        packed(c).len() == c.len(),
        packed(c)[i] % 0x100_0000 == c[i].id,
        packed(c)[i] / 0x100_0000 == if c[i].key_len > 255 {
            255
        } else {
            c[i].key_len as int
        },
{
    crate::store::law_unpack_inverts_pack(c[i].key_len as nat, c[i].id);
}

/// Every key of every headword is posted, under the number of its entry: the Chinese headwords
/// are numbered from nought, the English ones after them; and nothing else is posted.
pub proof fn law_every_headword_is_posted(
    zh: Seq<RawZhView>,
    en: Seq<RawEnView>,
    v: Variants,
    i: int,
    x: Posting,
)
    ensures
        0 <= i < zh.len() && zh_postings(zh[i], v, i as u32).contains(x) ==> all_postings(
            zh,
            en,
            v,
        ).contains(x),
        0 <= i < en.len() && en_postings(
            en[i],
            (zh.len() + i) as u32,
            base_id(en, zh.len(), en[i]),
        ).contains(x) ==> all_postings(zh, en, v).contains(x),
        all_postings(zh, en, v).contains(x) ==> (exists|k: int|
            0 <= k < zh.len() && zh_postings(#[trigger] zh[k], v, k as u32).contains(x)) || (exists|
            k: int,
        |
            0 <= k < en.len() && en_postings(
                #[trigger] en[k],
                (zh.len() + k) as u32,
                base_id(en, zh.len(), en[k]),
            ).contains(x)),
{
    let a = zh_postings_upto(zh, v, zh.len());
    let b = en_postings_upto(en, zh.len(), en.len());
    lemma_cat_has(a, b, x);
    lemma_zh_upto(zh, v, zh.len(), i, x);
    lemma_en_upto(en, zh.len(), en.len(), i, x);
}

proof fn lemma_zh_upto(zh: Seq<RawZhView>, v: Variants, n: nat, i: int, x: Posting)
    requires
        n <= zh.len(),
    ensures
        0 <= i < n && zh_postings(zh[i], v, i as u32).contains(x) ==> zh_postings_upto(
            zh,
            v,
            n,
        ).contains(x),
        zh_postings_upto(zh, v, n).contains(x) ==> exists|k: int|
            0 <= k < n && zh_postings(#[trigger] zh[k], v, k as u32).contains(x),
    decreases n,
{
    if n > 0 {
        lemma_zh_upto(zh, v, (n - 1) as nat, i, x);
        lemma_cat_has(
            zh_postings_upto(zh, v, (n - 1) as nat),
            zh_postings(zh[n - 1], v, (n - 1) as u32),
            x,
        );
    }
}

proof fn lemma_en_upto(en: Seq<RawEnView>, first: nat, n: nat, i: int, x: Posting)
    requires
        n <= en.len(),
    ensures
        0 <= i < n && en_postings(en[i], (first + i) as u32, base_id(en, first, en[i])).contains(x)
            ==> en_postings_upto(en, first, n).contains(x),
        en_postings_upto(en, first, n).contains(x) ==> exists|k: int|
            0 <= k < n && en_postings(
                #[trigger] en[k],
                (first + k) as u32,
                base_id(en, first, en[k]),
            ).contains(x),
    decreases n,
{
    if n > 0 {
        lemma_en_upto(en, first, (n - 1) as nat, i, x);
        lemma_cat_has(
            en_postings_upto(en, first, (n - 1) as nat),
            en_postings(en[n - 1], (first + n - 1) as u32, base_id(en, first, en[n - 1])),
            x,
        );
        assert((first + n - 1) as u32 == (first + (n - 1)) as u32);
    }
}

/// The candidates for a table stand in the order of the keys, and come of keys with the prefix
/// alone.
pub proof fn law_candidates_stand_in_order(
    keys: Seq<(Seq<char>, Seq<u32>)>,
    key: Seq<char>,
    ids: Seq<u32>,
    p: Seq<char>,
)
    ensures
        !p.is_prefix_of(key) ==> candidates_under(keys.push((key, ids)), p) == candidates_under(
            keys,
            p,
        ),
        p.is_prefix_of(key) ==> candidates_under(keys.push((key, ids)), p) == candidates_under(
            keys,
            p,
        ) + Seq::new(
            ids.len(),
            |i: int| TopCandidate { key_len: key.len() as usize, id: ids[i] },
        ),
        candidates_under(Seq::empty(), p).len() == 0,
{
    lemma_begins(key, p);
    let all = keys.push((key, ids));
    assert(all.drop_last() =~= keys);
    assert(all.last() == (key, ids));
    assert(key_candidates(key.len(), ids) =~= Seq::new(
        ids.len(),
        |i: int| TopCandidate { key_len: key.len() as usize, id: ids[i] },
    ));
}

proof fn lemma_first_rises(c: Seq<TopCandidate>, i: int, j: int) -> (r: (int, int))
    requires
        0 <= i < j < first_of_each(c).len(),
    ensures
        0 <= r.0 < r.1 < c.len(),
        first_of_each(c)[i] == c[r.0],
        first_of_each(c)[j] == c[r.1],
    decreases c.len(),
{
    let u = c.drop_last();
    let f = first_of_each(u);
    if j < f.len() {
        let r = lemma_first_rises(u, i, j);
        assert(u[r.0] == c[r.0] && u[r.1] == c[r.1]);
        r
    } else {
        let a = lemma_first_from(u, i);
        assert(u[a] == c[a]);
        (a, c.len() - 1)
    }
}

/// A table lists its candidates by falling score, those of one score in their order.
pub proof fn law_a_table_falls_by_score(c: Seq<TopCandidate>, s: Seq<Single>, i: int, j: int)
    requires
        c.len() == s.len(),
        c.len() <= usize::MAX,
        0 <= i < j < best_candidates(c, s).len(),
    ensures
        exists|a: int, b: int|
            0 <= a < c.len() && 0 <= b < c.len() && best_candidates(c, s)[i] == #[trigger] c[a]
                && best_candidates(c, s)[j] == #[trigger] c[b] && (s[a].order() > s[b].order() || (
            s[a].order() == s[b].order() && a < b)),
{
    let keys = falling_scores(s);
    let p = stable_perm(keys);
    law_keys_can_be_ordered(keys);
    assert(stable_order(keys, p));
    let t = permuted(c, p);
    let r = lemma_first_rises(t, i, j);
    let a = p[r.0] as int;
    let b = p[r.1] as int;
    assert(c[a] == t[r.0] && c[b] == t[r.1]);
    lemma_small(s[a]);
    lemma_small(s[b]);
    assert(keys[a] < keys[b] || (keys[a] == keys[b] && a < b));
    assert(keys[a] == -s[a].order() && keys[b] == -s[b].order());
    assert(best_candidates(c, s)[i] == c[a] && best_candidates(c, s)[j] == c[b]);
}

/// The first characters of a text are a prefix of it where it is long enough.
pub proof fn law_first_characters(s: Seq<char>, n: int)
    requires
        0 <= n,
    ensures
        prefix_spec(s, n) is Some <==> n <= s.len(),
        prefix_spec(s, n) matches Some(p) ==> p.len() == n && p.is_prefix_of(s),
{
}

} // verus!
