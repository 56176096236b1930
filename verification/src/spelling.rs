//! Plain pinyin as a key: how readings join, and how the two spellings of ü relate.
use crate::letters::{lowercase, lowers};
use crate::pinyin::{
    body_of, has_tone, initials_of, plain_parts, plain_text, reading_of, syllable_of, tones_of,
    SyllableView,
};
use crate::text::{
    has_no_blank, has_no_capital, is_space_spec, join, lacks, lemma_non_empty_cat, lemma_split_cat,
    lemma_split_parts, lemma_until, non_empty, replaced, split_by, starts_with, until, words_of,
    CharClass, Space,
};
use vstd::prelude::*;

verus! {

// ───────────────────────── joining ─────────────────────────

/// Parts written together, and one more.
proof fn lemma_join_push(parts: Seq<Seq<char>>)
    requires
        parts.len() > 0,
    ensures
        join(parts, Seq::empty()) == join(parts.drop_last(), Seq::empty()) + parts.last(),
{
    let e = Seq::<char>::empty();
    if parts.len() == 1 {
        assert(parts.drop_last().len() == 0);
        assert(join(parts.drop_last(), e) + parts.last() =~= parts[0]);
    } else {
        assert(join(parts.drop_last(), e) + e + parts.last() =~= join(parts.drop_last(), e)
            + parts.last());
    }
}

proof fn lemma_plain_push(r: Seq<SyllableView>, v: bool)
    requires
        r.len() > 0,
    ensures
        plain_text(r, v) == plain_text(r.drop_last(), v) + if v {
            r.last().plain_v
        } else {
            r.last().plain
        },
{
    lemma_join_push(plain_parts(r, v));
    assert(plain_parts(r, v).drop_last() =~= plain_parts(r.drop_last(), v));
}

proof fn lemma_plain_cat(a: Seq<SyllableView>, b: Seq<SyllableView>, v: bool)
    ensures
        plain_text(a + b, v) == plain_text(a, v) + plain_text(b, v),
    decreases b.len(),
{
    if b.len() == 0 {
        assert(a + b =~= a);
        assert(plain_text(a, v) + plain_text(b, v) =~= plain_text(a, v));
    } else {
        let c = b.drop_last();
        lemma_plain_cat(a, c, v);
        lemma_plain_push(b, v);
        lemma_plain_push(a + b, v);
        assert((a + b).drop_last() =~= a + c);
        assert((a + b).last() == b.last());
        assert(plain_text(a + b, v) =~= plain_text(a, v) + plain_text(b, v));
    }
}

proof fn lemma_initials_cat(a: Seq<SyllableView>, b: Seq<SyllableView>)
    ensures
        initials_of(a + b) == initials_of(a) + initials_of(b),
    decreases b.len(),
{
    if b.len() == 0 {
        assert(a + b =~= a);
    } else {
        lemma_initials_cat(a, b.drop_last());
        assert((a + b).drop_last() =~= a + b.drop_last());
        assert((a + b).last() == b.last());
    }
    assert(initials_of(a + b) =~= initials_of(a) + initials_of(b));
}

/// Two readings with a blank between them are read one after the other: the plain forms, the
/// initials and the tones of the whole are those of the two put together.
pub proof fn law_readings_join(a: Seq<char>, b: Seq<char>)
    ensures
        reading_of(a + seq![' '] + b) == reading_of(a) + reading_of(b),
        forall|v: bool| #[trigger]
            plain_text(reading_of(a + seq![' '] + b), v) == plain_text(reading_of(a), v)
                + plain_text(reading_of(b), v),
        initials_of(reading_of(a + seq![' '] + b)) == initials_of(reading_of(a)) + initials_of(
            reading_of(b),
        ),
        tones_of(reading_of(a + seq![' '] + b)) == tones_of(reading_of(a)) + tones_of(
            reading_of(b),
        ),
{
    lemma_split_cat(a, ' ', b, Space);
    lemma_non_empty_cat(split_by(a, Space), split_by(b, Space));
    assert(reading_of(a + seq![' '] + b) =~= reading_of(a) + reading_of(b));
    lemma_plain_cat(reading_of(a), reading_of(b), false);
    lemma_plain_cat(reading_of(a), reading_of(b), true);
    assert forall|v: bool| #[trigger]
        plain_text(reading_of(a + seq![' '] + b), v) == plain_text(reading_of(a), v) + plain_text(
            reading_of(b),
            v,
        ) by {
        if v {
            assert(v == true);
        } else {
            assert(v == false);
        }
    }
    lemma_initials_cat(reading_of(a), reading_of(b));
    assert(tones_of(reading_of(a) + reading_of(b)) =~= tones_of(reading_of(a)) + tones_of(
        reading_of(b),
    ));
}

// ───────────────────────── two spellings ─────────────────────────

/// `p` and `v` are one text but for some places where `p` has `u` and `v` has `v`.
pub open spec fn same_but_u(p: Seq<char>, v: Seq<char>) -> bool {
    &&& p.len() == v.len()
    &&& forall|i: int|
        0 <= i < p.len() ==> #[trigger] p[i] == v[i] || (p[i] == 'u' && v[i] == 'v')
}

/// Replacing one character by another goes place by place.
pub proof fn lemma_replaced_char(s: Seq<char>, c: char, d: char)
    ensures
        replaced(s, seq![c], seq![d]).len() == s.len(),
        forall|i: int|
            0 <= i < s.len() ==> #[trigger] replaced(s, seq![c], seq![d])[i] == if s[i] == c {
                d
            } else {
                s[i]
            },
    decreases s.len(),
{
    if s.len() > 0 {
        let u = s.drop_first();
        let r = replaced(u, seq![c], seq![d]);
        lemma_replaced_char(u, c, d);
        assert(s.skip(1) =~= u);
        assert(s.take(1) =~= seq![s[0]]);
        assert(starts_with(s, seq![c]) == (s[0] == c)) by {
            if s[0] == c {
                assert(s.take(1) =~= seq![c]);
            } else {
                assert(s.take(1)[0] == s[0]);
                assert(seq![c][0] == c);
            }
        }
        let x = if s[0] == c {
            d
        } else {
            s[0]
        };
        assert(replaced(s, seq![c], seq![d]) == seq![x] + r);
        assert forall|i: int| 0 <= i < s.len() implies #[trigger] replaced(
            s,
            seq![c],
            seq![d],
        )[i] == if s[i] == c {
            d
        } else {
            s[i]
        } by {
            if i > 0 {
                assert(replaced(s, seq![c], seq![d])[i] == r[i - 1]);
                assert(u[i - 1] == s[i]);
            }
        }
    }
}

/// The two spellings of a syllable: the same but for ü, and neither has it.
proof fn lemma_syllable_spellings(tok: Seq<char>)
    ensures
        same_but_u(syllable_of(tok).plain, syllable_of(tok).plain_v),
        lacks(syllable_of(tok).plain, '\u{fc}'),
        lacks(syllable_of(tok).plain_v, '\u{fc}'),
        syllable_of(tok).plain == syllable_of(tok).plain_v <==> lacks(
            lowercase(body_of(tok)),
            '\u{fc}',
        ),
{
    let low = lowercase(body_of(tok));
    let p = syllable_of(tok).plain;
    let v = syllable_of(tok).plain_v;
    lemma_replaced_char(low, '\u{fc}', 'u');
    lemma_replaced_char(low, '\u{fc}', 'v');
    if lacks(low, '\u{fc}') {
        assert(p =~= v);
    } else {
        let i = choose|i: int| 0 <= i < low.len() && #[trigger] low[i] == '\u{fc}';
        assert(p[i] == 'u' && v[i] == 'v');
    }
}

/// Some syllable of a reading has ü.
pub open spec fn has_umlaut(s: Seq<char>) -> bool {
    exists|i: int|
        0 <= i < words_of(s).len() && !lacks(
            lowercase(body_of(#[trigger] words_of(s)[i])),
            '\u{fc}',
        )
}

proof fn lemma_spellings(r: Seq<SyllableView>)
    requires
        forall|i: int|
            0 <= i < r.len() ==> same_but_u((#[trigger] r[i]).plain, r[i].plain_v) && lacks(
                r[i].plain,
                '\u{fc}',
            ) && lacks(r[i].plain_v, '\u{fc}'),
    ensures
        same_but_u(plain_text(r, false), plain_text(r, true)),
        lacks(plain_text(r, false), '\u{fc}'),
        lacks(plain_text(r, true), '\u{fc}'),
        plain_text(r, false) == plain_text(r, true) <==> forall|i: int|
            0 <= i < r.len() ==> (#[trigger] r[i]).plain == r[i].plain_v,
    decreases r.len(),
{
    if r.len() == 0 {
        assert(plain_text(r, false) =~= plain_text(r, true));
    } else {
        let q = r.drop_last();
        assert forall|i: int| 0 <= i < q.len() implies same_but_u(
            (#[trigger] q[i]).plain,
            q[i].plain_v,
        ) && lacks(q[i].plain, '\u{fc}') && lacks(q[i].plain_v, '\u{fc}') by {
            assert(q[i] == r[i]);
        }
        lemma_spellings(q);
        lemma_plain_push(r, false);
        lemma_plain_push(r, true);
        let p = plain_text(q, false);
        let v = plain_text(q, true);
        let x = r.last().plain;
        let y = r.last().plain_v;
        assert(r.last() == r[r.len() - 1]);
        assert forall|i: int| 0 <= i < (p + x).len() implies #[trigger] (p + x)[i] == (v + y)[i] || (
        (p + x)[i] == 'u' && (v + y)[i] == 'v') by {
            if i < p.len() {
                assert(p[i] == v[i] || (p[i] == 'u' && v[i] == 'v'));
            } else {
                let k = i - p.len();
                assert(x[k] == y[k] || (x[k] == 'u' && y[k] == 'v'));
            }
        }
        if p + x == v + y {
            assert(p =~= (p + x).take(p.len() as int));
            assert(v =~= (v + y).take(v.len() as int));
            assert(x =~= (p + x).skip(p.len() as int));
            assert(y =~= (v + y).skip(v.len() as int));
            assert forall|i: int| 0 <= i < r.len() implies (#[trigger] r[i]).plain
                == r[i].plain_v by {
                if i < q.len() {
                    assert(q[i] == r[i]);
                }
            }
        }
        if forall|i: int| 0 <= i < r.len() ==> (#[trigger] r[i]).plain == r[i].plain_v {
            assert forall|i: int| 0 <= i < q.len() implies (#[trigger] q[i]).plain
                == q[i].plain_v by {
                assert(q[i] == r[i]);
            }
        }
    }
}

/// The spelling with `u` and the one with `v` have the same length and agree at every place
/// but where one has `u` and the other `v`. Neither has ü, and they are equal exactly where no
/// syllable has it.
pub proof fn law_spellings_agree_but_for_u(s: Seq<char>)
    ensures
        same_but_u(plain_text(reading_of(s), false), plain_text(reading_of(s), true)),
        lacks(plain_text(reading_of(s), false), '\u{fc}'),
        lacks(plain_text(reading_of(s), true), '\u{fc}'),
        plain_text(reading_of(s), false) == plain_text(reading_of(s), true) <==> !has_umlaut(s),
{
    let w = words_of(s);
    let r = reading_of(s);
    assert forall|i: int| 0 <= i < r.len() implies same_but_u(
        (#[trigger] r[i]).plain,
        r[i].plain_v,
    ) && lacks(r[i].plain, '\u{fc}') && lacks(r[i].plain_v, '\u{fc}') && (r[i].plain
        == r[i].plain_v <==> lacks(lowercase(body_of(w[i])), '\u{fc}')) by {
        lemma_syllable_spellings(w[i]);
    }
    lemma_spellings(r);
    if has_umlaut(s) {
        let i = choose|i: int|
            0 <= i < w.len() && !lacks(lowercase(body_of(#[trigger] w[i])), '\u{fc}');
        assert(r[i].plain != r[i].plain_v);
    } else {
        assert forall|i: int| 0 <= i < r.len() implies (#[trigger] r[i]).plain == r[i].plain_v by {
            assert(lacks(lowercase(body_of(w[i])), '\u{fc}'));
        }
    }
}

// ───────────────────────── what spells ü ─────────────────────────

/// At place `i` stands ü, in either case, or one of its spellings that count: `u:` and `U:`.
spec fn marks(s: Seq<char>, i: int, small: bool, big: bool) -> bool {
    ||| s[i] == '\u{fc}'
    ||| s[i] == '\u{dc}'
    ||| i + 1 < s.len() && s[i + 1] == ':' && ((small && s[i] == 'u') || (big && s[i] == 'U'))
}

spec fn marked(s: Seq<char>, small: bool, big: bool) -> bool {
    exists|i: int| 0 <= i < s.len() && #[trigger] marks(s, i, small, big)
}

/// A text spells ü: as `u:` or `U:`, or by the letter itself in either case.
pub open spec fn spells_umlaut(s: Seq<char>) -> bool {
    exists|i: int|
        0 <= i < s.len() && (#[trigger] s[i] == '\u{fc}' || s[i] == '\u{dc}' || (i + 1 < s.len()
            && s[i + 1] == ':' && (s[i] == 'u' || s[i] == 'U')))
}

proof fn lemma_marked_is(s: Seq<char>)
    ensures
        marked(s, true, true) == spells_umlaut(s),
        marked(s, false, false) == !(lacks(s, '\u{fc}') && lacks(s, '\u{dc}')),
{
    if marked(s, true, true) {
        let i = choose|i: int| 0 <= i < s.len() && #[trigger] marks(s, i, true, true);
        assert(s[i] == s[i]);
        assert(spells_umlaut(s));
    }
    if spells_umlaut(s) {
        let i = choose|i: int|
            0 <= i < s.len() && (#[trigger] s[i] == '\u{fc}' || s[i] == '\u{dc}' || (i + 1 < s.len()
                && s[i + 1] == ':' && (s[i] == 'u' || s[i] == 'U')));
        assert(marks(s, i, true, true));
    }
    if !lacks(s, '\u{fc}') {
        let i = choose|i: int| 0 <= i < s.len() && #[trigger] s[i] == '\u{fc}';
        assert(marks(s, i, false, false));
    }
    if !lacks(s, '\u{dc}') {
        let i = choose|i: int| 0 <= i < s.len() && #[trigger] s[i] == '\u{dc}';
        assert(marks(s, i, false, false));
    }
}

/// The first place, or one further on.
proof fn lemma_marked_front(s: Seq<char>, small: bool, big: bool)
    requires
        s.len() > 0,
    ensures
        marked(s, small, big) == (marks(s, 0, small, big) || marked(s.drop_first(), small, big)),
{
    let u = s.drop_first();
    if marked(s, small, big) {
        let i = choose|i: int| 0 <= i < s.len() && #[trigger] marks(s, i, small, big);
        if i > 0 {
            assert(marks(u, i - 1, small, big));
        }
    }
    if marked(u, small, big) {
        let i = choose|i: int| 0 <= i < u.len() && #[trigger] marks(u, i, small, big);
        assert(marks(s, i + 1, small, big));
    }
}

/// The first character of a text in which a letter with a colon was replaced.
proof fn lemma_replaced_head(s: Seq<char>, a: char, z: char)
    requires
        a != ':',
        z != ':',
    ensures
        replaced(s, seq![a, ':'], seq![z]).len() > 0 <==> s.len() > 0,
        s.len() > 0 ==> (replaced(s, seq![a, ':'], seq![z])[0] == ':' <==> s[0] == ':'),
{
    if s.len() > 0 && starts_with(s, seq![a, ':']) {
        assert(s.take(2)[0] == s[0]);
        assert(seq![a, ':'][0] == a);
    }
}

/// Replacing `u:`, or once that is done `U:`, by ü in the same case keeps what a text spells.
proof fn lemma_replaced_marks(s: Seq<char>, small: bool)
    ensures
        small ==> marked(replaced(s, seq!['u', ':'], seq!['\u{fc}']), false, true) == marked(
            s,
            true,
            true,
        ),
        !small ==> marked(replaced(s, seq!['U', ':'], seq!['\u{dc}']), false, false) == marked(
            s,
            false,
            true,
        ),
    decreases s.len(),
{
    let a = if small {
        'u'
    } else {
        'U'
    };
    let z = if small {
        '\u{fc}'
    } else {
        '\u{dc}'
    };
    let p = seq![a, ':'];
    let r = replaced(s, p, seq![z]);
    if s.len() == 0 {
        assert(r == s);
        assert(!marked(s, true, true) && !marked(s, false, true) && !marked(s, false, false));
    } else {
        lemma_marked_front(s, small, true);
        if starts_with(s, p) {
            assert(s.take(2)[0] == s[0] && s.take(2)[1] == s[1]);
            assert(p[0] == a && p[1] == ':');
            assert(marks(s, 0, small, true));
            assert(r[0] == z);
            assert(marks(r, 0, false, small));
        } else {
            let u = s.drop_first();
            let t = replaced(u, p, seq![z]);
            lemma_replaced_marks(u, small);
            lemma_replaced_head(u, a, z);
            assert(r == seq![s[0]] + t);
            lemma_marked_front(r, false, small);
            assert(r.drop_first() =~= t);
            assert(r[0] == s[0]);
            if s.len() > 1 {
                assert(r[1] == t[0]);
                assert(s[1] == u[0]);
                if s[0] == a && s[1] == ':' {
                    assert(s.take(2) =~= p);
                }
            }
            assert(marks(r, 0, false, small) == marks(s, 0, small, true));
        }
    }
}

/// A text and the same text with a character behind it that spells nothing.
proof fn lemma_spells_cat(a: Seq<char>, c: char, b: Seq<char>)
    requires
        c != ':' && c != 'u' && c != 'U' && c != '\u{fc}' && c != '\u{dc}',
    ensures
        marked(a + seq![c] + b, true, true) == (marked(a, true, true) || marked(b, true, true)),
{
    let s = a + seq![c] + b;
    let n = a.len() as int;
    if marked(s, true, true) {
        let i = choose|i: int| 0 <= i < s.len() && #[trigger] marks(s, i, true, true);
        if i < n {
            assert(s[i] == a[i]);
            assert(marks(a, i, true, true));
        } else {
            assert(i != n);
            assert(s[i] == b[i - n - 1]);
            assert(marks(b, i - n - 1, true, true));
        }
    }
    if marked(a, true, true) {
        let i = choose|i: int| 0 <= i < a.len() && #[trigger] marks(a, i, true, true);
        assert(s[i] == a[i]);
        assert(marks(s, i, true, true));
    }
    if marked(b, true, true) {
        let i = choose|i: int| 0 <= i < b.len() && #[trigger] marks(b, i, true, true);
        assert(s[i + n + 1] == b[i]);
        assert(marks(s, i + n + 1, true, true));
    }
}

/// The body of a token has ü exactly where the token spells it.
proof fn lemma_body_spells(tok: Seq<char>)
    ensures
        (lacks(body_of(tok), '\u{fc}') && lacks(body_of(tok), '\u{dc}')) == !spells_umlaut(tok),
{
    let b = if has_tone(tok) {
        tok.drop_last()
    } else {
        tok
    };
    if has_tone(tok) {
        let e = Seq::<char>::empty();
        assert(tok =~= b + seq![tok.last()] + e);
        lemma_spells_cat(b, tok.last(), e);
        assert(!marked(e, true, true));
    }
    let c = replaced(b, seq!['u', ':'], seq!['\u{fc}']);
    lemma_replaced_marks(b, true);
    lemma_replaced_marks(c, false);
    lemma_marked_is(tok);
    lemma_marked_is(body_of(tok));
}

/// Some part spells ü.
spec fn some_marked(parts: Seq<Seq<char>>) -> bool {
    exists|i: int| 0 <= i < parts.len() && marked(#[trigger] parts[i], true, true)
}

proof fn lemma_some_marked_front(x: Seq<char>, parts: Seq<Seq<char>>)
    ensures
        some_marked(seq![x] + parts) == (marked(x, true, true) || some_marked(parts)),
{
    let all = seq![x] + parts;
    if some_marked(all) {
        let i = choose|i: int| 0 <= i < all.len() && marked(#[trigger] all[i], true, true);
        if i > 0 {
            assert(all[i] == parts[i - 1]);
        }
    }
    if some_marked(parts) {
        let i = choose|i: int| 0 <= i < parts.len() && marked(#[trigger] parts[i], true, true);
        assert(all[i + 1] == parts[i]);
    }
    if marked(x, true, true) {
        assert(all[0] == x);
    }
}

proof fn lemma_split_marked(s: Seq<char>)
    ensures
        some_marked(split_by(s, Space)) == marked(s, true, true),
    decreases s.len(),
{
    let k = until(s, Space) as int;
    lemma_until(s, Space);
    let none = Seq::<Seq<char>>::empty();
    if k < s.len() {
        let rest = s.skip(k + 1);
        lemma_split_marked(rest);
        lemma_some_marked_front(s.take(k), split_by(rest, Space));
        assert(s =~= s.take(k) + seq![s[k]] + rest);
        lemma_spells_cat(s.take(k), s[k], rest);
    } else {
        lemma_some_marked_front(s, none);
        assert(seq![s] + none =~= seq![s]);
    }
}

proof fn lemma_non_empty_marked(parts: Seq<Seq<char>>)
    ensures
        some_marked(non_empty(parts)) == some_marked(parts),
    decreases parts.len(),
{
    if parts.len() > 0 {
        let u = parts.drop_last();
        let n = non_empty(parts);
        lemma_non_empty_marked(u);
        if some_marked(parts) {
            let i = choose|i: int| 0 <= i < parts.len() && marked(#[trigger] parts[i], true, true);
            if i < u.len() {
                assert(u[i] == parts[i]);
                let m = non_empty(u);
                let j = choose|j: int| 0 <= j < m.len() && marked(#[trigger] m[j], true, true);
                assert(n[j] == m[j]);
            } else {
                assert(parts.last().len() > 0);
                assert(n.last() == parts.last());
                assert(n[n.len() - 1] == parts[i]);
            }
        }
        if some_marked(n) {
            let j = choose|j: int| 0 <= j < n.len() && marked(#[trigger] n[j], true, true);
            let m = non_empty(u);
            if j < m.len() {
                assert(m[j] == n[j]);
                let i = choose|i: int| 0 <= i < u.len() && marked(#[trigger] u[i], true, true);
                assert(parts[i] == u[i]);
            } else {
                assert(parts[parts.len() - 1] == n[j]);
            }
        }
    }
}

// ───────────────────────── keys ─────────────────────────

/// Every character is of a kind.
spec fn all_are(s: Seq<char>, f: spec_fn(char) -> bool) -> bool {
    forall|i: int| 0 <= i < s.len() ==> f(#[trigger] s[i])
}

proof fn lemma_non_empty_from(parts: Seq<Seq<char>>, i: int)
    requires
        0 <= i < non_empty(parts).len(),
    ensures
        parts.contains(non_empty(parts)[i]),
    decreases parts.len(),
{
    let u = parts.drop_last();
    let m = non_empty(u);
    if i < m.len() {
        lemma_non_empty_from(u, i);
        let k = choose|k: int| 0 <= k < u.len() && u[k] == m[i];
        assert(parts[k] == u[k]);
    } else {
        assert(parts[parts.len() - 1] == non_empty(parts)[i]);
    }
}

/// A word holds no blank.
proof fn lemma_words_bare(s: Seq<char>)
    ensures
        forall|i: int| 0 <= i < words_of(s).len() ==> has_no_blank(#[trigger] words_of(s)[i]),
{
    let parts = split_by(s, Space);
    lemma_split_parts(s, Space);
    assert forall|i: int| 0 <= i < words_of(s).len() implies has_no_blank(
        #[trigger] words_of(s)[i],
    ) by {
        lemma_non_empty_from(parts, i);
        let k = choose|k: int| 0 <= k < parts.len() && parts[k] == words_of(s)[i];
        assert forall|j: int| 0 <= j < words_of(s)[i].len() implies !is_space_spec(
            #[trigger] words_of(s)[i][j],
        ) by {
            assert(!Space.holds(parts[k][j]));
        }
    }
}

/// What is replaced brings in nothing else.
proof fn lemma_replaced_all(
    s: Seq<char>,
    p: Seq<char>,
    r: Seq<char>,
    f: spec_fn(char) -> bool,
)
    requires
        all_are(s, f),
        all_are(r, f),
    ensures
        all_are(replaced(s, p, r), f),
    decreases s.len(),
{
    if s.len() > 0 && p.len() > 0 {
        if starts_with(s, p) {
            let u = s.skip(p.len() as int);
            assert forall|i: int| 0 <= i < u.len() implies f(#[trigger] u[i]) by {
                assert(u[i] == s[i + p.len()]);
            }
            lemma_replaced_all(u, p, r, f);
            let t = replaced(u, p, r);
            assert forall|i: int| 0 <= i < (r + t).len() implies f(#[trigger] (r + t)[i]) by {
                if i < r.len() {
                    assert((r + t)[i] == r[i]);
                } else {
                    assert((r + t)[i] == t[i - r.len()]);
                }
            }
        } else {
            let u = s.drop_first();
            assert forall|i: int| 0 <= i < u.len() implies f(#[trigger] u[i]) by {
                assert(u[i] == s[i + 1]);
            }
            lemma_replaced_all(u, p, r, f);
            let t = replaced(u, p, r);
            let x = seq![s[0]];
            assert(f(s[0]));
            assert forall|i: int| 0 <= i < (x + t).len() implies f(#[trigger] (x + t)[i]) by {
                if i > 0 {
                    assert((x + t)[i] == t[i - 1]);
                }
            }
        }
    }
}

proof fn lemma_body_all(tok: Seq<char>, f: spec_fn(char) -> bool)
    requires
        all_are(tok, f),
        f('\u{fc}'),
        f('\u{dc}'),
    ensures
        all_are(body_of(tok), f),
{
    let b = if has_tone(tok) {
        tok.drop_last()
    } else {
        tok
    };
    assert forall|i: int| 0 <= i < b.len() implies f(#[trigger] b[i]) by {
        assert(b[i] == tok[i]);
    }
    lemma_replaced_all(b, seq!['u', ':'], seq!['\u{fc}'], f);
    lemma_replaced_all(
        replaced(b, seq!['u', ':'], seq!['\u{fc}']),
        seq!['U', ':'],
        seq!['\u{dc}'],
        f,
    );
}

/// The body of a token holds no blank where the token holds none.
proof fn lemma_body_bare(tok: Seq<char>)
    requires
        has_no_blank(tok),
    ensures
        has_no_blank(body_of(tok)),
{
    let g = |c: char| !is_space_spec(c);
    let b = body_of(tok);
    assert(all_are(tok, g));
    lemma_body_all(tok, g);
    assert forall|i: int| 0 <= i < b.len() implies !is_space_spec(#[trigger] b[i]) by {
        assert(g(b[i]));
    }
}

/// The syllables of a reading lower as texts do.
pub open spec fn bodies_lower(s: Seq<char>) -> bool {
    forall|i: int| 0 <= i < words_of(s).len() ==> lowers(body_of(#[trigger] words_of(s)[i]))
}

proof fn lemma_plain_key(tok: Seq<char>)
    requires
        has_no_blank(tok),
        lowers(body_of(tok)),
    ensures
        has_no_blank(syllable_of(tok).plain) && has_no_blank(syllable_of(tok).plain_v),
        has_no_capital(syllable_of(tok).plain) && has_no_capital(syllable_of(tok).plain_v),
        lacks(lowercase(body_of(tok)), '\u{fc}') == !spells_umlaut(tok),
{
    let low = lowercase(body_of(tok));
    lemma_body_bare(tok);
    lemma_body_spells(tok);
    lemma_replaced_char(low, '\u{fc}', 'u');
    lemma_replaced_char(low, '\u{fc}', 'v');
}

proof fn lemma_keys_bare(r: Seq<SyllableView>, v: bool)
    requires
        forall|i: int|
            0 <= i < r.len() ==> has_no_blank((#[trigger] r[i]).plain) && has_no_blank(
                r[i].plain_v,
            ) && has_no_capital(r[i].plain) && has_no_capital(r[i].plain_v),
    ensures
        has_no_blank(plain_text(r, v)),
        has_no_capital(plain_text(r, v)),
    decreases r.len(),
{
    if r.len() > 0 {
        let q = r.drop_last();
        assert forall|i: int| 0 <= i < q.len() implies has_no_blank((#[trigger] q[i]).plain)
            && has_no_blank(q[i].plain_v) && has_no_capital(q[i].plain) && has_no_capital(
            q[i].plain_v,
        ) by {
            assert(q[i] == r[i]);
        }
        lemma_keys_bare(q, v);
        lemma_plain_push(r, v);
        assert(r.last() == r[r.len() - 1]);
        let a = plain_text(q, v);
        let b = if v {
            r.last().plain_v
        } else {
            r.last().plain
        };
        assert forall|i: int| 0 <= i < (a + b).len() implies !is_space_spec(#[trigger] (a + b)[i])
            && !('A' <= (a + b)[i] <= 'Z') by {
            if i < a.len() {
                assert((a + b)[i] == a[i]);
            } else {
                assert((a + b)[i] == b[i - a.len()]);
            }
        }
    }
}

/// The plain forms of a reading hold no blank and none of `A` to `Z`, and the two spellings
/// are equal exactly where the reading does not spell ü.
pub proof fn law_plain_forms_are_bare(s: Seq<char>)
    requires
        bodies_lower(s),
    ensures
        forall|v: bool| has_no_blank(#[trigger] plain_text(reading_of(s), v)),
        forall|v: bool| has_no_capital(#[trigger] plain_text(reading_of(s), v)),
        plain_text(reading_of(s), false) == plain_text(reading_of(s), true) <==> !spells_umlaut(s),
{
    let w = words_of(s);
    let r = reading_of(s);
    lemma_words_bare(s);
    assert forall|i: int| 0 <= i < r.len() implies has_no_blank((#[trigger] r[i]).plain)
        && has_no_blank(r[i].plain_v) && has_no_capital(r[i].plain) && has_no_capital(
        r[i].plain_v,
    ) by {
        lemma_plain_key(w[i]);
    }
    assert forall|v: bool| has_no_blank(#[trigger] plain_text(r, v)) && has_no_capital(
        plain_text(r, v),
    ) by {
        lemma_keys_bare(r, v);
    }
    law_spellings_agree_but_for_u(s);
    lemma_split_marked(s);
    lemma_non_empty_marked(split_by(s, Space));
    lemma_marked_is(s);
    if has_umlaut(s) {
        let i = choose|i: int|
            0 <= i < w.len() && !lacks(lowercase(body_of(#[trigger] w[i])), '\u{fc}');
        lemma_plain_key(w[i]);
        lemma_marked_is(w[i]);
        assert(some_marked(w));
    }
    if some_marked(w) {
        let i = choose|i: int| 0 <= i < w.len() && marked(#[trigger] w[i], true, true);
        lemma_plain_key(w[i]);
        lemma_marked_is(w[i]);
        assert(has_umlaut(s));
    }
}

} // verus!
