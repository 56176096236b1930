//! Where a tone mark stands and what it looks like, and what a syllable is made of.
use crate::letters::{is_uppercase_char, lowercase, uppercase_char};
use crate::pinyin::{
    body_of, carrier, first_of, initials_of, is_vowel_spec, last_vowel, marked_char, plain_text,
    reading_of, syllable_of, tone_of, toned_parts, toned_text, tones_of, SyllableView,
};
use crate::spelling::law_readings_join;
use crate::text::{
    has_no_blank, lacks, lemma_until_is, non_empty, replaced, starts_with, words_of, CharClass,
    Space,
};
use vstd::prelude::*;

verus! {

/// A vowel with the mark of a tone: `ā á ǎ à` and so on.
pub open spec fn with_mark(c: char, tone: int) -> char {
    if c == 'a' {
        seq!['ā', 'á', 'ǎ', 'à'][tone - 1]
    } else if c == 'o' {
        seq!['ō', 'ó', 'ǒ', 'ò'][tone - 1]
    } else if c == 'e' {
        seq!['ē', 'é', 'ě', 'è'][tone - 1]
    } else if c == 'i' {
        seq!['ī', 'í', 'ǐ', 'ì'][tone - 1]
    } else if c == 'u' {
        seq!['ū', 'ú', 'ǔ', 'ù'][tone - 1]
    } else {
        seq!['ǖ', 'ǘ', 'ǚ', 'ǜ'][tone - 1]
    }
}

/// The place of a tone mark: on `a` if there is one; else on `o`; else on `e`; else on the last
/// of `i`, `u` and `ü`. Of several of one letter the first has it.
pub open spec fn mark_belongs(low: Seq<char>, i: int) -> bool {
    &&& 0 <= i < low.len()
    &&& {
        ||| low[i] == 'a' && forall|j: int| 0 <= j < i ==> #[trigger] low[j] != 'a'
        ||| low[i] == 'o' && lacks(low, 'a') && forall|j: int| 0 <= j < i ==> #[trigger] low[j] != 'o'
        ||| low[i] == 'e' && lacks(low, 'a') && lacks(low, 'o') && forall|j: int|
            0 <= j < i ==> #[trigger] low[j] != 'e'
        ||| (low[i] == 'i' || low[i] == 'u' || low[i] == 'ü') && lacks(low, 'a') && lacks(low, 'o')
            && lacks(low, 'e') && forall|j: int|
            i < j < low.len() ==> #[trigger] low[j] != 'i' && low[j] != 'u' && low[j] != 'ü'
    }
}

proof fn lemma_first(s: Seq<char>, c: char, k: int)
    requires
        0 <= k < s.len(),
        s[k] == c,
        forall|j: int| 0 <= j < k ==> #[trigger] s[j] != c,
    ensures
        first_of(s, c) == k,
    decreases s.len(),
{
    if k > 0 {
        assert(s[0] != c);
        let t = s.drop_first();
        assert forall|j: int| 0 <= j < k - 1 implies #[trigger] t[j] != c by {
            assert(t[j] == s[j + 1]);
        }
        lemma_first(t, c, k - 1);
    }
}

proof fn lemma_absent(s: Seq<char>, c: char)
    requires
        lacks(s, c),
    ensures
        first_of(s, c) == s.len(),
    decreases s.len(),
{
    if s.len() > 0 {
        assert(s[0] != c);
        let t = s.drop_first();
        assert forall|j: int| 0 <= j < t.len() implies #[trigger] t[j] != c by {
            assert(t[j] == s[j + 1]);
        }
        lemma_absent(t, c);
    }
}

proof fn lemma_last(s: Seq<char>, k: int)
    requires
        0 <= k < s.len(),
        is_vowel_spec(s[k]),
        forall|j: int| k < j < s.len() ==> !is_vowel_spec(#[trigger] s[j]),
    ensures
        last_vowel(s) == k,
    decreases s.len(),
{
    if k < s.len() - 1 {
        assert(!is_vowel_spec(s[s.len() - 1]));
        let t = s.drop_last();
        assert(t[k] == s[k]);
        assert forall|j: int| k < j < t.len() implies !is_vowel_spec(#[trigger] t[j]) by {
            assert(t[j] == s[j]);
        }
        lemma_last(t, k);
    }
}

/// The mark stands where it belongs.
proof fn lemma_mark_belongs(low: Seq<char>, i: int)
    requires
        mark_belongs(low, i),
    ensures
        carrier(low) == i,
{
    if low[i] == 'a' {
        lemma_first(low, 'a', i);
    } else if low[i] == 'o' {
        lemma_absent(low, 'a');
        lemma_first(low, 'o', i);
    } else if low[i] == 'e' {
        lemma_absent(low, 'a');
        lemma_absent(low, 'o');
        lemma_first(low, 'e', i);
    } else {
        lemma_absent(low, 'a');
        lemma_absent(low, 'o');
        lemma_absent(low, 'e');
        assert forall|j: int| i < j < low.len() implies !is_vowel_spec(#[trigger] low[j]) by {
            assert(low[j] != 'a' && low[j] != 'o' && low[j] != 'e');
            assert(low[j] != 'i' && low[j] != 'u' && low[j] != 'ü');
        }
        assert(is_vowel_spec(low[i]));
        lemma_last(low, i);
    }
}

/// A syllable with a tone from 1 to 4 is written in lower case with the mark of the tone on the
/// vowel that it belongs to, and every other letter stays as it is. A syllable that begins with
/// a capital is written so, with its first letter in upper case.
pub proof fn law_the_mark_stands_where_it_belongs(body: Seq<char>, d: char, i: int)
    requires
        '1' <= d <= '4',
        mark_belongs(lowercase(body_of(body.push(d))), i),
    ensures
        ({
            let b = body_of(body.push(d));
            let low = lowercase(b);
            let marked = Seq::new(
                low.len(),
                |j: int|
                    if j == i {
                        with_mark(low[i], d as int - '0' as int)
                    } else {
                        low[j]
                    },
            );
            syllable_of(body.push(d)).toned == if b.len() > 0 && is_uppercase_char(b[0]) {
                uppercase_char(marked[0]) + marked.drop_first()
            } else {
                marked
            }
        }),
{
    let tok = body.push(d);
    let b = body_of(tok);
    let low = lowercase(b);
    let n = d as int - '0' as int;
    lemma_mark_belongs(low, i);
    assert(tok.last() == d);
    assert(tone_of(tok) == n);
    let m = low.update(i, marked_char(low[i], n as u8));
    let marked = Seq::new(
        low.len(),
        |j: int|
            if j == i {
                with_mark(low[i], n)
            } else {
                low[j]
            },
    );
    lemma_marks(low[i], n);
    assert(m =~= marked);
}

proof fn lemma_marks(c: char, n: int)
    requires
        1 <= n <= 4,
        c == 'a' || c == 'o' || c == 'e' || c == 'i' || c == 'u' || c == 'ü',
    ensures
        marked_char(c, n as u8) == with_mark(c, n),
{
    assert(seq!['ā', 'á', 'ǎ', 'à'][n - 1] == if n == 1 {
        'ā'
    } else if n == 2 {
        'á'
    } else if n == 3 {
        'ǎ'
    } else {
        'à'
    });
    assert(seq!['ō', 'ó', 'ǒ', 'ò'][n - 1] == if n == 1 {
        'ō'
    } else if n == 2 {
        'ó'
    } else if n == 3 {
        'ǒ'
    } else {
        'ò'
    });
    assert(seq!['ē', 'é', 'ě', 'è'][n - 1] == if n == 1 {
        'ē'
    } else if n == 2 {
        'é'
    } else if n == 3 {
        'ě'
    } else {
        'è'
    });
    assert(seq!['ī', 'í', 'ǐ', 'ì'][n - 1] == if n == 1 {
        'ī'
    } else if n == 2 {
        'í'
    } else if n == 3 {
        'ǐ'
    } else {
        'ì'
    });
    assert(seq!['ū', 'ú', 'ǔ', 'ù'][n - 1] == if n == 1 {
        'ū'
    } else if n == 2 {
        'ú'
    } else if n == 3 {
        'ǔ'
    } else {
        'ù'
    });
    assert(seq!['ǖ', 'ǘ', 'ǚ', 'ǜ'][n - 1] == if n == 1 {
        'ǖ'
    } else if n == 2 {
        'ǘ'
    } else if n == 3 {
        'ǚ'
    } else {
        'ǜ'
    });
}

/// In a syllable without `a` and `o` that has an `e`, the first `e` has the mark and `i` and `u`
/// stay bare.
pub proof fn law_e_takes_the_mark(body: Seq<char>, d: char, i: int)
    requires
        '1' <= d <= '4',
        ({
            let b = body_of(body.push(d));
            let low = lowercase(b);
            &&& lacks(low, 'a') && lacks(low, 'o')
            &&& 0 <= i < low.len() && low[i] == 'e'
            &&& forall|j: int| 0 <= j < i ==> #[trigger] low[j] != 'e'
            &&& b.len() > 0 && !is_uppercase_char(b[0])
        }),
    ensures
        syllable_of(body.push(d)).toned.len() == lowercase(body_of(body.push(d))).len(),
        syllable_of(body.push(d)).toned[i] == seq!['ē', 'é', 'ě', 'è'][d as int - '1' as int],
        forall|j: int|
            0 <= j < syllable_of(body.push(d)).toned.len() && j != i
                ==> #[trigger] syllable_of(body.push(d)).toned[j] == lowercase(
                body_of(body.push(d)),
            )[j],
{
    law_the_mark_stands_where_it_belongs(body, d, i);
}

/// The digits 1 to 4 are the tones, 5 is the neutral tone 0 and no digit is 0 as well. Without a
/// tone, and without a vowel, a token is shown as it is but for ü.
pub proof fn law_tones_of_tokens(body: Seq<char>, d: char)
    ensures
        '1' <= d <= '4' ==> syllable_of(body.push(d)).tone == d as int - '0' as int,
        !('1' <= d <= '4') ==> syllable_of(body.push(d)).tone == 0,
        !('1' <= d <= '4') ==> syllable_of(body.push(d)).toned == body_of(body.push(d)),
        '1' <= d <= '5' && lacks(body, ':') ==> body_of(body.push(d)) == body,
        !('1' <= d <= '5') && lacks(body, ':') && d != ':' ==> body_of(body.push(d)) == body.push(d),
        syllable_of(Seq::empty()).tone == 0,
        syllable_of(Seq::empty()).toned.len() == 0,
        ({
            let low = lowercase(body_of(body.push(d)));
            lacks(low, 'a') && lacks(low, 'o') && lacks(low, 'e') && lacks(low, 'i') && lacks(
                low,
                'u',
            ) && lacks(low, 'ü') ==> syllable_of(body.push(d)).toned == body_of(body.push(d))
        }),
{
    let tok = body.push(d);
    assert(tok.last() == d);
    assert(tok.drop_last() =~= body);
    if lacks(body, ':') {
        lemma_replaced_nothing(body, 'u', 'ü');
        lemma_replaced_nothing(body, 'U', 'Ü');
    }
    if lacks(body, ':') && d != ':' {
        assert(lacks(tok, ':'));
        lemma_replaced_nothing(tok, 'u', 'ü');
        lemma_replaced_nothing(tok, 'U', 'Ü');
    }
    let low = lowercase(body_of(tok));
    if lacks(low, 'a') && lacks(low, 'o') && lacks(low, 'e') && lacks(low, 'i') && lacks(low, 'u')
        && lacks(low, 'ü') {
        lemma_absent(low, 'a');
        lemma_absent(low, 'o');
        lemma_absent(low, 'e');
        lemma_no_vowel(low);
    }
    let e = Seq::<char>::empty();
    assert(body_of(e).len() == 0);
}

proof fn lemma_no_vowel(s: Seq<char>)
    requires
        lacks(s, 'a') && lacks(s, 'o') && lacks(s, 'e') && lacks(s, 'i') && lacks(s, 'u') && lacks(
            s,
            'ü',
        ),
    ensures
        last_vowel(s) < 0,
    decreases s.len(),
{
    if s.len() > 0 {
        assert(s[s.len() - 1] != 'a' && s[s.len() - 1] != 'o' && s[s.len() - 1] != 'e');
        assert(s[s.len() - 1] != 'i' && s[s.len() - 1] != 'u' && s[s.len() - 1] != 'ü');
        let t = s.drop_last();
        assert forall|j: int| 0 <= j < t.len() implies #[trigger] t[j] != 'a' && t[j] != 'o' && t[j]
            != 'e' && t[j] != 'i' && t[j] != 'u' && t[j] != 'ü' by {
            assert(t[j] == s[j]);
            assert(s[j] != 'a' && s[j] != 'o' && s[j] != 'e');
            assert(s[j] != 'i' && s[j] != 'u' && s[j] != 'ü');
        }
        lemma_no_vowel(t);
    }
}

/// Where no colon stands nothing is replaced.
proof fn lemma_replaced_nothing(s: Seq<char>, u: char, z: char)
    requires
        lacks(s, ':'),
    ensures
        replaced(s, seq![u, ':'], seq![z]) == s,
    decreases s.len(),
{
    if s.len() > 0 {
        let t = s.drop_first();
        assert forall|j: int| 0 <= j < t.len() implies #[trigger] t[j] != ':' by {
            assert(t[j] == s[j + 1]);
        }
        lemma_replaced_nothing(t, u, z);
        if starts_with(s, seq![u, ':']) {
            assert(s.take(2)[1] == s[1]);
            assert(seq![u, ':'][1] == ':');
        }
        assert(seq![s[0]] + t =~= s);
    }
}

/// `u:` is ü: a token that spells it so has the body with the letter in its place.
pub proof fn law_u_with_a_colon_is_an_umlaut(x: Seq<char>, y: Seq<char>, d: char)
    requires
        lacks(x, ':'),
        lacks(y, ':'),
        '1' <= d <= '5',
    ensures
        body_of((x + seq!['u', ':'] + y).push(d)) == x + seq!['ü'] + y,
        body_of((x + seq!['U', ':'] + y).push(d)) == x + seq!['Ü'] + y,
{
    let a = x + seq!['u', ':'] + y;
    let b = x + seq!['U', ':'] + y;
    assert(a.push(d).drop_last() =~= a);
    assert(b.push(d).drop_last() =~= b);
    lemma_replaced_once(x, 'u', y, 'u', 'ü');
    lemma_replaced_once(x, 'U', y, 'u', 'ü');
    lemma_replaced_once(x, 'U', y, 'U', 'Ü');
    let c = x + seq!['ü'] + y;
    assert forall|j: int| 0 <= j < c.len() implies #[trigger] c[j] != ':' by {
        if j < x.len() {
            assert(c[j] == x[j]);
        } else if j > x.len() {
            assert(c[j] == y[j - x.len() - 1]);
        }
    }
    lemma_replaced_nothing(c, 'U', 'Ü');
}

proof fn lemma_replaced_once(x: Seq<char>, v: char, y: Seq<char>, u: char, z: char)
    requires
        lacks(x, ':'),
        lacks(y, ':'),
        v == 'u' || v == 'U',
        u == 'u' || u == 'U',
    ensures
        replaced(x + seq![v, ':'] + y, seq![u, ':'], seq![z]) == if u == v {
            x + seq![z] + y
        } else {
            x + seq![v, ':'] + y
        },
    decreases x.len(),
{
    let s = x + seq![v, ':'] + y;
    let p = seq![u, ':'];
    if x.len() == 0 {
        assert(s[0] == v && s[1] == ':');
        if u == v {
            assert(s.take(2) =~= p);
            assert(s.skip(2) =~= y);
            lemma_replaced_nothing(y, u, z);
            assert(seq![z] + y =~= x + seq![z] + y);
        } else {
            if starts_with(s, p) {
                assert(s.take(2)[0] == p[0]);
            }
            let t = s.drop_first();
            assert(t[0] == ':');
            if starts_with(t, p) {
                assert(t.take(2)[0] == p[0]);
            }
            assert(t.drop_first() =~= y);
            lemma_replaced_nothing(y, u, z);
            assert(replaced(t, p, seq![z]) =~= t);
            assert(seq![s[0]] + t =~= s);
        }
    } else {
        let w = x.drop_first();
        assert forall|j: int| 0 <= j < w.len() implies #[trigger] w[j] != ':' by {
            assert(w[j] == x[j + 1]);
        }
        lemma_replaced_once(w, v, y, u, z);
        let t = s.drop_first();
        assert(t =~= w + seq![v, ':'] + y);
        if starts_with(s, p) {
            assert(s.take(2)[1] == p[1]);
            assert(s[1] == ':');
            if x.len() > 1 {
                assert(s[1] == x[1]);
            }
        }
        assert(s[0] == x[0]);
        assert(seq![x[0]] + (w + seq![z] + y) =~= x + seq![z] + y);
        assert(seq![x[0]] + (w + seq![v, ':'] + y) =~= s);
    }
}

/// The plain form is the body in lower case with ü as `u`, letter for letter, and the other
/// spelling has `v` there.
pub proof fn law_plain_forms_letter_by_letter(tok: Seq<char>)
    ensures
        syllable_of(tok).plain.len() == lowercase(body_of(tok)).len(),
        syllable_of(tok).plain_v.len() == lowercase(body_of(tok)).len(),
        forall|i: int|
            0 <= i < lowercase(body_of(tok)).len() ==> #[trigger] syllable_of(tok).plain[i]
                == if lowercase(body_of(tok))[i] == 'ü' {
                'u'
            } else {
                lowercase(body_of(tok))[i]
            },
        forall|i: int|
            0 <= i < lowercase(body_of(tok)).len() ==> #[trigger] syllable_of(tok).plain_v[i]
                == if lowercase(body_of(tok))[i] == 'ü' {
                'v'
            } else {
                lowercase(body_of(tok))[i]
            },
{
    crate::spelling::lemma_replaced_char(lowercase(body_of(tok)), 'ü', 'u');
    crate::spelling::lemma_replaced_char(lowercase(body_of(tok)), 'ü', 'v');
}

/// One word is read as one syllable: its plain forms, its initial and its tone are those of the
/// syllable, and it is shown as the syllable is.
pub proof fn law_one_word_is_one_syllable(w: Seq<char>)
    requires
        w.len() > 0,
        has_no_blank(w),
    ensures
        reading_of(w) == seq![syllable_of(w)],
        plain_text(reading_of(w), false) == syllable_of(w).plain,
        plain_text(reading_of(w), true) == syllable_of(w).plain_v,
        toned_text(reading_of(w)) == syllable_of(w).toned,
        tones_of(reading_of(w)) == seq![syllable_of(w).tone],
        initials_of(reading_of(w)) == if syllable_of(w).plain.len() > 0 {
            seq![syllable_of(w).plain[0]]
        } else {
            Seq::empty()
        },
{
    assert forall|i: int| 0 <= i < w.len() implies !Space.holds(#[trigger] w[i]) by {}
    lemma_until_is(w, Space, w.len() as int);
    let one = seq![w];
    assert(one.drop_last() =~= Seq::<Seq<char>>::empty() && one.last() == w);
    assert(non_empty(one.drop_last()) =~= Seq::<Seq<char>>::empty());
    assert(non_empty(one) =~= one);
    assert(words_of(w) == one);
    let y = syllable_of(w);
    let r = reading_of(w);
    assert(r =~= seq![y]);
    assert(r.drop_last() =~= Seq::<SyllableView>::empty());
    assert(tones_of(r) =~= seq![y.tone]);
    assert(initials_of(r.drop_last()) =~= Seq::<char>::empty());
    assert(initials_of(r) =~= if y.plain.len() > 0 {
        seq![y.plain[0]]
    } else {
        Seq::empty()
    });
    assert(toned_parts(r)[0] == y.toned);
}

/// What is shown of two readings with a blank between them is what is shown of each, with a
/// blank between.
pub proof fn law_shown_readings_join(a: Seq<char>, b: Seq<char>)
    requires
        words_of(a).len() > 0,
        words_of(b).len() > 0,
    ensures
        toned_text(reading_of(a + seq![' '] + b)) == toned_text(reading_of(a)) + seq![' ']
            + toned_text(reading_of(b)),
{
    law_readings_join(a, b);
    let x = toned_parts(reading_of(a));
    let y = toned_parts(reading_of(b));
    assert(toned_parts(reading_of(a) + reading_of(b)) =~= x + y);
    crate::ecrows::lemma_join_cat(x, y, seq![' ']);
}

} // verus!
