//! Numbered pinyin of CC-CEDICT to toned pinyin, plain pinyin and initials.
//!
//! Readings are taken from the word as a whole. A character such as 行 reads
//! differently in different words, so readings of single characters put
//! together would be wrong.
use crate::letters::{
    is_upper, is_uppercase_char, lower, lowercase, lowers, upper_char, uppercase_char,
};
use crate::spelling::{
    bodies_lower, law_plain_forms_are_bare, law_spellings_agree_but_for_u, same_but_u,
    spells_umlaut,
};
use crate::text::{
    chars_of, copy, extend, has_no_blank, has_no_capital, join, join_strs, lacks, replace,
    replaced, rows, string_of, texts, words, words_of,
};
use vstd::prelude::*;
use vstd::slice::*;
use vstd::string::*;

verus! {

/// The vowels that can carry a tone mark.
pub open spec fn is_vowel_spec(c: char) -> bool {
    c == 'a' || c == 'o' || c == 'e' || c == 'i' || c == 'u' || c == '\u{fc}'
}

fn is_vowel(c: char) -> (r: bool)
    ensures
        r == is_vowel_spec(c),
{
    c == 'a' || c == 'o' || c == 'e' || c == 'i' || c == 'u' || c == '\u{fc}'
}

/// A vowel with the mark of tone 1 to 4; anything else stays as it is.
pub open spec fn marked_char(c: char, tone: u8) -> char {
    match (c, tone) {
        ('a', 1u8) => '\u{101}',
        ('a', 2u8) => '\u{e1}',
        ('a', 3u8) => '\u{1ce}',
        ('a', 4u8) => '\u{e0}',
        ('o', 1u8) => '\u{14d}',
        ('o', 2u8) => '\u{f3}',
        ('o', 3u8) => '\u{1d2}',
        ('o', 4u8) => '\u{f2}',
        ('e', 1u8) => '\u{113}',
        ('e', 2u8) => '\u{e9}',
        ('e', 3u8) => '\u{11b}',
        ('e', 4u8) => '\u{e8}',
        ('i', 1u8) => '\u{12b}',
        ('i', 2u8) => '\u{ed}',
        ('i', 3u8) => '\u{1d0}',
        ('i', 4u8) => '\u{ec}',
        ('u', 1u8) => '\u{16b}',
        ('u', 2u8) => '\u{fa}',
        ('u', 3u8) => '\u{1d4}',
        ('u', 4u8) => '\u{f9}',
        ('\u{fc}', 1u8) => '\u{1d6}',
        ('\u{fc}', 2u8) => '\u{1d8}',
        ('\u{fc}', 3u8) => '\u{1da}',
        ('\u{fc}', 4u8) => '\u{1dc}',
        _ => c,
    }
}

fn mark(c: char, tone: u8) -> (r: char)
    ensures
        r == marked_char(c, tone),
{
    match (c, tone) {
        ('a', 1u8) => '\u{101}',
        ('a', 2u8) => '\u{e1}',
        ('a', 3u8) => '\u{1ce}',
        ('a', 4u8) => '\u{e0}',
        ('o', 1u8) => '\u{14d}',
        ('o', 2u8) => '\u{f3}',
        ('o', 3u8) => '\u{1d2}',
        ('o', 4u8) => '\u{f2}',
        ('e', 1u8) => '\u{113}',
        ('e', 2u8) => '\u{e9}',
        ('e', 3u8) => '\u{11b}',
        ('e', 4u8) => '\u{e8}',
        ('i', 1u8) => '\u{12b}',
        ('i', 2u8) => '\u{ed}',
        ('i', 3u8) => '\u{1d0}',
        ('i', 4u8) => '\u{ec}',
        ('u', 1u8) => '\u{16b}',
        ('u', 2u8) => '\u{fa}',
        ('u', 3u8) => '\u{1d4}',
        ('u', 4u8) => '\u{f9}',
        ('\u{fc}', 1u8) => '\u{1d6}',
        ('\u{fc}', 2u8) => '\u{1d8}',
        ('\u{fc}', 3u8) => '\u{1da}',
        ('\u{fc}', 4u8) => '\u{1dc}',
        _ => c,
    }
}

/// One syllable taken apart.
#[derive(Clone, Debug, Default, PartialEq)]
pub struct Syllable {
    /// With its tone mark, as `zhōng`. A token that is no pinyin (`A`, `·`) stays as it is.
    pub toned: String,
    /// Lower case without tone, as `zhong`: the key of the `py` lane.
    pub plain: String,
    /// `plain` with ü spelt `v`, as people type `nv` and `lv`. Without ü the same as `plain`.
    pub plain_v: String,
    pub tone: u8,
}

/// What a syllable holds.
#[verifier::ext_equal]
pub struct SyllableView {
    pub toned: Seq<char>,
    pub plain: Seq<char>,
    pub plain_v: Seq<char>,
    pub tone: u8,
}

impl View for Syllable {
    type V = SyllableView;

    open spec fn view(&self) -> SyllableView {
        SyllableView {
            toned: self.toned@,
            plain: self.plain@,
            plain_v: self.plain_v@,
            tone: self.tone,
        }
    }
}

/// Whether a token ends in a tone digit, `1` to `5`.
pub open spec fn has_tone(tok: Seq<char>) -> bool {
    tok.len() > 0 && '1' <= tok.last() <= '5'
}

/// The tone of a token: its digit, where `5`, like no digit, is the neutral tone 0.
pub open spec fn tone_of(tok: Seq<char>) -> u8 {
    if has_tone(tok) && tok.last() != '5' {
        (tok.last() as u32 - '0' as u32) as u8
    } else {
        0
    }
}

/// A token without its tone digit, with `u:` spelt ü.
pub open spec fn body_of(tok: Seq<char>) -> Seq<char> {
    let b = if has_tone(tok) {
        tok.drop_last()
    } else {
        tok
    };
    replaced(replaced(b, seq!['u', ':'], seq!['\u{fc}']), seq!['U', ':'], seq!['\u{dc}'])
}

/// The first position of `c` in `s`, or the length.
pub open spec fn first_of(s: Seq<char>, c: char) -> int
    decreases s.len(),
{
    if s.len() == 0 || s[0] == c {
        0
    } else {
        1 + first_of(s.drop_first(), c)
    }
}

/// The last position of a vowel in `s`, or -1.
pub open spec fn last_vowel(s: Seq<char>) -> int
    decreases s.len(),
{
    if s.len() == 0 || is_vowel_spec(s.last()) {
        s.len() - 1
    } else {
        last_vowel(s.drop_last())
    }
}

/// The position that carries the tone mark: the first `a`, else the first `o`, else the
/// first `e`, else the last vowel; -1 where there is no vowel.
pub open spec fn carrier(s: Seq<char>) -> int {
    if first_of(s, 'a') < s.len() {
        first_of(s, 'a')
    } else if first_of(s, 'o') < s.len() {
        first_of(s, 'o')
    } else if first_of(s, 'e') < s.len() {
        first_of(s, 'e')
    } else {
        last_vowel(s)
    }
}

/// `s` with its first character in upper case.
pub open spec fn capitalised(s: Seq<char>) -> Seq<char> {
    if s.len() == 0 {
        s
    } else {
        uppercase_char(s[0]) + s.drop_first()
    }
}

/// The toned form: the body itself for the neutral tone or where there is no vowel, else
/// the lower-case body with the mark on its carrier, capitalised where the body was.
pub open spec fn toned_of(body: Seq<char>, tone: u8) -> Seq<char> {
    let low = lowercase(body);
    let i = carrier(low);
    if tone == 0 || i < 0 {
        body
    } else {
        let m = low.update(i, marked_char(low[i], tone));
        if body.len() > 0 && is_uppercase_char(body[0]) {
            capitalised(m)
        } else {
            m
        }
    }
}

/// The syllable that a CC-CEDICT token such as `zhong1`, `nu:3`, `r5` or `A` stands for.
pub open spec fn syllable_of(tok: Seq<char>) -> SyllableView {
    let body = body_of(tok);
    let low = lowercase(body);
    SyllableView {
        toned: toned_of(body, tone_of(tok)),
        plain: replaced(low, seq!['\u{fc}'], seq!['u']),
        plain_v: replaced(low, seq!['\u{fc}'], seq!['v']),
        tone: tone_of(tok),
    }
}

proof fn lemma_first_of(s: Seq<char>, c: char, k: int)
    requires
        0 <= k <= s.len(),
        k < s.len() ==> s[k] == c,
        forall|i: int| 0 <= i < k ==> #[trigger] s[i] != c,
    ensures
        first_of(s, c) == k,
    decreases s.len(),
{
    if k > 0 {
        assert(s[0] != c);
        assert forall|i: int| 0 <= i < k - 1 implies #[trigger] s.drop_first()[i] != c by {
            assert(s[i + 1] != c);
        }
        lemma_first_of(s.drop_first(), c, k - 1);
    }
}

/// The carrier is a position of the text, and there is one exactly where there is a vowel.
pub proof fn law_a_tone_stands_on_a_vowel(s: Seq<char>)
    ensures
        -1 <= carrier(s) < s.len(),
        carrier(s) >= 0 ==> is_vowel_spec(s[carrier(s)]),
        carrier(s) < 0 ==> forall|i: int| 0 <= i < s.len() ==> !is_vowel_spec(#[trigger] s[i]),
{
    lemma_first_bound(s, 'a');
    lemma_first_bound(s, 'o');
    lemma_first_bound(s, 'e');
    lemma_last_vowel(s);
}

proof fn lemma_first_bound(s: Seq<char>, c: char)
    ensures
        0 <= first_of(s, c) <= s.len(),
        first_of(s, c) < s.len() ==> s[first_of(s, c)] == c,
    decreases s.len(),
{
    if s.len() > 0 && s[0] != c {
        lemma_first_bound(s.drop_first(), c);
    }
}

proof fn lemma_last_vowel(s: Seq<char>)
    ensures
        -1 <= last_vowel(s) < s.len(),
        last_vowel(s) >= 0 ==> is_vowel_spec(s[last_vowel(s)]),
        forall|i: int| last_vowel(s) < i < s.len() ==> !is_vowel_spec(#[trigger] s[i]),
    decreases s.len(),
{
    if s.len() > 0 && !is_vowel_spec(s.last()) {
        lemma_last_vowel(s.drop_last());
        assert forall|i: int| last_vowel(s) < i < s.len() implies !is_vowel_spec(
            #[trigger] s[i],
        ) by {
            if i < s.len() - 1 {
                assert(s.drop_last()[i] == s[i]);
            }
        }
    }
}

fn find_char(s: &Vec<char>, c: char) -> (r: usize)
    ensures
        r == first_of(s@, c),
        r <= s.len(),
{
    let mut i: usize = 0;
    while i < s.len() && s[i] != c
        invariant
            i <= s.len(),
            forall|j: int| 0 <= j < i ==> #[trigger] s@[j] != c,
        decreases s.len() - i,
    {
        i = i + 1;
    }
    proof {
        lemma_first_of(s@, c, i as int);
    }
    i
}

fn find_carrier(s: &Vec<char>) -> (r: Option<usize>)
    ensures
        match r {
            Some(i) => carrier(s@) == i && i < s.len(),
            None => carrier(s@) < 0,
        },
{
    let a: usize = find_char(s, 'a');
    if a < s.len() {
        return Some(a);
    }
    let o: usize = find_char(s, 'o');
    if o < s.len() {
        return Some(o);
    }
    let e: usize = find_char(s, 'e');
    if e < s.len() {
        return Some(e);
    }
    let mut n: usize = s.len();
    assert(s@.take(n as int) =~= s@);
    while n > 0
        invariant
            n <= s.len(),
            a >= s.len(),
            o >= s.len(),
            e >= s.len(),
            a == first_of(s@, 'a'),
            o == first_of(s@, 'o'),
            e == first_of(s@, 'e'),
            last_vowel(s@) == last_vowel(s@.take(n as int)),
        decreases n,
    {
        if is_vowel(s[n - 1]) {
            return Some(n - 1);
        }
        assert(s@.take(n as int).drop_last() =~= s@.take(n as int - 1));
        n = n - 1;
    }
    None
}

/// Takes one CC-CEDICT token apart.
pub fn parse_syllable(tok: &str) -> (r: Syllable)
    ensures
        r@ == syllable_of(tok@),
        lowers(body_of(tok@)),
{
    let c = chars_of(tok);
    let n: usize = c.len();
    let mut tone: u8 = 0;
    let mut end: usize = n;
    if n > 0 {
        let last: char = c[n - 1];
        if '1' <= last && last <= '5' {
            end = n - 1;
            if last != '5' {
                tone = (last as u32 - 48) as u8;
            }
        }
    }
    let stem = slice_subrange(&c, 0, end);
    assert(stem@ =~= if has_tone(tok@) { tok@.drop_last() } else { tok@ });
    let u_colon: [char; 2] = ['u', ':'];
    let big_u_colon: [char; 2] = ['U', ':'];
    let umlaut: [char; 1] = ['\u{fc}'];
    let big_umlaut: [char; 1] = ['\u{dc}'];
    let plain_u: [char; 1] = ['u'];
    let letter_v: [char; 1] = ['v'];
    assert(u_colon@ =~= seq!['u', ':']);
    assert(big_u_colon@ =~= seq!['U', ':']);
    assert(umlaut@ =~= seq!['\u{fc}']);
    assert(big_umlaut@ =~= seq!['\u{dc}']);
    assert(plain_u@ =~= seq!['u']);
    assert(letter_v@ =~= seq!['v']);
    let half = replace(stem, &u_colon, &umlaut);
    let body = replace(&half, &big_u_colon, &big_umlaut);
    let low = lower(&body);
    let plain = replace(&low, &umlaut, &plain_u);
    let plain_v = replace(&low, &umlaut, &letter_v);
    let at = find_carrier(&low);
    let toned: Vec<char> = match at {
        Some(i) if tone != 0 => {
            let mut m = copy(&low);
            let marked = mark(low[i], tone);
            m.set(i, marked);
            if body.len() > 0 && is_upper(body[0]) {
                let mut up = upper_char(m[0]);
                let tail = slice_subrange(&m, 1, m.len());
                assert(tail@ =~= m@.drop_first());
                extend(&mut up, tail);
                up
            } else {
                m
            }
        },
        _ => copy(&body),
    };
    Syllable {
        toned: string_of(&toned),
        plain: string_of(&plain),
        plain_v: string_of(&plain_v),
        tone,
    }
}

/// A whole reading, such as `Zhong1 guo2`.
#[derive(Clone, Debug, Default)]
pub struct Reading {
    pub syllables: Vec<Syllable>,
}

/// What the syllables of a table hold.
pub open spec fn syllable_views(v: Seq<Syllable>) -> Seq<SyllableView> {
    Seq::new(v.len(), |i: int| v[i]@)
}

impl View for Reading {
    type V = Seq<SyllableView>;

    open spec fn view(&self) -> Seq<SyllableView> {
        syllable_views(self.syllables@)
    }
}

/// The syllables of a reading: one for each word of it.
pub open spec fn reading_of(s: Seq<char>) -> Seq<SyllableView> {
    Seq::new(words_of(s).len(), |i: int| syllable_of(words_of(s)[i]))
}

/// The toned forms of a reading.
pub open spec fn toned_parts(r: Seq<SyllableView>) -> Seq<Seq<char>> {
    Seq::new(r.len(), |i: int| r[i].toned)
}

/// The plain forms of a reading, with ü spelt `u` or `v`.
pub open spec fn plain_parts(r: Seq<SyllableView>, v: bool) -> Seq<Seq<char>> {
    Seq::new(
        r.len(),
        |i: int|
            if v {
                r[i].plain_v
            } else {
                r[i].plain
            },
    )
}

/// The toned forms with a blank between them.
pub open spec fn toned_text(r: Seq<SyllableView>) -> Seq<char> {
    join(toned_parts(r), seq![' '])
}

/// The plain forms written together.
pub open spec fn plain_text(r: Seq<SyllableView>, v: bool) -> Seq<char> {
    join(plain_parts(r, v), Seq::empty())
}

/// The first character of each plain form that has one.
pub open spec fn initials_of(r: Seq<SyllableView>) -> Seq<char>
    decreases r.len(),
{
    if r.len() == 0 {
        Seq::empty()
    } else if r.last().plain.len() == 0 {
        initials_of(r.drop_last())
    } else {
        initials_of(r.drop_last()).push(r.last().plain[0])
    }
}

/// The tones of a reading.
pub open spec fn tones_of(r: Seq<SyllableView>) -> Seq<u8> {
    Seq::new(r.len(), |i: int| r[i].tone)
}

impl Reading {
    pub fn parse(s: &str) -> (r: Self)
        ensures
            r@ == reading_of(s@),
            forall|v: bool|
                has_no_blank(#[trigger] plain_text(r@, v)) && has_no_capital(plain_text(r@, v))
                    && lacks(plain_text(r@, v), '\u{fc}'),
            same_but_u(plain_text(r@, false), plain_text(r@, true)),
            plain_text(r@, false) == plain_text(r@, true) <==> !spells_umlaut(s@),
    {
        let c = chars_of(s);
        let w = words(&c);
        let mut syllables: Vec<Syllable> = Vec::new();
        let mut i: usize = 0;
        while i < w.len()
            invariant
                rows(w@) == words_of(s@),
                i <= w.len(),
                syllables.len() == i,
                forall|j: int|
                    0 <= j < i ==> (#[trigger] syllables@[j])@ == syllable_of(words_of(s@)[j]),
                forall|j: int| 0 <= j < i ==> lowers(body_of(#[trigger] words_of(s@)[j])),
            decreases w.len() - i,
        {
            assert(rows(w@)[i as int] == w@[i as int]@);
            let tok = string_of(&w[i]);
            let y = parse_syllable(tok.as_str());
            syllables.push(y);
            i = i + 1;
        }
        let r = Reading { syllables };
        assert(r@ =~= reading_of(s@));
        proof {
            assert(bodies_lower(s@));
            law_plain_forms_are_bare(s@);
            law_spellings_agree_but_for_u(s@);
            assert forall|v: bool| lacks(#[trigger] plain_text(r@, v), '\u{fc}') by {
                if v {
                    assert(v == true);
                } else {
                    assert(v == false);
                }
            }
        }
        r
    }

    /// Toned pinyin with a blank between syllables, for display.
    pub fn toned(&self) -> (r: String)
        ensures
            r@ == toned_text(self@),
    {
        let mut parts: Vec<String> = Vec::new();
        let mut i: usize = 0;
        while i < self.syllables.len()
            invariant
                i <= self.syllables.len(),
                parts.len() == i,
                forall|j: int| 0 <= j < i ==> (#[trigger] parts@[j])@ == self@[j].toned,
            decreases self.syllables.len() - i,
        {
            parts.push(self.syllables[i].toned.clone());
            i = i + 1;
        }
        assert(texts(parts@) =~= toned_parts(self@));
        proof {
            reveal_strlit(" ");
            assert(" "@ =~= seq![' ']);
        }
        join_strs(&parts, " ")
    }

    pub fn tones(&self) -> (r: Vec<u8>)
        ensures
            r@ == tones_of(self@),
    {
        let mut r: Vec<u8> = Vec::new();
        let mut i: usize = 0;
        while i < self.syllables.len()
            invariant
                i <= self.syllables.len(),
                r.len() == i,
                forall|j: int| 0 <= j < i ==> #[trigger] r@[j] == self@[j].tone,
            decreases self.syllables.len() - i,
        {
            r.push(self.syllables[i].tone);
            i = i + 1;
        }
        assert(r@ =~= tones_of(self@));
        r
    }

    /// Plain pinyin written together, the key of the `py` lane: `zhongguo`.
    pub fn plain(&self) -> (r: String)
        ensures
            r@ == plain_text(self@, false),
    {
        concat_plain(&self.syllables, false)
    }

    /// The same with ü spelt `v`. Where it equals `plain()` the caller skips it.
    pub fn plain_v(&self) -> (r: String)
        ensures
            r@ == plain_text(self@, true),
    {
        concat_plain(&self.syllables, true)
    }

    /// The initials, the key of the `ini` lane: `zg`.
    pub fn initials(&self) -> (r: String)
        ensures
            r@ == initials_of(self@),
    {
        let mut r: String = String::new();
        let mut i: usize = 0;
        assert(self@.take(0) =~= Seq::<SyllableView>::empty());
        while i < self.syllables.len()
            invariant
                i <= self.syllables.len(),
                r@ == initials_of(self@.take(i as int)),
            decreases self.syllables.len() - i,
        {
            let p = chars_of(self.syllables[i].plain.as_str());
            proof {
                assert(self@.take(i as int + 1).drop_last() =~= self@.take(i as int));
                assert(self@.take(i as int + 1).last().plain == p@);
            }
            if p.len() > 0 {
                r.push(p[0]);
            }
            i = i + 1;
        }
        assert(self@.take(i as int) =~= self@);
        r
    }
}

fn concat_plain(syllables: &Vec<Syllable>, v: bool) -> (r: String)
    ensures
        r@ == plain_text(syllable_views(syllables@), v),
{
    let mut parts: Vec<String> = Vec::new();
    let ghost want = plain_parts(syllable_views(syllables@), v);
    let mut i: usize = 0;
    while i < syllables.len()
        invariant
            i <= syllables.len(),
            parts.len() == i,
            want == plain_parts(syllable_views(syllables@), v),
            forall|j: int| 0 <= j < i ==> (#[trigger] parts@[j])@ == want[j],
        decreases syllables.len() - i,
    {
        if v {
            parts.push(syllables[i].plain_v.clone());
        } else {
            parts.push(syllables[i].plain.clone());
        }
        i = i + 1;
    }
    assert(texts(parts@) =~= want);
    proof {
        reveal_strlit("");
        assert(""@ =~= Seq::<char>::empty());
    }
    join_strs(&parts, "")
}

} // verus!
