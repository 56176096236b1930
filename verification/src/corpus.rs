//! Word frequencies, variant characters and example sentences: what fills an entry out.
use crate::cedict::{
    at_most, lemma_long_tokens, lemma_long_tokens_kept, long_tokens, push_long_tokens, RawZh,
    RawZhView,
};
use crate::english::is_text;
use crate::fasthash::{IdMap, IdSet};
use crate::letters::{is_plain_char, is_plain_text, lowercase, lowers, plain_lower_char};
use crate::model::EntryView;
use crate::number::{parse_nat, parse_u32, parsed_nat};
use crate::order::{permuted, stable_perm, stable_sort};
use crate::single::Double;
use crate::sorted::{
    is_sorted_set, law_sorted_texts_are_sorted, lemma_sorted_texts, number_order, sort_numbers,
    sort_texts, sorted_texts, text_order,
};
use crate::text::{
    chars_of, copy, has_prefix, join, lemma_split_join, lemma_split_parts, lemma_texts_push,
    position, rows, same, split, split_by, starts_with, string_of, texts, trim, trimmed, until,
    words, words_of, CharClass, NotLatin, One,
};
use vstd::hash_map::StringHashMap;
use vstd::hash_set::StringHashSet;
use vstd::prelude::*;
use vstd::slice::*;
use vstd::std_specs::hash::*;
use vstd::string::*;
use vstd::utf8::*;

verus! {

// ───────────────────────── frequencies and parts of speech ─────────────────────────

/// The part of speech shown for a tag of the jieba dictionary; empty where none is.
pub open spec fn pos_name(t: Seq<char>) -> Seq<char> {
    if t == "n"@ || t == "nr"@ || t == "ns"@ || t == "nt"@ || t == "nz"@ || t == "nrt"@ || t
        == "nrfg"@ || t == "ng"@ {
        "名"@
    } else if t == "v"@ || t == "vd"@ || t == "vn"@ || t == "vf"@ || t == "vx"@ || t == "vi"@ || t
        == "vl"@ || t == "vg"@ {
        "动"@
    } else if t == "a"@ || t == "ad"@ || t == "an"@ || t == "ag"@ || t == "al"@ {
        "形"@
    } else if t == "d"@ || t == "df"@ || t == "dg"@ {
        "副"@
    } else if t == "m"@ || t == "mq"@ {
        "数"@
    } else if t == "q"@ {
        "量"@
    } else if t == "r"@ || t == "rr"@ || t == "rz"@ || t == "rt"@ || t == "ry"@ || t == "rg"@ {
        "代"@
    } else if t == "p"@ || t == "pba"@ || t == "pbei"@ {
        "介"@
    } else if t == "c"@ || t == "cc"@ {
        "连"@
    } else if t == "u"@ || t == "uj"@ || t == "ud"@ || t == "ug"@ || t == "ul"@ || t == "uv"@ || t
        == "uz"@ {
        "助"@
    } else if t == "i"@ {
        "成语"@
    } else if t == "l"@ {
        "习语"@
    } else if t == "j"@ {
        "简称"@
    } else if t == "t"@ || t == "tg"@ {
        "时间"@
    } else if t == "s"@ {
        "处所"@
    } else if t == "f"@ {
        "方位"@
    } else if t == "b"@ {
        "区别"@
    } else if t == "z"@ {
        "状态"@
    } else if t == "y"@ {
        "语气"@
    } else if t == "e"@ {
        "叹"@
    } else if t == "o"@ {
        "拟声"@
    } else if t == "h"@ {
        "前缀"@
    } else if t == "k"@ {
        "后缀"@
    } else {
        ""@
    }
}

fn pos_label(t: &[char]) -> (r: &'static str)
    ensures
        r@ == pos_name(t@),
{
    if is_text(t, "n") || is_text(t, "nr") || is_text(t, "ns") || is_text(t, "nt") || is_text(
        t,
        "nz",
    ) || is_text(t, "nrt") || is_text(t, "nrfg") || is_text(t, "ng") {
        "名"
    } else if is_text(t, "v") || is_text(t, "vd") || is_text(t, "vn") || is_text(t, "vf")
        || is_text(t, "vx") || is_text(t, "vi") || is_text(t, "vl") || is_text(t, "vg") {
        "动"
    } else if is_text(t, "a") || is_text(t, "ad") || is_text(t, "an") || is_text(t, "ag")
        || is_text(t, "al") {
        "形"
    } else if is_text(t, "d") || is_text(t, "df") || is_text(t, "dg") {
        "副"
    } else if is_text(t, "m") || is_text(t, "mq") {
        "数"
    } else if is_text(t, "q") {
        "量"
    } else if is_text(t, "r") || is_text(t, "rr") || is_text(t, "rz") || is_text(t, "rt")
        || is_text(t, "ry") || is_text(t, "rg") {
        "代"
    } else if is_text(t, "p") || is_text(t, "pba") || is_text(t, "pbei") {
        "介"
    } else if is_text(t, "c") || is_text(t, "cc") {
        "连"
    } else if is_text(t, "u") || is_text(t, "uj") || is_text(t, "ud") || is_text(t, "ug")
        || is_text(t, "ul") || is_text(t, "uv") || is_text(t, "uz") {
        "助"
    } else if is_text(t, "i") {
        "成语"
    } else if is_text(t, "l") {
        "习语"
    } else if is_text(t, "j") {
        "简称"
    } else if is_text(t, "t") || is_text(t, "tg") {
        "时间"
    } else if is_text(t, "s") {
        "处所"
    } else if is_text(t, "f") {
        "方位"
    } else if is_text(t, "b") {
        "区别"
    } else if is_text(t, "z") {
        "状态"
    } else if is_text(t, "y") {
        "语气"
    } else if is_text(t, "e") {
        "叹"
    } else if is_text(t, "o") {
        "拟声"
    } else if is_text(t, "h") {
        "前缀"
    } else if is_text(t, "k") {
        "后缀"
    } else {
        ""
    }
}

/// A line of the jieba dictionary, `word count tag`. The count is still text.
pub struct FreqLine {
    pub word: String,
    pub count: String,
    pub tag: Option<String>,
}

/// Takes a line of the jieba dictionary apart. The tag may be missing, the count may not.
pub fn split_freq_line(line: &str) -> (r: Option<FreqLine>)
    ensures
        match r {
            Some(f) => {
                let w = words_of(line@);
                &&& w.len() >= 2
                &&& f.word@ == w[0]
                &&& f.count@ == w[1]
                &&& match f.tag {
                    Some(t) => w.len() >= 3 && t@ == w[2],
                    None => w.len() < 3,
                }
            },
            None => words_of(line@).len() < 2,
        },
{
    let c = chars_of(line);
    let w = words(&c);
    assert(rows(w@).len() == w@.len());
    if w.len() < 2 {
        return None;
    }
    let word = string_of(&w[0]);
    let count = string_of(&w[1]);
    assert(rows(w@)[0] == word@ && rows(w@)[1] == count@);
    let tag: Option<String> = if w.len() >= 3 {
        let t = string_of(&w[2]);
        assert(rows(w@)[2] == t@);
        Some(t)
    } else {
        None
    };
    Some(FreqLine { word, count, tag })
}

/// Chinese word frequencies and parts of speech.
pub struct ZhFreq {
    pub count: StringHashMap<Double>,
    pub pos: StringHashMap<String>,
}

/// The texts of a map.
pub open spec fn text_values<K>(m: Map<K, String>) -> Map<K, Seq<char>> {
    Map::new(|k: K| m.contains_key(k), |k: K| m[k]@)
}

impl ZhFreq {
    pub fn new() -> (r: Self)
        ensures
            r.count@ == Map::<Seq<char>, Double>::empty(),
            text_values(r.pos@) == Map::<Seq<char>, Seq<char>>::empty(),
    {
        let r = ZhFreq { count: StringHashMap::new(), pos: StringHashMap::new() };
        assert(text_values(r.pos@) =~= Map::<Seq<char>, Seq<char>>::empty());
        r
    }

    /// Notes the count of a word, and its part of speech where the tag has a name. A word met
    /// again is noted anew.
    pub fn add(&mut self, f: FreqLine, count: Double)
        ensures
            final(self).count@ == old(self).count@.insert(f.word@, count),
            text_values(final(self).pos@) == match f.tag {
                Some(t) => if pos_name(t@).len() > 0 {
                    text_values(old(self).pos@).insert(f.word@, pos_name(t@))
                } else {
                    text_values(old(self).pos@)
                },
                None => text_values(old(self).pos@),
            },
    {
        let ghost before = text_values(self.pos@);
        let FreqLine { word, count: _, tag } = f;
        self.count.insert(word.clone(), count);
        match tag {
            Some(t) => {
                let c = chars_of(t.as_str());
                let label = pos_label(&c);
                if label.unicode_len() > 0 {
                    let l = chars_of(label);
                    self.pos.insert(word, string_of(&l));
                    assert(text_values(self.pos@) =~= before.insert(f.word@, pos_name(t@)));
                }
            },
            None => {},
        }
    }

    pub fn count_of(&self, word: &str) -> (r: Option<Double>)
        ensures
            match r {
                Some(d) => self.count@.contains_key(word@) && self.count@[word@] == d,
                None => !self.count@.contains_key(word@),
            },
    {
        match self.count.get(word) {
            Some(d) => Some(*d),
            None => None,
        }
    }

    pub fn pos_of(&self, word: &str) -> (r: Option<String>)
        ensures
            match r {
                Some(s) => text_values(self.pos@).contains_key(word@) && text_values(
                    self.pos@,
                )[word@] == s@,
                None => !text_values(self.pos@).contains_key(word@),
            },
    {
        match self.pos.get(word) {
            Some(s) => Some(s.clone()),
            None => None,
        }
    }
}

/// Gives a headword the part of speech that the corpus has for it; a word that the corpus does
/// not know stays as it is.
pub fn take_pos(r: &mut RawZh, freq: &ZhFreq)
    ensures
        final(r)@ == (RawZhView {
            entry: EntryView {
                pos: if text_values(freq.pos@).contains_key(old(r)@.entry.word) {
                    text_values(freq.pos@)[old(r)@.entry.word]
                } else {
                    old(r)@.entry.pos
                },
                ..old(r)@.entry
            },
            ..old(r)@
        }),
{
    match freq.pos_of(r.entry.word.as_str()) {
        Some(p) => {
            r.entry.pos = p;
        },
        None => {},
    }
}

// ───────────────────────── variant characters ─────────────────────────

/// `char::from_u32`: the character of a code point, where it is a Unicode scalar value.
pub assume_specification[ char::from_u32 ](i: u32) -> (r: Option<char>)
    ensures
        r is Some == is_scalar(i),
        r matches Some(c) ==> c as u32 == i,
;

/// The character that a Unihan code point names: `U+` and hexadecimal digits, with what
/// follows a `<` left out.
pub open spec fn codepoint(s: Seq<char>) -> Option<char> {
    let t = s.take(until(s, One('<')) as int);
    if starts_with(t, "U+"@) {
        match parsed_nat(t.skip(2), 16, u32::MAX as nat) {
            Some(n) => if is_scalar(n as u32) {
                Some(n as u32 as char)
            } else {
                None
            },
            None => None,
        }
    } else {
        None
    }
}

/// Reads a code point such as `U+4E2D` or `U+439B<kMatthews`.
pub fn parse_codepoint(s: &str) -> (r: Option<char>)
    ensures
        r == codepoint(s@),
{
    let c = chars_of(s);
    codepoint_of(&c)
}

fn codepoint_of(c: &[char]) -> (r: Option<char>)
    ensures
        r == codepoint(c@),
{
    let k: usize = position(c, &One('<'));
    let t = slice_subrange(c, 0, k);
    assert(t@ =~= c@.take(k as int));
    let u = chars_of("U+");
    proof {
        reveal_strlit("U+");
        assert("U+"@.len() == 2);
    }
    if !has_prefix(t, &u) {
        return None;
    }
    assert(t@.skip(2) =~= t@.subrange(2, t@.len() as int));
    match parse_nat(slice_subrange(t, 2, t.len()), 16, u32::MAX as u64) {
        Some(n) => {
            let r = char::from_u32(n as u32);
            proof {
                if let Some(x) = r {
                    char_u32_cast(x, n as u32);
                }
            }
            r
        },
        None => None,
    }
}

/// The fields of Unihan that list variants of a character.
pub open spec fn is_variant_field(f: Seq<char>) -> bool {
    f == "kSemanticVariant"@ || f == "kSimplifiedVariant"@ || f == "kTraditionalVariant"@ || f
        == "kZVariant"@
}

/// The characters that the words name, without `c` itself.
pub open spec fn others(w: Seq<Seq<char>>, c: char) -> Seq<char>
    decreases w.len(),
{
    if w.len() == 0 {
        Seq::empty()
    } else {
        match codepoint(w.last()) {
            Some(v) => if v == c {
                others(w.drop_last(), c)
            } else {
                others(w.drop_last(), c).push(v)
            },
            None => others(w.drop_last(), c),
        }
    }
}

/// What a line of Unihan says: a character and its variants. Comments, blank lines, other
/// fields and lines that name no variant say nothing.
pub open spec fn variant_line(line: Seq<char>) -> Option<(char, Seq<char>)> {
    let f = split_by(line, One('\t'));
    if (line.len() > 0 && line[0] == '#') || trimmed(line).len() == 0 || f.len() < 3
        || !is_variant_field(f[1]) {
        None
    } else {
        match codepoint(f[0]) {
            Some(c) => {
                let l = others(words_of(f[2]), c);
                if l.len() == 0 {
                    None
                } else {
                    Some((c, l))
                }
            },
            None => None,
        }
    }
}

/// Character to variants. A headword is stored in one spelling and may be typed in another.
pub struct Variants {
    /// Where the variants of a character stand, by its code point.
    pub slot: IdMap<usize>,
    pub lists: Vec<Vec<char>>,
}

impl Variants {
    pub open spec fn wf(self) -> bool {
        forall|u: u32| #[trigger] self.slot@.contains_key(u) ==> self.slot@[u] < self.lists@.len()
    }

    /// The table shares no list between characters.
    pub open spec fn distinct(self) -> bool {
        &&& self.wf()
        &&& forall|u: u32, v: u32|
            self.slot@.contains_key(u) && self.slot@.contains_key(v) && u != v
                ==> #[trigger] self.slot@[u] != #[trigger] self.slot@[v]
    }

    /// The variants noted for a character, in the order they stand.
    pub open spec fn of(self, c: char) -> Seq<char> {
        if self.slot@.contains_key(c as u32) {
            self.lists@[self.slot@[c as u32] as int]@
        } else {
            Seq::empty()
        }
    }

    pub fn new() -> (r: Self)
        ensures
            r.distinct(),
            forall|c: char| #[trigger] r.of(c) == Seq::<char>::empty(),
    {
        broadcast use group_hash_axioms;

        Variants { slot: IdMap::new(), lists: Vec::new() }
    }

    /// Adds variants of a character after those it has.
    pub fn add(&mut self, c: char, list: Vec<char>)
        requires
            old(self).distinct(),
        ensures
            final(self).distinct(),
            forall|x: char| #[trigger]
                final(self).of(x) == if x == c {
                    old(self).of(x) + list@
                } else {
                    old(self).of(x)
                },
    {
        broadcast use group_hash_axioms;

        let u: u32 = c as u32;
        let ghost was = *self;
        let at: Option<usize> = match self.slot.get(&u) {
            Some(p) => Some(*p),
            None => None,
        };
        match at {
            Some(p) => {
                let mut l = copy(&self.lists[p]);
                crate::text::extend(&mut l, &list);
                self.lists.set(p, l);
            },
            None => {
                let n: usize = self.lists.len();
                self.slot.insert(u, n);
                self.lists.push(list);
            },
        }
        proof {
            assert forall|x: char| #[trigger] self.of(x) == if x == c {
                was.of(x) + list@
            } else {
                was.of(x)
            } by {
                let v = x as u32;
                if v == u {
                    char_u32_cast(x, v);
                    char_u32_cast(c, u);
                    assert(x == c);
                    assert(self.of(x) =~= was.of(x) + list@);
                } else if was.slot@.contains_key(v) {
                    assert(was.slot@[v] < was.lists@.len());
                    if let Some(p) = at {
                        assert(was.slot@[v] != was.slot@[u]);
                    }
                    assert(self.of(x) =~= was.of(x));
                }
            }
        }
    }

    /// Reads one line of the Unihan variants file.
    pub fn add_line(&mut self, line: &str)
        requires
            old(self).distinct(),
        ensures
            final(self).distinct(),
            forall|x: char| #[trigger]
                final(self).of(x) == match variant_line(line@) {
                    Some((c, l)) => if x == c {
                        old(self).of(x) + l
                    } else {
                        old(self).of(x)
                    },
                    None => old(self).of(x),
                },
    {
        let s = chars_of(line);
        if (s.len() > 0 && s[0] == '#') || trim(&s).len() == 0 {
            return ;
        }
        let f = split(&s, &One('\t'));
        assert(rows(f@).len() == f@.len());
        if f.len() < 3 {
            return ;
        }
        assert(rows(f@)[0] == f@[0]@ && rows(f@)[1] == f@[1]@ && rows(f@)[2] == f@[2]@);
        let field = &f[1];
        if !(is_text(field, "kSemanticVariant") || is_text(field, "kSimplifiedVariant") || is_text(
            field,
            "kTraditionalVariant",
        ) || is_text(field, "kZVariant")) {
            return ;
        }
        match codepoint_of(&f[0]) {
            Some(c) => {
                let w = words(&f[2]);
                let list = other_chars(&w, c);
                if list.len() > 0 {
                    self.add(c, list);
                }
            },
            None => {},
        }
    }

    /// Sorts the variants of every character and keeps each once.
    pub fn finish(&mut self)
        requires
            old(self).distinct(),
        ensures
            final(self).distinct(),
            forall|x: char| is_sorted_set(char_order(), #[trigger] final(self).of(x), old(self).of(x)),
    {
        let ghost was = *self;
        let mut i: usize = 0;
        while i < self.lists.len()
            invariant
                i <= self.lists.len(),
                self.slot@ == was.slot@,
                self.lists@.len() == was.lists@.len(),
                was.distinct(),
                forall|j: int|
                    i <= j < self.lists@.len() ==> (#[trigger] self.lists@[j])@ == was.lists@[j]@,
                forall|j: int|
                    0 <= j < i ==> is_sorted_set(
                        char_order(),
                        (#[trigger] self.lists@[j])@,
                        was.lists@[j]@,
                    ),
            decreases self.lists.len() - i,
        {
            let l = sort_chars(&self.lists[i]);
            self.lists.set(i, l);
            i = i + 1;
        }
        proof {
            assert forall|x: char| is_sorted_set(char_order(), #[trigger] self.of(x), was.of(x)) by {
                if was.slot@.contains_key(x as u32) {
                    let k = was.slot@[x as u32] as int;
                    assert(is_sorted_set(char_order(), self.lists@[k]@, was.lists@[k]@));
                }
            }
        }
    }

    /// The spellings of a word with one character replaced by a variant, for words of up to
    /// four characters, `max_out` of them at most.
    pub fn spellings(&self, word: &str, max_out: usize) -> (r: Vec<String>)
        requires
            self.wf(),
        ensures
            texts(r@) == at_most(all_spellings(*self, word@), max_out as int),
    {
        broadcast use group_hash_axioms;

        let c = chars_of(word);
        let mut out: Vec<String> = Vec::new();
        assert(texts(out@) =~= Seq::<Seq<char>>::empty());
        let ghost all = all_spellings(*self, word@);
        if c.len() > 4 {
            return out;
        }
        let mut i: usize = 0;
        while i < c.len()
            invariant
                c@ == word@,
                c.len() <= 4,
                self.wf(),
                i <= c.len(),
                all == spellings_upto(*self, word@, c@.len()),
                texts(out@) == at_most(
                    spellings_upto(*self, word@, i as nat),
                    max_out as int,
                ),
            decreases c.len() - i,
        {
            let u: u32 = c[i] as u32;
            let at: Option<usize> = match self.slot.get(&u) {
                Some(p) => Some(*p),
                None => None,
            };
            let ghost base = spellings_upto(*self, word@, i as nat);
            match at {
                Some(p) => {
                    let alts = &self.lists[p];
                    let mut k: usize = 0;
                    assert(alts@ == self.of(c@[i as int]));
                    assert(alts@.take(0) =~= Seq::<char>::empty());
                    assert(base + swapped(word@, i as int, alts@.take(0)) =~= base);
                    while k < alts.len()
                        invariant
                            c@ == word@,
                            i < c.len(),
                            k <= alts.len(),
                            texts(out@) == at_most(
                                base + swapped(word@, i as int, alts@.take(k as int)),
                                max_out as int,
                            ),
                        decreases alts.len() - k,
                    {
                        let ghost t = swapped(word@, i as int, alts@.take(k as int));
                        assert(alts@.take(k as int + 1).drop_last() =~= alts@.take(k as int));
                        let mut w = copy(&c);
                        w.set(i, alts[k]);
                        if !same(&w, &c) {
                            let ghost next = base + t.push(w@);
                            assert(next =~= (base + t).push(w@));
                            if out.len() < max_out {
                                let s = string_of(&w);
                                proof {
                                    lemma_texts_push(out@, s);
                                }
                                out.push(s);
                                assert(texts(out@) =~= at_most(next, max_out as int));
                            } else {
                                assert(texts(out@) =~= at_most(next, max_out as int));
                            }
                        }
                        k = k + 1;
                    }
                    assert(alts@.take(k as int) =~= alts@);
                },
                None => {
                    assert(self.of(c@[i as int]) =~= Seq::<char>::empty());
                    assert(base + swapped(word@, i as int, Seq::<char>::empty()) =~= base);
                },
            }
            i = i + 1;
        }
        out
    }
}

/// The variants that lines note for a character, in order.
pub open spec fn noted(lines: Seq<Seq<char>>, c: char) -> Seq<char>
    decreases lines.len(),
{
    if lines.len() == 0 {
        Seq::empty()
    } else {
        let a = noted(lines.drop_last(), c);
        match variant_line(lines.last()) {
            Some((x, l)) => if x == c {
                a + l
            } else {
                a
            },
            None => a,
        }
    }
}

impl Variants {
    /// Reads the lines of the Unihan variants file.
    pub fn load(lines: &Vec<String>) -> (r: Self)
        ensures
            r.distinct(),
            forall|c: char| is_sorted_set(char_order(), #[trigger] r.of(c), noted(texts(lines@), c)),
    {
        let mut v = Variants::new();
        let ghost all = texts(lines@);
        let mut i: usize = 0;
        assert(all.take(0) =~= Seq::<Seq<char>>::empty());
        while i < lines.len()
            invariant
                i <= lines.len(),
                all == texts(lines@),
                v.distinct(),
                forall|c: char| #[trigger] v.of(c) == noted(all.take(i as int), c),
            decreases lines.len() - i,
        {
            proof {
                let t = all.take(i as int + 1);
                assert(t.drop_last() =~= all.take(i as int));
                assert(t.last() == lines@[i as int]@);
            }
            v.add_line(lines[i].as_str());
            i = i + 1;
        }
        assert(all.take(i as int) =~= all);
        v.finish();
        v
    }
}

/// `w` with the character at `i` replaced by each of `alts`, leaving out `w` itself.
pub open spec fn swapped(w: Seq<char>, i: int, alts: Seq<char>) -> Seq<Seq<char>>
    decreases alts.len(),
{
    if alts.len() == 0 {
        Seq::empty()
    } else if w.update(i, alts.last()) == w {
        swapped(w, i, alts.drop_last())
    } else {
        swapped(w, i, alts.drop_last()).push(w.update(i, alts.last()))
    }
}

/// The spellings with one of the first `n` characters replaced.
pub open spec fn spellings_upto(v: Variants, w: Seq<char>, n: nat) -> Seq<Seq<char>>
    decreases n,
{
    if n == 0 {
        Seq::empty()
    } else {
        spellings_upto(v, w, (n - 1) as nat) + swapped(w, n - 1, v.of(w[n - 1]))
    }
}

/// All spellings of a word with one character replaced; none for more than four characters.
pub open spec fn all_spellings(v: Variants, w: Seq<char>) -> Seq<Seq<char>> {
    if w.len() > 4 {
        Seq::empty()
    } else {
        spellings_upto(v, w, w.len())
    }
}

/// `s` is `w` with the character at `i` replaced by a variant of it.
pub open spec fn replaced_at(v: Variants, w: Seq<char>, s: Seq<char>, i: int) -> bool {
    0 <= i < w.len() && s.len() == w.len() && v.of(w[i]).contains(s[i]) && forall|j: int|
        0 <= j < w.len() && j != i ==> #[trigger] s[j] == w[j]
}

proof fn lemma_swapped(v: Variants, w: Seq<char>, i: int, alts: Seq<char>, s: Seq<char>)
    requires
        0 <= i < w.len(),
        forall|k: int| 0 <= k < alts.len() ==> v.of(w[i]).contains(#[trigger] alts[k]),
        swapped(w, i, alts).contains(s),
    ensures
        replaced_at(v, w, s, i),
        s != w,
    decreases alts.len(),
{
    let short = alts.drop_last();
    assert forall|k: int| 0 <= k < short.len() implies v.of(w[i]).contains(#[trigger] short[k]) by {
        assert(short[k] == alts[k]);
    }
    let a = swapped(w, i, short);
    let j = choose|j: int| 0 <= j < swapped(w, i, alts).len() && swapped(w, i, alts)[j] == s;
    if alts.len() > 0 {
        assert(v.of(w[i]).contains(alts[alts.len() - 1]));
        if j < a.len() {
            assert(a[j] == s);
            lemma_swapped(v, w, i, short, s);
        }
    }
}

proof fn lemma_spellings(v: Variants, w: Seq<char>, n: nat, s: Seq<char>)
    requires
        n <= w.len(),
        spellings_upto(v, w, n).contains(s),
    ensures
        s != w,
        exists|i: int| #[trigger] replaced_at(v, w, s, i),
    decreases n,
{
    if n > 0 {
        let a = spellings_upto(v, w, (n - 1) as nat);
        let b = swapped(w, n - 1, v.of(w[n - 1]));
        let j = choose|j: int| 0 <= j < (a + b).len() && (a + b)[j] == s;
        if j < a.len() {
            assert(a[j] == s);
            lemma_spellings(v, w, (n - 1) as nat, s);
        } else {
            assert(b[j - a.len()] == s);
            lemma_swapped(v, w, n - 1, v.of(w[n - 1]), s);
        }
    }
}

/// A variant spelling is another word with one character replaced by a variant of it.
pub proof fn law_spellings_differ_in_one_place(v: Variants, w: Seq<char>, s: Seq<char>)
    requires
        all_spellings(v, w).contains(s),
    ensures
        s != w,
        exists|i: int| #[trigger] replaced_at(v, w, s, i),
{
    lemma_spellings(v, w, w.len(), s);
}

/// The order of characters, as a value.
pub open spec fn char_order() -> spec_fn(char, char) -> bool {
    |a: char, b: char| (a as u32) < (b as u32)
}

fn other_chars(w: &Vec<Vec<char>>, c: char) -> (r: Vec<char>)
    ensures
        r@ == others(rows(w@), c),
{
    let mut r: Vec<char> = Vec::new();
    let mut i: usize = 0;
    assert(rows(w@).take(0) =~= Seq::<Seq<char>>::empty());
    while i < w.len()
        invariant
            i <= w.len(),
            r@ == others(rows(w@).take(i as int), c),
        decreases w.len() - i,
    {
        proof {
            let t = rows(w@).take(i as int + 1);
            assert(t.drop_last() =~= rows(w@).take(i as int));
            assert(t.last() == w@[i as int]@);
        }
        match codepoint_of(&w[i]) {
            Some(v) => {
                if v != c {
                    r.push(v);
                }
            },
            None => {},
        }
        i = i + 1;
    }
    assert(rows(w@).take(i as int) =~= rows(w@));
    r
}

fn sort_chars(s: &Vec<char>) -> (r: Vec<char>)
    ensures
        is_sorted_set(char_order(), r@, s@),
{
    let mut n: Vec<u32> = Vec::new();
    let mut i: usize = 0;
    while i < s.len()
        invariant
            i <= s.len(),
            n.len() == i,
            forall|j: int| 0 <= j < i ==> #[trigger] n@[j] == s@[j] as u32,
        decreases s.len() - i,
    {
        n.push(s[i] as u32);
        i = i + 1;
    }
    let ghost all = n@;
    let m = sort_numbers(n);
    let mut r: Vec<char> = Vec::new();
    let mut k: usize = 0;
    while k < m.len()
        invariant
            k <= m.len(),
            r.len() == k,
            is_sorted_set(number_order(), m@, all),
            all.len() == s.len(),
            forall|j: int| 0 <= j < all.len() ==> #[trigger] all[j] == s@[j] as u32,
            forall|j: int| 0 <= j < k ==> #[trigger] r@[j] as u32 == m@[j],
        decreases m.len() - k,
    {
        proof {
            assert(m@.contains(m@[k as int]));
            assert(all.contains(m@[k as int]));
            let j = choose|j: int| 0 <= j < all.len() && all[j] == m@[k as int];
            char_is_scalar(s@[j]);
        }
        match char::from_u32(m[k]) {
            Some(c) => {
                r.push(c);
            },
            None => {},
        }
        k = k + 1;
    }
    proof {
        assert forall|x: char| #[trigger] r@.contains(x) <==> s@.contains(x) by {
            if r@.contains(x) {
                let j = choose|j: int| 0 <= j < r@.len() && r@[j] == x;
                assert(m@.contains(m@[j]));
                assert(all.contains(m@[j]));
                let q = choose|q: int| 0 <= q < all.len() && all[q] == m@[j];
                char_u32_cast(x, m@[j]);
                char_u32_cast(s@[q], m@[j]);
                assert(s@[q] == x);
            }
            if s@.contains(x) {
                let q = choose|q: int| 0 <= q < s@.len() && s@[q] == x;
                assert(all[q] == x as u32);
                assert(all.contains(x as u32));
                assert(m@.contains(x as u32));
                let j = choose|j: int| 0 <= j < m@.len() && m@[j] == x as u32;
                char_u32_cast(r@[j], m@[j]);
                char_u32_cast(x, m@[j]);
                assert(r@[j] == x);
            }
        }
        assert forall|i: int, j: int| 0 <= i < j < r@.len() implies char_order()(
            #[trigger] r@[i],
            #[trigger] r@[j],
        ) by {
            assert(number_order()(m@[i], m@[j]));
        }
    }
    r
}

// ───────────────────────── sentence pairs ─────────────────────────

/// A line of sentences, `id<TAB>language<TAB>text`; the text may hold tabs.
pub open spec fn sentence_line(line: Seq<char>) -> Option<(u32, Seq<char>)> {
    let a = until(line, One('\t')) as int;
    if a >= line.len() {
        None
    } else {
        let rest = line.skip(a + 1);
        let b = until(rest, One('\t')) as int;
        if b >= rest.len() {
            None
        } else {
            match parsed_nat(line.take(a), 10, u32::MAX as nat) {
                Some(id) => Some((id as u32, rest.skip(b + 1))),
                None => None,
            }
        }
    }
}

/// A line of links, `id<TAB>id` and more.
pub open spec fn link_line(line: Seq<char>) -> Option<(u32, u32)> {
    let f = split_by(line, One('\t'));
    if f.len() < 2 {
        None
    } else {
        match (
            parsed_nat(trimmed(f[0]), 10, u32::MAX as nat),
            parsed_nat(trimmed(f[1]), 10, u32::MAX as nat),
        ) {
            (Some(a), Some(b)) => Some((a as u32, b as u32)),
            _ => None,
        }
    }
}

fn parse_sentence(line: &str) -> (r: Option<(u32, String)>)
    ensures
        match r {
            Some(p) => sentence_line(line@) == Some((p.0, p.1@)),
            None => sentence_line(line@) is None,
        },
{
    let c = chars_of(line);
    let a: usize = position(&c, &One('\t'));
    if a >= c.len() {
        return None;
    }
    let rest = slice_subrange(&c, a + 1, c.len());
    assert(rest@ =~= c@.skip(a as int + 1));
    let b: usize = position(rest, &One('\t'));
    if b >= rest.len() {
        return None;
    }
    let id = slice_subrange(&c, 0, a);
    assert(id@ =~= c@.take(a as int));
    let text = slice_subrange(rest, b + 1, rest.len());
    assert(text@ =~= rest@.skip(b as int + 1));
    match parse_u32(id) {
        Some(n) => Some((n, string_of(text))),
        None => None,
    }
}

fn parse_link(line: &str) -> (r: Option<(u32, u32)>)
    ensures
        r == link_line(line@),
{
    let c = chars_of(line);
    let f = split(&c, &One('\t'));
    assert(rows(f@).len() == f@.len());
    if f.len() < 2 {
        return None;
    }
    assert(rows(f@)[0] == f@[0]@ && rows(f@)[1] == f@[1]@);
    match (parse_u32(trim(&f[0])), parse_u32(trim(&f[1]))) {
        (Some(a), Some(b)) => Some((a, b)),
        _ => None,
    }
}

/// Sentence pairs in the making. Chinese sentences come first, then the links, then the
/// English sentences, of which only those that a link needs are kept.
pub struct PairBuilder {
    pub cmn: IdMap<String>,
    pub need: IdSet,
    pub edges: Vec<(u32, u32)>,
    pub eng: IdMap<String>,
}

/// Edge `k` gives a pair: both sentences are there, and no edge before it gave one for the
/// same Chinese sentence.
pub open spec fn gives_pair(
    edges: Seq<(u32, u32)>,
    cmn: Map<u32, Seq<char>>,
    eng: Map<u32, Seq<char>>,
    k: int,
) -> bool {
    &&& cmn.contains_key(edges[k].0)
    &&& eng.contains_key(edges[k].1)
    &&& forall|j: int|
        0 <= j < k && (#[trigger] edges[j]).0 == edges[k].0 ==> !eng.contains_key(edges[j].1)
}

/// The pairs of the first `n` edges: each Chinese sentence with its first translation.
pub open spec fn pairs_upto(
    edges: Seq<(u32, u32)>,
    cmn: Map<u32, Seq<char>>,
    eng: Map<u32, Seq<char>>,
    n: nat,
) -> Seq<(Seq<char>, Seq<char>)>
    decreases n,
{
    if n == 0 {
        Seq::empty()
    } else {
        let a = pairs_upto(edges, cmn, eng, (n - 1) as nat);
        if gives_pair(edges, cmn, eng, n - 1) {
            a.push((cmn[edges[n - 1].0], eng[edges[n - 1].1]))
        } else {
            a
        }
    }
}

/// The lengths of the Chinese sentences.
pub open spec fn zh_lengths(p: Seq<(Seq<char>, Seq<char>)>) -> Seq<i128> {
    Seq::new(p.len(), |i: int| p[i].0.len() as i128)
}

/// The pairs by length of the Chinese sentence, equal ones as they came.
pub open spec fn shortest_first(p: Seq<(Seq<char>, Seq<char>)>) -> Seq<(Seq<char>, Seq<char>)> {
    permuted(p, stable_perm(zh_lengths(p)))
}

/// What the pairs of a table hold.
pub open spec fn pair_views(v: Seq<(String, String)>) -> Seq<(Seq<char>, Seq<char>)> {
    Seq::new(v.len(), |i: int| (v[i].0@, v[i].1@))
}

/// Chinese sentences with their translations.
pub struct Pairs {
    /// By length: short sentences make better examples and go first.
    pub sorted: Vec<(String, String)>,
}

impl PairBuilder {
    pub fn new() -> (r: Self)
        ensures
            text_values(r.cmn@) == Map::<u32, Seq<char>>::empty(),
            r.need@ == Set::<u32>::empty(),
            r.edges@ == Seq::<(u32, u32)>::empty(),
            text_values(r.eng@) == Map::<u32, Seq<char>>::empty(),
    {
        broadcast use group_hash_axioms;

        let r = PairBuilder {
            cmn: IdMap::new(),
            need: IdSet::new(),
            edges: Vec::new(),
            eng: IdMap::new(),
        };
        assert(text_values(r.cmn@) =~= Map::<u32, Seq<char>>::empty());
        assert(text_values(r.eng@) =~= Map::<u32, Seq<char>>::empty());
        r
    }

    /// Reads a line of Chinese sentences. A line of another shape is skipped.
    pub fn add_cmn(&mut self, line: &str)
        ensures
            text_values(final(self).cmn@) == match sentence_line(line@) {
                Some((id, t)) => text_values(old(self).cmn@).insert(id, t),
                None => text_values(old(self).cmn@),
            },
            final(self).need@ == old(self).need@,
            final(self).edges@ == old(self).edges@,
            text_values(final(self).eng@) == text_values(old(self).eng@),
    {
        broadcast use group_hash_axioms;

        let ghost before = text_values(self.cmn@);
        match parse_sentence(line) {
            Some((id, t)) => {
                let ghost tv = t@;
                self.cmn.insert(id, t);
                assert(text_values(self.cmn@) =~= before.insert(id, tv));
            },
            None => {},
        }
    }

    /// Reads a line of links and keeps it if it starts at a Chinese sentence.
    pub fn add_link(&mut self, line: &str)
        ensures
            final(self).edges@ == match link_line(line@) {
                Some((a, b)) => if text_values(old(self).cmn@).contains_key(a) {
                    old(self).edges@.push((a, b))
                } else {
                    old(self).edges@
                },
                None => old(self).edges@,
            },
            final(self).need@ == match link_line(line@) {
                Some((a, b)) => if text_values(old(self).cmn@).contains_key(a) {
                    old(self).need@.insert(b)
                } else {
                    old(self).need@
                },
                None => old(self).need@,
            },
            text_values(final(self).cmn@) == text_values(old(self).cmn@),
            text_values(final(self).eng@) == text_values(old(self).eng@),
    {
        broadcast use group_hash_axioms;

        match parse_link(line) {
            Some((a, b)) => {
                if self.cmn.contains_key(&a) {
                    self.need.insert(b);
                    self.edges.push((a, b));
                }
            },
            None => {},
        }
    }

    /// Reads a line of English sentences and keeps it if a link needs it.
    pub fn add_eng(&mut self, line: &str)
        ensures
            text_values(final(self).eng@) == match sentence_line(line@) {
                Some((id, t)) => if old(self).need@.contains(id) {
                    text_values(old(self).eng@).insert(id, t)
                } else {
                    text_values(old(self).eng@)
                },
                None => text_values(old(self).eng@),
            },
            text_values(final(self).cmn@) == text_values(old(self).cmn@),
            final(self).need@ == old(self).need@,
            final(self).edges@ == old(self).edges@,
    {
        broadcast use group_hash_axioms;

        let ghost before = text_values(self.eng@);
        match parse_sentence(line) {
            Some((id, t)) => {
                if self.need.contains(&id) {
                    let ghost tv = t@;
                    self.eng.insert(id, t);
                    assert(text_values(self.eng@) =~= before.insert(id, tv));
                }
            },
            None => {},
        }
    }

    fn unsorted(&self) -> (r: Vec<(String, String)>)
        ensures
            pair_views(r@) == pairs_upto(
                self.edges@,
                text_values(self.cmn@),
                text_values(self.eng@),
                self.edges@.len(),
            ),
    {
        broadcast use group_hash_axioms;

        let ghost cmn = text_values(self.cmn@);
        let ghost eng = text_values(self.eng@);
        let mut seen: IdSet = IdSet::new();
        let mut r: Vec<(String, String)> = Vec::new();
        let mut k: usize = 0;
        assert(pair_views(r@) =~= Seq::<(Seq<char>, Seq<char>)>::empty());
        while k < self.edges.len()
            invariant
                cmn == text_values(self.cmn@),
                eng == text_values(self.eng@),
                k <= self.edges.len(),
                pair_views(r@) == pairs_upto(self.edges@, cmn, eng, k as nat),
                forall|a: u32| #[trigger]
                    seen@.contains(a) ==> exists|j: int|
                        0 <= j < k && (#[trigger] self.edges@[j]).0 == a && eng.contains_key(
                            self.edges@[j].1,
                        ),
                forall|j: int|
                    0 <= j < k && cmn.contains_key((#[trigger] self.edges@[j]).0)
                        && eng.contains_key(self.edges@[j].1) ==> seen@.contains(self.edges@[j].0),
            decreases self.edges.len() - k,
        {
            let (a, b) = self.edges[k];
            let ghost old_seen = seen@;
            match (self.cmn.get(&a), self.eng.get(&b)) {
                (Some(zh), Some(en)) => {
                    let fresh: bool = seen.insert(a);
                    assert(self.edges@[k as int] == (a, b));
                    if fresh {
                        let x = (zh.clone(), en.clone());
                        proof {
                            assert(gives_pair(self.edges@, cmn, eng, k as int)) by {
                                assert forall|j: int|
                                    0 <= j < k && (#[trigger] self.edges@[j]).0
                                        == self.edges@[k as int].0 implies !eng.contains_key(
                                    self.edges@[j].1,
                                ) by {
                                    if eng.contains_key(self.edges@[j].1) {
                                        assert(old_seen.contains(self.edges@[j].0));
                                    }
                                }
                            }
                            assert(pair_views(r@.push(x)) =~= pair_views(r@).push(
                                (x.0@, x.1@),
                            ));
                        }
                        r.push(x);
                    } else {
                        assert(!gives_pair(self.edges@, cmn, eng, k as int));
                    }
                },
                _ => {
                    assert(!gives_pair(self.edges@, cmn, eng, k as int));
                },
            }
            k = k + 1;
        }
        r
    }

    /// The pairs, shortest Chinese sentence first.
    pub fn finish(self) -> (r: Pairs)
        ensures
            pair_views(r.sorted@) == shortest_first(
                pairs_upto(
                    self.edges@,
                    text_values(self.cmn@),
                    text_values(self.eng@),
                    self.edges@.len(),
                ),
            ),
    {
        let v = self.unsorted();
        let ghost p = pair_views(v@);
        let mut keys: Vec<i128> = Vec::new();
        let mut i: usize = 0;
        while i < v.len()
            invariant
                i <= v.len(),
                p == pair_views(v@),
                keys.len() == i,
                forall|j: int| 0 <= j < i ==> #[trigger] keys@[j] == zh_lengths(p)[j],
            decreases v.len() - i,
        {
            keys.push(v[i].0.as_str().unicode_len() as i128);
            i = i + 1;
        }
        assert(keys@ =~= zh_lengths(p));
        let order = stable_sort(keys);
        let mut sorted: Vec<(String, String)> = Vec::new();
        let mut k: usize = 0;
        while k < order.len()
            invariant
                k <= order.len(),
                p == pair_views(v@),
                sorted.len() == k,
                forall|j: int| 0 <= j < order.len() ==> (#[trigger] order@[j]) < v.len(),
                forall|j: int|
                    0 <= j < k ==> ((#[trigger] sorted@[j]).0@, sorted@[j].1@)
                        == p[order@[j] as int],
            decreases order.len() - k,
        {
            let at: usize = order[k];
            sorted.push((v[at].0.clone(), v[at].1.clone()));
            k = k + 1;
        }
        assert(pair_views(sorted@) =~= shortest_first(p));
        Pairs { sorted }
    }
}

/// The sentences of lines, by id; a later one replaces an earlier one.
pub open spec fn sentences(lines: Seq<Seq<char>>) -> Map<u32, Seq<char>>
    decreases lines.len(),
{
    if lines.len() == 0 {
        Map::empty()
    } else {
        match sentence_line(lines.last()) {
            Some((id, t)) => sentences(lines.drop_last()).insert(id, t),
            None => sentences(lines.drop_last()),
        }
    }
}

/// The links of lines that start at a given sentence.
pub open spec fn links_from(lines: Seq<Seq<char>>, cmn: Map<u32, Seq<char>>) -> Seq<(u32, u32)>
    decreases lines.len(),
{
    if lines.len() == 0 {
        Seq::empty()
    } else {
        match link_line(lines.last()) {
            Some((a, b)) => if cmn.contains_key(a) {
                links_from(lines.drop_last(), cmn).push((a, b))
            } else {
                links_from(lines.drop_last(), cmn)
            },
            None => links_from(lines.drop_last(), cmn),
        }
    }
}

/// The ids that links lead to.
pub open spec fn targets(edges: Seq<(u32, u32)>) -> Set<u32>
    decreases edges.len(),
{
    if edges.len() == 0 {
        Set::empty()
    } else {
        targets(edges.drop_last()).insert(edges.last().1)
    }
}

/// The sentences of lines whose id is wanted.
pub open spec fn sentences_among(lines: Seq<Seq<char>>, ids: Set<u32>) -> Map<u32, Seq<char>>
    decreases lines.len(),
{
    if lines.len() == 0 {
        Map::empty()
    } else {
        match sentence_line(lines.last()) {
            Some((id, t)) => if ids.contains(id) {
                sentences_among(lines.drop_last(), ids).insert(id, t)
            } else {
                sentences_among(lines.drop_last(), ids)
            },
            None => sentences_among(lines.drop_last(), ids),
        }
    }
}

/// The pairs that three files of lines give.
pub open spec fn loaded_pairs(
    cmn: Seq<Seq<char>>,
    eng: Seq<Seq<char>>,
    links: Seq<Seq<char>>,
) -> Seq<(Seq<char>, Seq<char>)> {
    let zh = sentences(cmn);
    let edges = links_from(links, zh);
    let en = sentences_among(eng, targets(edges));
    shortest_first(pairs_upto(edges, zh, en, edges.len()))
}

impl Pairs {
    /// Reads Chinese sentences, English sentences and the links between them.
    pub fn load(cmn: &Vec<String>, eng: &Vec<String>, links: &Vec<String>) -> (r: Self)
        ensures
            pair_views(r.sorted@) == loaded_pairs(texts(cmn@), texts(eng@), texts(links@)),
    {
        let mut b = PairBuilder::new();
        let ghost c = texts(cmn@);
        let ghost e = texts(eng@);
        let ghost l = texts(links@);
        let mut i: usize = 0;
        assert(c.take(0) =~= Seq::<Seq<char>>::empty());
        while i < cmn.len()
            invariant
                i <= cmn.len(),
                c == texts(cmn@),
                text_values(b.cmn@) == sentences(c.take(i as int)),
                b.edges@ == Seq::<(u32, u32)>::empty(),
                b.need@ == Set::<u32>::empty(),
                text_values(b.eng@) == Map::<u32, Seq<char>>::empty(),
            decreases cmn.len() - i,
        {
            proof {
                let t = c.take(i as int + 1);
                assert(t.drop_last() =~= c.take(i as int));
                assert(t.last() == cmn@[i as int]@);
            }
            b.add_cmn(cmn[i].as_str());
            i = i + 1;
        }
        assert(c.take(i as int) =~= c);
        let mut j: usize = 0;
        assert(l.take(0) =~= Seq::<Seq<char>>::empty());
        while j < links.len()
            invariant
                j <= links.len(),
                l == texts(links@),
                text_values(b.cmn@) == sentences(c),
                b.edges@ == links_from(l.take(j as int), sentences(c)),
                b.need@ == targets(b.edges@),
                text_values(b.eng@) == Map::<u32, Seq<char>>::empty(),
            decreases links.len() - j,
        {
            let ghost was = b.edges@;
            proof {
                let t = l.take(j as int + 1);
                assert(t.drop_last() =~= l.take(j as int));
                assert(t.last() == links@[j as int]@);
                if let Some(p) = link_line(links@[j as int]@) {
                    assert(was.push(p).drop_last() =~= was);
                }
            }
            b.add_link(links[j].as_str());
            j = j + 1;
        }
        assert(l.take(j as int) =~= l);
        let mut k: usize = 0;
        assert(e.take(0) =~= Seq::<Seq<char>>::empty());
        while k < eng.len()
            invariant
                k <= eng.len(),
                e == texts(eng@),
                text_values(b.cmn@) == sentences(c),
                b.edges@ == links_from(l, sentences(c)),
                b.need@ == targets(b.edges@),
                text_values(b.eng@) == sentences_among(e.take(k as int), b.need@),
            decreases eng.len() - k,
        {
            proof {
                let t = e.take(k as int + 1);
                assert(t.drop_last() =~= e.take(k as int));
                assert(t.last() == eng@[k as int]@);
            }
            b.add_eng(eng[k].as_str());
            k = k + 1;
        }
        assert(e.take(k as int) =~= e);
        b.finish()
    }
}

// ───────────────────────── words of a sentence ─────────────────────────

/// A set of words.
pub struct Vocab {
    pub set: StringHashSet,
}

impl Vocab {
    pub fn new() -> (r: Self)
        ensures
            r.set@ == Set::<Seq<char>>::empty(),
    {
        Vocab { set: StringHashSet::new() }
    }

    pub fn insert(&mut self, w: String)
        ensures
            final(self).set@ == old(self).set@.insert(w@),
    {
        self.set.insert(w);
    }

    pub fn contains(&self, w: &str) -> (r: bool)
        ensures
            r == self.set@.contains(w@),
    {
        self.set.contains(w)
    }
}

/// The longest word of the vocabulary among `s[i..j]`, `s[i..j - 1]` and so on.
pub open spec fn longest(s: Seq<char>, vocab: Set<Seq<char>>, i: int, j: int) -> Option<Seq<char>>
    decreases j - i,
{
    if j <= i {
        None
    } else if vocab.contains(s.subrange(i, j)) {
        Some(s.subrange(i, j))
    } else {
        longest(s, vocab, i, j - 1)
    }
}

/// Where a word of at most `max` characters that begins at `i` can end.
pub open spec fn reach(s: Seq<char>, max: nat, i: int) -> int {
    if i + max < s.len() {
        i + max
    } else {
        s.len() as int
    }
}

/// The longest word at each of the first `n` places.
pub open spec fn longest_upto(
    s: Seq<char>,
    vocab: Set<Seq<char>>,
    max: nat,
    n: nat,
) -> Seq<Seq<char>>
    decreases n,
{
    if n == 0 {
        Seq::empty()
    } else {
        let a = longest_upto(s, vocab, max, (n - 1) as nat);
        match longest(s, vocab, n - 1, reach(s, max, n - 1)) {
            Some(w) => a.push(w),
            None => a,
        }
    }
}

/// Finds the words of a vocabulary in a Chinese sentence: at every place the longest one.
/// Examples need no perfect segmentation, and rather too many words than too few.
pub fn zh_words_in(sentence: &str, vocab: &Vocab, max_word: usize) -> (r: Vec<String>)
    ensures
        texts(r@) == sorted_texts(
            longest_upto(sentence@, vocab.set@, max_word as nat, sentence@.len()),
        ),
        is_sorted_set(
            text_order(),
            texts(r@),
            longest_upto(sentence@, vocab.set@, max_word as nat, sentence@.len()),
        ),
{
    let c = chars_of(sentence);
    let mut out: Vec<String> = Vec::new();
    let mut i: usize = 0;
    assert(texts(out@) =~= Seq::<Seq<char>>::empty());
    while i < c.len()
        invariant
            c@ == sentence@,
            i <= c.len(),
            texts(out@) == longest_upto(c@, vocab.set@, max_word as nat, i as nat),
        decreases c.len() - i,
    {
        let hi: usize = if max_word < c.len() - i {
            i + max_word
        } else {
            c.len()
        };
        assert(hi == reach(c@, max_word as nat, i as int));
        let mut j: usize = hi;
        let mut found: bool = false;
        while j > i && !found
            invariant
                i < c.len(),
                i <= j <= hi <= c.len(),
                hi == reach(c@, max_word as nat, i as int),
                !found ==> longest(c@, vocab.set@, i as int, hi as int) == longest(
                    c@,
                    vocab.set@,
                    i as int,
                    j as int,
                ) && texts(out@) == longest_upto(c@, vocab.set@, max_word as nat, i as nat),
                found ==> texts(out@) == longest_upto(
                    c@,
                    vocab.set@,
                    max_word as nat,
                    (i + 1) as nat,
                ),
            decreases j - i,
        {
            let w = string_of(slice_subrange(&c, i, j));
            if vocab.contains(w.as_str()) {
                proof {
                    lemma_texts_push(out@, w);
                }
                out.push(w);
                found = true;
            }
            j = j - 1;
        }
        i = i + 1;
    }
    sort_texts(out)
}

/// The words of an English sentence: runs of letters and apostrophes of two characters or
/// more, in lower case, sorted, each once.
pub open spec fn english_words(s: Seq<char>) -> Seq<Seq<char>> {
    sorted_texts(long_tokens(split_by(s, NotLatin)))
}

/// The runs of letters of a sentence lower as texts do.
pub open spec fn runs_lower(s: Seq<char>) -> bool {
    forall|i: int|
        0 <= i < split_by(s, NotLatin).len() && (#[trigger] split_by(s, NotLatin)[i]).len() >= 2
            ==> lowers(split_by(s, NotLatin)[i])
}

/// A word of a sentence has two characters or more, none of them a separator, and lowering
/// does not change it.
proof fn lemma_english_word(s: Seq<char>, w: Seq<char>)
    requires
        runs_lower(s),
        long_tokens(split_by(s, NotLatin)).contains(w),
    ensures
        w.len() >= 2,
        lowercase(w) == w,
        forall|j: int| 0 <= j < w.len() ==> !NotLatin.holds(#[trigger] w[j]),
{
    let parts = split_by(s, NotLatin);
    lemma_long_tokens(parts, w);
    let i = choose|i: int|
        0 <= i < parts.len() && (#[trigger] parts[i]).len() >= 2 && lowercase(parts[i]) == w;
    lemma_split_parts(s, NotLatin);
    assert forall|j: int| 0 <= j < parts[i].len() implies is_plain_char(
        #[trigger] parts[i][j],
    ) by {
        assert(!NotLatin.holds(parts[i][j]));
    }
    assert(is_plain_text(parts[i]));
    assert forall|j: int| 0 <= j < w.len() implies !NotLatin.holds(#[trigger] w[j]) by {
        assert(!NotLatin.holds(parts[i][j]));
        assert(w[j] == plain_lower_char(parts[i][j]));
    }
}

/// The words of a sentence, joined by blanks, are a sentence of the same words.
pub proof fn law_words_joined_give_the_words(s: Seq<char>)
    requires
        runs_lower(s),
    ensures
        english_words(join(english_words(s), seq![' '])) == english_words(s),
{
    let runs = long_tokens(split_by(s, NotLatin));
    let w = english_words(s);
    let t = join(w, seq![' ']);
    law_sorted_texts_are_sorted(runs);
    assert forall|i: int| 0 <= i < w.len() implies (#[trigger] w[i]).len() >= 2 && lowercase(w[i])
        == w[i] by {
        assert(w.contains(w[i]));
        lemma_english_word(s, w[i]);
    }
    assert forall|i: int, j: int| 0 <= i < w.len() && 0 <= j < w[i].len() implies !NotLatin.holds(
        #[trigger] w[i][j],
    ) by {
        assert(w.contains(w[i]));
        lemma_english_word(s, w[i]);
    }
    if w.len() > 0 {
        lemma_split_join(w, ' ', NotLatin);
        lemma_long_tokens_kept(w);
        assert(is_sorted_set(text_order(), w, w));
        lemma_sorted_texts(w, w);
    } else {
        assert(split_by(t, NotLatin) =~= seq![t]);
        let one = seq![t];
        assert(one.drop_last() =~= w);
        assert(one.last() == t);
        assert(long_tokens(w) =~= w);
        assert(long_tokens(one) =~= w);
        assert(is_sorted_set(text_order(), w, w));
        lemma_sorted_texts(w, w);
    }
}

pub fn en_words_in(sentence: &str) -> (r: Vec<String>)
    ensures
        texts(r@) == english_words(sentence@),
        is_sorted_set(text_order(), texts(r@), long_tokens(split_by(sentence@, NotLatin))),
        english_words(join(texts(r@), seq![' '])) == texts(r@),
{
    let c = chars_of(sentence);
    let parts = split(&c, &NotLatin);
    let mut out: Vec<String> = Vec::new();
    push_long_tokens(&mut out, &parts);
    assert(texts(out@) =~= long_tokens(rows(parts@)));
    proof {
        let all = split_by(sentence@, NotLatin);
        assert forall|i: int| 0 <= i < all.len() && (#[trigger] all[i]).len() >= 2 implies lowers(
            all[i],
        ) by {
            assert(parts@[i]@ == rows(parts@)[i]);
        }
        law_words_joined_give_the_words(sentence@);
    }
    sort_texts(out)
}

} // verus!
