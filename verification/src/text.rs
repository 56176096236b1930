//! Text as sequences of characters.
//!
//! The parsers work on `&[char]`; a `String` is taken apart once on the way in
//! and put together once on the way out. Each operation is stated over
//! `Seq<char>`.
use vstd::prelude::*;
use vstd::slice::*;
use vstd::string::*;

verus! {

/// `String::push` appends one character.
pub assume_specification[ String::push ](s: &mut String, c: char)
    ensures
        final(s)@ == old(s)@.push(c),
;

/// The characters of a text.
pub fn chars_of(s: &str) -> (r: Vec<char>)
    ensures
        r@ == s@,
{
    let mut r: Vec<char> = Vec::new();
    for c in it: s.chars()
        invariant
            it.seq() == s@,
            r@ == s@.take(it.index() as int),
    {
        proof {
            assert(s@.take(it.index() as int + 1) =~= s@.take(it.index() as int).push(
                s@[it.index() as int],
            ));
        }
        r.push(c);
    }
    assert(s@.take(s@.len() as int) =~= s@);
    r
}

/// The text that has these characters.
pub fn string_of(c: &[char]) -> (r: String)
    ensures
        r@ == c@,
{
    let mut r = String::new();
    let mut i: usize = 0;
    while i < c.len()
        invariant
            i <= c.len(),
            r@ == c@.take(i as int),
        decreases c.len() - i,
    {
        r.push(c[i]);
        i = i + 1;
        assert(c@.take(i as int) =~= c@.take(i as int - 1).push(c@[i as int - 1]));
    }
    assert(c@.take(c@.len() as int) =~= c@);
    r
}

/// A set of characters that verified code can test for.
pub trait CharClass {
    spec fn holds(&self, c: char) -> bool;

    fn test(&self, c: char) -> (r: bool)
        ensures
            r == self.holds(c),
    ;
}

/// The characters with the Unicode property `White_Space`.
pub open spec fn is_space_spec(c: char) -> bool {
    let u = c as u32;
    ||| 0x9 <= u <= 0xD
    ||| u == 0x20
    ||| u == 0x85
    ||| u == 0xA0
    ||| u == 0x1680
    ||| 0x2000 <= u <= 0x200A
    ||| u == 0x2028
    ||| u == 0x2029
    ||| u == 0x202F
    ||| u == 0x205F
    ||| u == 0x3000
}

pub fn is_space(c: char) -> (r: bool)
    ensures
        r == is_space_spec(c),
{
    let u: u32 = c as u32;
    (0x9 <= u && u <= 0xD) || u == 0x20 || u == 0x85 || u == 0xA0 || u == 0x1680 || (0x2000 <= u
        && u <= 0x200A) || u == 0x2028 || u == 0x2029 || u == 0x202F || u == 0x205F || u == 0x3000
}

/// The blocks of Han characters: the unified ideographs with their first
/// extension, the compatibility ideographs and the supplementary plane.
pub open spec fn is_cjk_spec(c: char) -> bool {
    let u = c as u32;
    ||| 0x3400 <= u <= 0x4DBF
    ||| 0x4E00 <= u <= 0x9FFF
    ||| 0xF900 <= u <= 0xFAFF
    ||| 0x20000 <= u <= 0x2FA1F
}

pub fn is_cjk(c: char) -> (r: bool)
    ensures
        r == is_cjk_spec(c),
{
    let u: u32 = c as u32;
    (0x3400 <= u && u <= 0x4DBF) || (0x4E00 <= u && u <= 0x9FFF) || (0xF900 <= u && u <= 0xFAFF)
        || (0x20000 <= u && u <= 0x2FA1F)
}

pub open spec fn is_digit_spec(c: char) -> bool {
    '0' <= c <= '9'
}

pub fn is_digit(c: char) -> (r: bool)
    ensures
        r == is_digit_spec(c),
{
    '0' <= c && c <= '9'
}

/// `A` to `Z` and `a` to `z`.
pub open spec fn is_latin_spec(c: char) -> bool {
    ('a' <= c <= 'z') || ('A' <= c <= 'Z')
}

pub fn is_latin(c: char) -> (r: bool)
    ensures
        r == is_latin_spec(c),
{
    ('a' <= c && c <= 'z') || ('A' <= c && c <= 'Z')
}

/// ASCII characters that are neither letters, digits, blanks nor controls.
pub open spec fn is_ascii_punct_spec(c: char) -> bool {
    '!' <= c <= '~' && !is_digit_spec(c) && !is_latin_spec(c)
}

pub fn is_ascii_punct(c: char) -> (r: bool)
    ensures
        r == is_ascii_punct_spec(c),
{
    '!' <= c && c <= '~' && !is_digit(c) && !is_latin(c)
}

/// White space.
pub struct Space;

impl CharClass for Space {
    open spec fn holds(&self, c: char) -> bool {
        is_space_spec(c)
    }

    fn test(&self, c: char) -> (r: bool) {
        is_space(c)
    }
}

/// One given character.
pub struct One(pub char);

impl CharClass for One {
    open spec fn holds(&self, c: char) -> bool {
        c == self.0
    }

    fn test(&self, c: char) -> (r: bool) {
        c == self.0
    }
}

/// ASCII punctuation and white space.
pub struct PunctOrSpace;

impl CharClass for PunctOrSpace {
    open spec fn holds(&self, c: char) -> bool {
        is_ascii_punct_spec(c) || is_space_spec(c)
    }

    fn test(&self, c: char) -> (r: bool) {
        is_ascii_punct(c) || is_space(c)
    }
}

/// Everything but Latin letters, digits and the apostrophe.
pub struct NotAlnum;

impl CharClass for NotAlnum {
    open spec fn holds(&self, c: char) -> bool {
        !is_latin_spec(c) && !is_digit_spec(c) && c != '\''
    }

    fn test(&self, c: char) -> (r: bool) {
        !is_latin(c) && !is_digit(c) && c != '\''
    }
}

/// Everything but Latin letters and the apostrophe.
pub struct NotLatin;

impl CharClass for NotLatin {
    open spec fn holds(&self, c: char) -> bool {
        !is_latin_spec(c) && c != '\''
    }

    fn test(&self, c: char) -> (r: bool) {
        !is_latin(c) && c != '\''
    }
}

/// Everything but Han characters.
pub struct NotCjk;

impl CharClass for NotCjk {
    open spec fn holds(&self, c: char) -> bool {
        !is_cjk_spec(c)
    }

    fn test(&self, c: char) -> (r: bool) {
        !is_cjk(c)
    }
}

/// Everything but the ASCII digits.
pub struct NotDigit;

impl CharClass for NotDigit {
    open spec fn holds(&self, c: char) -> bool {
        !is_digit_spec(c)
    }

    fn test(&self, c: char) -> (r: bool) {
        !is_digit(c)
    }
}

/// The contents of a table of character rows.
pub open spec fn rows(v: Seq<Vec<char>>) -> Seq<Seq<char>> {
    Seq::new(v.len(), |i: int| v[i]@)
}

/// The contents of a table of texts.
pub open spec fn texts(v: Seq<String>) -> Seq<Seq<char>> {
    Seq::new(v.len(), |i: int| v[i]@)
}

pub proof fn lemma_rows_push(v: Seq<Vec<char>>, x: Vec<char>)
    ensures
        rows(v.push(x)) == rows(v).push(x@),
{
    assert(rows(v.push(x)) =~= rows(v).push(x@));
}

pub proof fn lemma_texts_push(v: Seq<String>, x: String)
    ensures
        texts(v.push(x)) == texts(v).push(x@),
{
    assert(texts(v.push(x)) =~= texts(v).push(x@));
}

/// Whether two rows hold the same characters.
pub fn same(a: &[char], b: &[char]) -> (r: bool)
    ensures
        r == (a@ == b@),
{
    if a.len() != b.len() {
        return false;
    }
    let mut i: usize = 0;
    while i < a.len()
        invariant
            a.len() == b.len(),
            i <= a.len(),
            forall|j: int| 0 <= j < i ==> a@[j] == b@[j],
        decreases a.len() - i,
    {
        if a[i] != b[i] {
            return false;
        }
        i = i + 1;
    }
    assert(a@ =~= b@);
    true
}

/// Whether two texts are equal.
pub fn str_same(a: &str, b: &str) -> (r: bool)
    ensures
        r == (a@ == b@),
{
    let x = chars_of(a);
    let y = chars_of(b);
    same(&x, &y)
}

/// A copy of a row.
pub fn copy(s: &[char]) -> (r: Vec<char>)
    ensures
        r@ == s@,
{
    slice_to_vec(s)
}

/// Appends the characters of `s` to `out`.
pub fn extend(out: &mut Vec<char>, s: &[char])
    ensures
        final(out)@ == old(out)@ + s@,
{
    let ghost before = out@;
    let mut i: usize = 0;
    while i < s.len()
        invariant
            i <= s.len(),
            out@ == before + s@.take(i as int),
        decreases s.len() - i,
    {
        out.push(s[i]);
        i = i + 1;
        assert(s@.take(i as int) =~= s@.take(i as int - 1).push(s@[i as int - 1]));
    }
    assert(s@.take(s@.len() as int) =~= s@);
}

/// Appends the characters of a text to `out`.
pub fn extend_str(out: &mut Vec<char>, s: &str)
    ensures
        final(out)@ == old(out)@ + s@,
{
    let c = chars_of(s);
    extend(out, &c);
}

// ───────────────────────── trimming ─────────────────────────

/// `s` without its leading characters of the class.
pub open spec fn trim_start_by<P: CharClass>(s: Seq<char>, p: P) -> Seq<char>
    decreases s.len(),
{
    if s.len() == 0 || !p.holds(s[0]) {
        s
    } else {
        trim_start_by(s.drop_first(), p)
    }
}

/// `s` without its trailing characters of the class.
pub open spec fn trim_end_by<P: CharClass>(s: Seq<char>, p: P) -> Seq<char>
    decreases s.len(),
{
    if s.len() == 0 || !p.holds(s.last()) {
        s
    } else {
        trim_end_by(s.drop_last(), p)
    }
}

/// `s` without the characters of the class at either end.
pub open spec fn trim_by<P: CharClass>(s: Seq<char>, p: P) -> Seq<char> {
    trim_end_by(trim_start_by(s, p), p)
}

/// `s` without white space at either end.
pub open spec fn trimmed(s: Seq<char>) -> Seq<char> {
    trim_by(s, Space)
}

/// No character is `c`.
pub open spec fn lacks(s: Seq<char>, c: char) -> bool {
    forall|i: int| 0 <= i < s.len() ==> #[trigger] s[i] != c
}

/// No character is white space.
pub open spec fn has_no_blank(s: Seq<char>) -> bool {
    forall|i: int| 0 <= i < s.len() ==> !is_space_spec(#[trigger] s[i])
}

/// No character is one of `A` to `Z`.
pub open spec fn has_no_capital(s: Seq<char>) -> bool {
    forall|i: int| 0 <= i < s.len() ==> !('A' <= #[trigger] s[i] <= 'Z')
}

/// White space stands at neither end.
pub open spec fn ends_bare(s: Seq<char>) -> bool {
    s.len() > 0 ==> !is_space_spec(s[0]) && !is_space_spec(s.last())
}

/// Trimming leaves blanks at neither end.
pub proof fn lemma_trimmed_ends(s: Seq<char>)
    ensures
        ends_bare(trimmed(s)),
{
    lemma_trim_start(s);
    lemma_trim_end(trim_start_by(s, Space));
}

/// Trimming changes nothing where no blank stands at either end.
pub proof fn lemma_trimmed_keeps(s: Seq<char>)
    requires
        ends_bare(s),
    ensures
        trimmed(s) == s,
{
    assert(trim_start_by(s, Space) == s);
    assert(trim_end_by(s, Space) == s);
}

/// Of blanks alone trimming leaves nothing.
pub proof fn lemma_blank_trims(s: Seq<char>)
    requires
        forall|i: int| 0 <= i < s.len() ==> is_space_spec(#[trigger] s[i]),
    ensures
        trimmed(s).len() == 0,
{
    lemma_trim_start(s);
    let t = trim_start_by(s, Space);
    if t.len() > 0 {
        let k = s.len() - t.len();
        assert(t[0] == s[k]);
    }
}

proof fn lemma_trim_start(s: Seq<char>)
    ensures
        trim_start_by(s, Space).len() <= s.len(),
        trim_start_by(s, Space) == s.skip(s.len() - trim_start_by(s, Space).len()),
        trim_start_by(s, Space).len() > 0 ==> !is_space_spec(trim_start_by(s, Space)[0]),
    decreases s.len(),
{
    if s.len() > 0 && is_space_spec(s[0]) {
        let u = s.drop_first();
        lemma_trim_start(u);
        let n = trim_start_by(u, Space).len();
        assert(u.skip(u.len() - n) =~= s.skip(s.len() - n));
    } else {
        assert(s.skip(0) =~= s);
    }
}

proof fn lemma_trim_end(s: Seq<char>)
    requires
        s.len() > 0 ==> !is_space_spec(s[0]),
    ensures
        trim_end_by(s, Space).len() > 0 ==> !is_space_spec(trim_end_by(s, Space)[0])
            && !is_space_spec(trim_end_by(s, Space).last()),
    decreases s.len(),
{
    if s.len() > 0 && is_space_spec(s.last()) {
        lemma_trim_end(s.drop_last());
    }
}

pub fn drop_start<'a, P: CharClass>(s: &'a [char], p: &P) -> (r: &'a [char])
    ensures
        r@ == trim_start_by(s@, *p),
        r.len() <= s.len(),
{
    let mut i: usize = 0;
    assert(s@.skip(0) =~= s@);
    while i < s.len() && p.test(s[i])
        invariant
            i <= s.len(),
            trim_start_by(s@, *p) == trim_start_by(s@.skip(i as int), *p),
        decreases s.len() - i,
    {
        assert(s@.skip(i as int).drop_first() =~= s@.skip(i as int + 1));
        i = i + 1;
    }
    assert(s@.skip(i as int) =~= s@.subrange(i as int, s@.len() as int));
    slice_subrange(s, i, s.len())
}

pub fn drop_end<'a, P: CharClass>(s: &'a [char], p: &P) -> (r: &'a [char])
    ensures
        r@ == trim_end_by(s@, *p),
        r.len() <= s.len(),
{
    let mut n: usize = s.len();
    assert(s@.take(s@.len() as int) =~= s@);
    while n > 0 && p.test(s[n - 1])
        invariant
            n <= s.len(),
            trim_end_by(s@, *p) == trim_end_by(s@.take(n as int), *p),
        decreases n,
    {
        assert(s@.take(n as int).drop_last() =~= s@.take(n as int - 1));
        n = n - 1;
    }
    assert(s@.take(n as int) =~= s@.subrange(0, n as int));
    slice_subrange(s, 0, n)
}

pub fn trim_matches<'a, P: CharClass>(s: &'a [char], p: &P) -> (r: &'a [char])
    ensures
        r@ == trim_by(s@, *p),
        r.len() <= s.len(),
{
    let t = drop_start(s, p);
    drop_end(t, p)
}

pub fn trim<'a>(s: &'a [char]) -> (r: &'a [char])
    ensures
        r@ == trimmed(s@),
        r.len() <= s.len(),
{
    trim_matches(s, &Space)
}

// ───────────────────────── searching ─────────────────────────

/// How many characters stand before the first one of the class.
pub open spec fn until<P: CharClass>(s: Seq<char>, p: P) -> nat
    decreases s.len(),
{
    if s.len() == 0 || p.holds(s[0]) {
        0
    } else {
        1 + until(s.drop_first(), p)
    }
}

/// `until` is the least position of a character of the class, or the length.
pub proof fn lemma_until<P: CharClass>(s: Seq<char>, p: P)
    ensures
        until(s, p) <= s.len(),
        until(s, p) < s.len() ==> p.holds(s[until(s, p) as int]),
        forall|i: int| 0 <= i < until(s, p) ==> !p.holds(#[trigger] s[i]),
    decreases s.len(),
{
    if s.len() > 0 && !p.holds(s[0]) {
        lemma_until(s.drop_first(), p);
        assert forall|i: int| 0 <= i < until(s, p) implies !p.holds(#[trigger] s[i]) by {
            if i > 0 {
                assert(s[i] == s.drop_first()[i - 1]);
            }
        }
    }
}

/// `until` from what characterises it.
pub proof fn lemma_until_is<P: CharClass>(s: Seq<char>, p: P, k: int)
    requires
        0 <= k <= s.len(),
        k < s.len() ==> p.holds(s[k]),
        forall|i: int| 0 <= i < k ==> !p.holds(#[trigger] s[i]),
    ensures
        until(s, p) == k,
{
    lemma_until(s, p);
    if until(s, p) < k {
        assert(!p.holds(s[until(s, p) as int]));
    }
    if k < until(s, p) {
        assert(!p.holds(s[k]));
    }
}

pub fn position<P: CharClass>(s: &[char], p: &P) -> (r: usize)
    ensures
        r == until(s@, *p),
        r <= s.len(),
{
    let mut i: usize = 0;
    while i < s.len() && !p.test(s[i])
        invariant
            i <= s.len(),
            forall|j: int| 0 <= j < i ==> !p.holds(#[trigger] s@[j]),
        decreases s.len() - i,
    {
        i = i + 1;
    }
    proof {
        lemma_until_is(s@, *p, i as int);
    }
    i
}

/// `s` starts with `p`.
pub open spec fn starts_with(s: Seq<char>, p: Seq<char>) -> bool {
    p.len() <= s.len() && s.take(p.len() as int) == p
}

/// `s` ends with `p`.
pub open spec fn ends_with(s: Seq<char>, p: Seq<char>) -> bool {
    p.len() <= s.len() && s.skip(s.len() - p.len()) == p
}

pub fn has_prefix(s: &[char], p: &[char]) -> (r: bool)
    ensures
        r == starts_with(s@, p@),
{
    if p.len() > s.len() {
        return false;
    }
    assert(s@.take(p@.len() as int) =~= s@.subrange(0, p@.len() as int));
    same(slice_subrange(s, 0, p.len()), p)
}

pub fn has_suffix(s: &[char], p: &[char]) -> (r: bool)
    ensures
        r == ends_with(s@, p@),
{
    if p.len() > s.len() {
        return false;
    }
    assert(s@.skip(s@.len() - p@.len()) =~= s@.subrange(s@.len() - p@.len(), s@.len() as int));
    same(slice_subrange(s, s.len() - p.len(), s.len()), p)
}

/// Where `p` first occurs in `s`.
pub open spec fn find(s: Seq<char>, p: Seq<char>) -> Option<int>
    decreases s.len(),
{
    if starts_with(s, p) {
        Some(0)
    } else if s.len() == 0 {
        None
    } else {
        match find(s.drop_first(), p) {
            Some(i) => Some(i + 1),
            None => None,
        }
    }
}

pub proof fn lemma_find(s: Seq<char>, p: Seq<char>)
    ensures
        find(s, p) matches Some(i) ==> 0 <= i && i + p.len() <= s.len() && s.subrange(
            i,
            i + p.len(),
        ) == p,
    decreases s.len(),
{
    if starts_with(s, p) {
        assert(s.subrange(0, p.len() as int) =~= s.take(p.len() as int));
    } else if s.len() > 0 {
        lemma_find(s.drop_first(), p);
        if let Some(i) = find(s.drop_first(), p) {
            assert(s.subrange(i + 1, i + 1 + p.len()) =~= s.drop_first().subrange(i, i + p.len()));
        }
    }
}

pub fn find_sub(s: &[char], p: &[char]) -> (r: Option<usize>)
    ensures
        match r {
            Some(i) => find(s@, p@) == Some(i as int) && i + p.len() <= s.len(),
            None => find(s@, p@) is None,
        },
{
    let mut i: usize = 0;
    assert(s@.skip(0) =~= s@);
    proof {
        lemma_find(s@, p@);
    }
    loop
        invariant
            i <= s.len(),
            match find(s@.skip(i as int), p@) {
                Some(k) => find(s@, p@) == Some(k + i),
                None => find(s@, p@) is None,
            },
            find(s@, p@) matches Some(k) ==> k + p@.len() <= s@.len(),
        decreases s.len() - i,
    {
        assert(s@.skip(i as int) =~= s@.subrange(i as int, s@.len() as int));
        if has_prefix(slice_subrange(s, i, s.len()), p) {
            return Some(i);
        }
        if i == s.len() {
            return None;
        }
        assert(s@.skip(i as int).drop_first() =~= s@.skip(i as int + 1));
        i = i + 1;
    }
}

// ───────────────────────── splitting ─────────────────────────

/// The pieces of `s` between the characters of the class.
pub open spec fn split_by<P: CharClass>(s: Seq<char>, p: P) -> Seq<Seq<char>>
    decreases s.len(),
{
    let k = until(s, p) as int;
    if k >= s.len() {
        seq![s]
    } else {
        seq![s.take(k)] + split_by(s.skip(k + 1), p)
    }
}

pub fn split<P: CharClass>(s: &[char], p: &P) -> (r: Vec<Vec<char>>)
    ensures
        rows(r@) == split_by(s@, *p),
        r.len() >= 1,
{
    let mut r: Vec<Vec<char>> = Vec::new();
    let mut rest: &[char] = s;
    assert(rows(r@) + split_by(s@, *p) =~= split_by(s@, *p));
    loop
        invariant
            rows(r@) + split_by(rest@, *p) == split_by(s@, *p),
        decreases rest.len(),
    {
        let k: usize = position(rest, p);
        let piece = copy(slice_subrange(rest, 0, k));
        let ghost was = rows(r@);
        proof {
            lemma_rows_push(r@, piece);
            assert(rest@.subrange(0, k as int) =~= rest@.take(k as int));
        }
        r.push(piece);
        if k == rest.len() {
            assert(rest@.take(k as int) =~= rest@);
            assert(rows(r@) =~= was + split_by(rest@, *p));
            return r;
        }
        proof {
            assert(rest@.subrange(k as int + 1, rest@.len() as int) =~= rest@.skip(k as int + 1));
            assert(was + (seq![rest@.take(k as int)] + split_by(rest@.skip(k as int + 1), *p))
                =~= was.push(rest@.take(k as int)) + split_by(rest@.skip(k as int + 1), *p));
        }
        rest = slice_subrange(rest, k + 1, rest.len());
    }
}

/// The parts that are not empty, in order.
pub open spec fn non_empty(parts: Seq<Seq<char>>) -> Seq<Seq<char>>
    decreases parts.len(),
{
    if parts.len() == 0 {
        Seq::empty()
    } else if parts.last().len() == 0 {
        non_empty(parts.drop_last())
    } else {
        non_empty(parts.drop_last()).push(parts.last())
    }
}

/// The parts with white space trimmed off each.
pub open spec fn each_trimmed(parts: Seq<Seq<char>>) -> Seq<Seq<char>> {
    Seq::new(parts.len(), |i: int| trimmed(parts[i]))
}

/// The words of `s`: its maximal runs without white space.
pub open spec fn words_of(s: Seq<char>) -> Seq<Seq<char>> {
    non_empty(split_by(s, Space))
}

pub fn keep_non_empty(parts: Vec<Vec<char>>) -> (r: Vec<Vec<char>>)
    ensures
        rows(r@) == non_empty(rows(parts@)),
{
    let mut r: Vec<Vec<char>> = Vec::new();
    let mut i: usize = 0;
    assert(rows(r@) =~= Seq::<Seq<char>>::empty());
    assert(rows(parts@).take(0) =~= Seq::<Seq<char>>::empty());
    while i < parts.len()
        invariant
            i <= parts.len(),
            rows(r@) == non_empty(rows(parts@).take(i as int)),
        decreases parts.len() - i,
    {
        proof {
            let t = rows(parts@).take(i as int + 1);
            assert(t.drop_last() =~= rows(parts@).take(i as int));
            assert(t.last() == parts@[i as int]@);
        }
        if parts[i].len() != 0 {
            let c = copy(&parts[i]);
            proof {
                lemma_rows_push(r@, c);
            }
            r.push(c);
        }
        i = i + 1;
    }
    assert(rows(parts@).take(i as int) =~= rows(parts@));
    r
}

pub fn trim_each(parts: Vec<Vec<char>>) -> (r: Vec<Vec<char>>)
    ensures
        rows(r@) == each_trimmed(rows(parts@)),
{
    let mut r: Vec<Vec<char>> = Vec::new();
    let mut i: usize = 0;
    while i < parts.len()
        invariant
            i <= parts.len(),
            r.len() == i,
            forall|j: int| 0 <= j < i ==> #[trigger] r@[j]@ == trimmed(parts@[j]@),
        decreases parts.len() - i,
    {
        let c = copy(trim(&parts[i]));
        r.push(c);
        i = i + 1;
    }
    assert(rows(r@) =~= each_trimmed(rows(parts@)));
    r
}

pub fn words(s: &[char]) -> (r: Vec<Vec<char>>)
    ensures
        rows(r@) == words_of(s@),
{
    keep_non_empty(split(s, &Space))
}

// ───────────────────────── joining and replacing ─────────────────────────

/// The parts one after the other with `sep` between neighbours.
pub open spec fn join(parts: Seq<Seq<char>>, sep: Seq<char>) -> Seq<char>
    decreases parts.len(),
{
    if parts.len() == 0 {
        Seq::empty()
    } else if parts.len() == 1 {
        parts[0]
    } else {
        join(parts.drop_last(), sep) + sep + parts.last()
    }
}

/// What is joined begins with the first part.
pub proof fn lemma_join_front(parts: Seq<Seq<char>>, sep: Seq<char>)
    requires
        parts.len() > 1,
    ensures
        join(parts, sep) == parts[0] + sep + join(parts.drop_first(), sep),
    decreases parts.len(),
{
    let m = parts.drop_last();
    let t = parts.drop_first();
    if parts.len() == 2 {
        assert(join(m, sep) == parts[0]);
        assert(join(t, sep) == parts[1]);
    } else {
        lemma_join_front(m, sep);
        assert(m.drop_first() =~= t.drop_last());
        assert(t.last() == parts.last());
        assert(join(parts, sep) =~= parts[0] + sep + join(t, sep));
    }
}

/// Splitting undoes joining where the separator is of the class and no character of a part is.
pub proof fn lemma_split_join<P: CharClass>(parts: Seq<Seq<char>>, c: char, p: P)
    requires
        parts.len() > 0,
        p.holds(c),
        forall|i: int, j: int|
            0 <= i < parts.len() && 0 <= j < parts[i].len() ==> !p.holds(#[trigger] parts[i][j]),
    ensures
        split_by(join(parts, seq![c]), p) == parts,
    decreases parts.len(),
{
    let s = join(parts, seq![c]);
    let k = parts[0].len() as int;
    if parts.len() == 1 {
        assert forall|i: int| 0 <= i < k implies !p.holds(#[trigger] s[i]) by {
            assert(s[i] == parts[0][i]);
        }
        lemma_until_is(s, p, k);
        assert(split_by(s, p) =~= parts);
    } else {
        let t = parts.drop_first();
        lemma_join_front(parts, seq![c]);
        assert forall|i: int| 0 <= i < k implies !p.holds(#[trigger] s[i]) by {
            assert(s[i] == parts[0][i]);
        }
        assert(s[k] == c);
        lemma_until_is(s, p, k);
        assert(s.take(k) =~= parts[0]);
        assert(s.skip(k + 1) =~= join(t, seq![c]));
        assert forall|i: int, j: int| 0 <= i < t.len() && 0 <= j < t[i].len() implies !p.holds(
            #[trigger] t[i][j],
        ) by {
            assert(!p.holds(parts[i + 1][j]));
        }
        lemma_split_join(t, c, p);
        assert(split_by(s, p) =~= parts);
    }
}

/// No part of a split text holds a character of the class.
pub proof fn lemma_split_parts<P: CharClass>(s: Seq<char>, p: P)
    ensures
        forall|i: int, j: int|
            0 <= i < split_by(s, p).len() && 0 <= j < split_by(s, p)[i].len() ==> !p.holds(
                #[trigger] split_by(s, p)[i][j],
            ),
    decreases s.len(),
{
    let k = until(s, p) as int;
    lemma_until(s, p);
    if k < s.len() {
        let rest = split_by(s.skip(k + 1), p);
        lemma_split_parts(s.skip(k + 1), p);
        assert forall|i: int, j: int|
            0 <= i < split_by(s, p).len() && 0 <= j < split_by(s, p)[i].len() implies !p.holds(
            #[trigger] split_by(s, p)[i][j],
        ) by {
            if i == 0 {
                assert(split_by(s, p)[i][j] == s[j]);
            } else {
                assert(split_by(s, p)[i] == rest[i - 1]);
                assert(!p.holds(rest[i - 1][j]));
            }
        }
    } else {
        assert(split_by(s, p)[0] == s);
    }
}

/// Two texts with a separator between them split into the parts of both.
pub proof fn lemma_split_cat<P: CharClass>(a: Seq<char>, c: char, b: Seq<char>, p: P)
    requires
        p.holds(c),
    ensures
        split_by(a + seq![c] + b, p) == split_by(a, p) + split_by(b, p),
    decreases a.len(),
{
    let s = a + seq![c] + b;
    let k = until(a, p) as int;
    lemma_until(a, p);
    assert forall|i: int| 0 <= i < k implies !p.holds(#[trigger] s[i]) by {
        assert(s[i] == a[i]);
    }
    if k < a.len() {
        assert(s[k] == a[k]);
        lemma_until_is(s, p, k);
        lemma_split_cat(a.skip(k + 1), c, b, p);
        assert(s.skip(k + 1) =~= a.skip(k + 1) + seq![c] + b);
        assert(s.take(k) =~= a.take(k));
    } else {
        assert(s[k] == c);
        lemma_until_is(s, p, k);
        assert(s.skip(k + 1) =~= b);
        assert(s.take(k) =~= a);
    }
    assert(split_by(s, p) =~= split_by(a, p) + split_by(b, p));
}

/// The parts that hold something, of two lists put together.
pub proof fn lemma_non_empty_cat(a: Seq<Seq<char>>, b: Seq<Seq<char>>)
    ensures
        non_empty(a + b) == non_empty(a) + non_empty(b),
    decreases b.len(),
{
    if b.len() == 0 {
        assert(a + b =~= a);
        assert(non_empty(a) + non_empty(b) =~= non_empty(a));
    } else {
        lemma_non_empty_cat(a, b.drop_last());
        assert((a + b).drop_last() =~= a + b.drop_last());
        assert((a + b).last() == b.last());
        assert(non_empty(a + b) =~= non_empty(a) + non_empty(b));
    }
}

/// One step of `join` for a growing table.
pub proof fn lemma_join_step(parts: Seq<Seq<char>>, sep: Seq<char>, i: int)
    requires
        0 <= i < parts.len(),
    ensures
        i == 0 ==> join(parts.take(i + 1), sep) == parts[0],
        i > 0 ==> join(parts.take(i + 1), sep) == join(parts.take(i), sep) + sep + parts[i],
{
    assert(parts.take(i + 1).drop_last() =~= parts.take(i));
}

pub fn join_strs(parts: &Vec<String>, sep: &str) -> (r: String)
    ensures
        r@ == join(texts(parts@), sep@),
{
    let mut r: Vec<char> = Vec::new();
    let gap = chars_of(sep);
    let mut i: usize = 0;
    assert(texts(parts@).take(0) =~= Seq::<Seq<char>>::empty());
    while i < parts.len()
        invariant
            gap@ == sep@,
            i <= parts.len(),
            r@ == join(texts(parts@).take(i as int), sep@),
        decreases parts.len() - i,
    {
        proof {
            lemma_join_step(texts(parts@), sep@, i as int);
        }
        if i > 0 {
            extend(&mut r, &gap);
        }
        extend_str(&mut r, parts[i].as_str());
        proof {
            assert(r@ =~= join(texts(parts@).take(i as int + 1), sep@));
        }
        i = i + 1;
    }
    assert(texts(parts@).take(i as int) =~= texts(parts@));
    string_of(&r)
}

/// `s` with each occurrence of `p`, from the left and without overlap, replaced by `r`.
pub open spec fn replaced(s: Seq<char>, p: Seq<char>, r: Seq<char>) -> Seq<char>
    decreases s.len(),
{
    if s.len() == 0 || p.len() == 0 {
        s
    } else if starts_with(s, p) {
        r + replaced(s.skip(p.len() as int), p, r)
    } else {
        seq![s[0]] + replaced(s.drop_first(), p, r)
    }
}

pub fn replace(s: &[char], p: &[char], r: &[char]) -> (out: Vec<char>)
    requires
        p@.len() > 0,
    ensures
        out@ == replaced(s@, p@, r@),
{
    let mut out: Vec<char> = Vec::new();
    let mut rest: &[char] = s;
    assert(out@ + replaced(s@, p@, r@) =~= replaced(s@, p@, r@));
    while rest.len() > 0
        invariant
            p@.len() > 0,
            out@ + replaced(rest@, p@, r@) == replaced(s@, p@, r@),
        decreases rest.len(),
    {
        let ghost was = out@;
        if has_prefix(rest, p) {
            extend(&mut out, r);
            proof {
                assert(rest@.subrange(p@.len() as int, rest@.len() as int) =~= rest@.skip(
                    p@.len() as int,
                ));
                assert(was + (r@ + replaced(rest@.skip(p@.len() as int), p@, r@)) =~= (was + r@)
                    + replaced(rest@.skip(p@.len() as int), p@, r@));
            }
            rest = slice_subrange(rest, p.len(), rest.len());
        } else {
            out.push(rest[0]);
            proof {
                assert(rest@.subrange(1, rest@.len() as int) =~= rest@.drop_first());
                assert(was + (seq![rest@[0]] + replaced(rest@.drop_first(), p@, r@))
                    =~= was.push(rest@[0]) + replaced(rest@.drop_first(), p@, r@));
            }
            rest = slice_subrange(rest, 1, rest.len());
        }
    }
    assert(out@ + replaced(rest@, p@, r@) =~= out@);
    out
}

} // verus!
