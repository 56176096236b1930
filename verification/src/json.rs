//! The little JSON that goes to and comes from the language model.
//!
//! Work and result files are written and read by this program alone, and replies are taken
//! apart leniently: fields are found by name, objects by their braces.
use crate::number::{parse_u32, parse_usize, parsed_nat};
use crate::text::{
    chars_of, copy, drop_start, ends_with, extend_str, find, find_sub, has_prefix, has_suffix,
    lemma_rows_push, lemma_until, position, rows, split, split_by, starts_with, string_of, texts,
    trim, trim_start_by, trimmed, until, NotDigit, One, Space,
};
use vstd::prelude::*;
use vstd::slice::*;
use vstd::string::*;

verus! {

// ───────────────────────── writing ─────────────────────────

/// One character inside a JSON string. Control characters are dropped, a tab becomes a blank.
pub open spec fn escaped_char(c: char) -> Seq<char> {
    if c == '"' {
        seq!['\\', '"']
    } else if c == '\\' {
        seq!['\\', '\\']
    } else if c == '\n' {
        seq!['\\', 'n']
    } else if c == '\t' {
        seq![' ']
    } else if (c as u32) < 0x20 {
        Seq::empty()
    } else {
        seq![c]
    }
}

/// A text inside a JSON string.
pub open spec fn escaped(s: Seq<char>) -> Seq<char>
    decreases s.len(),
{
    if s.len() == 0 {
        Seq::empty()
    } else {
        escaped(s.drop_last()) + escaped_char(s.last())
    }
}

pub(crate) fn push_escaped(out: &mut Vec<char>, s: &str)
    ensures
        final(out)@ == old(out)@ + escaped(s@),
{
    let c = chars_of(s);
    let ghost before = out@;
    let mut i: usize = 0;
    assert(c@.take(0) =~= Seq::<char>::empty());
    while i < c.len()
        invariant
            i <= c.len(),
            out@ == before + escaped(c@.take(i as int)),
        decreases c.len() - i,
    {
        let x: char = c[i];
        proof {
            assert(c@.take(i as int + 1).drop_last() =~= c@.take(i as int));
        }
        if x == '"' {
            out.push('\\');
            out.push('"');
        } else if x == '\\' {
            out.push('\\');
            out.push('\\');
        } else if x == '\n' {
            out.push('\\');
            out.push('n');
        } else if x == '\t' {
            out.push(' ');
        } else if (x as u32) < 0x20 {
        } else {
            out.push(x);
        }
        assert(out@ =~= before + escaped(c@.take(i as int + 1)));
        i = i + 1;
    }
    assert(c@.take(i as int) =~= c@);
}

// ───────────────────────── reading ─────────────────────────

/// A key of a JSON object as it stands in the text.
pub open spec fn key_pattern(key: Seq<char>) -> Seq<char> {
    seq!['"'] + key + seq!['"', ':']
}

/// What follows the first mention of a key, if there is one.
pub open spec fn after_key(s: Seq<char>, key: Seq<char>) -> Option<Seq<char>> {
    match find(s, key_pattern(key)) {
        Some(i) => Some(s.skip(i + key_pattern(key).len())),
        None => None,
    }
}

pub(crate) fn after<'a>(s: &'a [char], key: &str) -> (r: Option<&'a [char]>)
    ensures
        match r {
            Some(t) => after_key(s@, key@) == Some(t@),
            None => after_key(s@, key@) is None,
        },
{
    let mut pat: Vec<char> = Vec::new();
    pat.push('"');
    extend_str(&mut pat, key);
    pat.push('"');
    pat.push(':');
    assert(pat@ =~= key_pattern(key@));
    match find_sub(s, &pat) {
        Some(i) => {
            let t = slice_subrange(s, i + pat.len(), s.len());
            assert(t@ =~= s@.skip(i + pat@.len()));
            Some(t)
        },
        None => None,
    }
}

/// The number that stands under a key: the digits after it.
pub open spec fn number_field(line: Seq<char>, key: Seq<char>) -> Option<u32> {
    match after_key(line, key) {
        Some(t) => {
            let rest = trim_start_by(t, Space);
            match parsed_nat(rest.take(until(rest, NotDigit) as int), 10, u32::MAX as nat) {
                Some(n) => Some(n as u32),
                None => None,
            }
        },
        None => None,
    }
}

pub(crate) fn json_u32_of(line: &[char], key: &str) -> (r: Option<u32>)
    ensures
        r == number_field(line@, key@),
{
    match after(line, key) {
        Some(t) => {
            let rest = drop_start(t, &Space);
            let end: usize = position(rest, &NotDigit);
            let d = slice_subrange(rest, 0, end);
            assert(d@ =~= rest@.take(end as int));
            parse_u32(d)
        },
        None => None,
    }
}

/// Reads a number field of a line of JSON that this program wrote.
pub fn json_u32(line: &str, key: &str) -> (r: Option<u32>)
    ensures
        r == number_field(line@, key@),
{
    let c = chars_of(line);
    json_u32_of(&c, key)
}

/// The contents of a JSON string up to its closing quote, or up to the end. A backslash
/// stands for the character after it, but for `n`, a line break, and `t`, a blank.
pub open spec fn unquoted(s: Seq<char>) -> Seq<char>
    decreases s.len(),
{
    if s.len() == 0 || s[0] == '"' {
        Seq::empty()
    } else if s[0] == '\\' {
        if s.len() == 1 {
            Seq::empty()
        } else {
            seq![
                if s[1] == 'n' {
                    '\n'
                } else if s[1] == 't' {
                    ' '
                } else {
                    s[1]
                },
            ] + unquoted(s.skip(2))
        }
    } else {
        seq![s[0]] + unquoted(s.drop_first())
    }
}

/// The string that stands under a key.
pub open spec fn string_field(s: Seq<char>, key: Seq<char>) -> Option<Seq<char>> {
    match after_key(s, key) {
        Some(t) => {
            let rest = trim_start_by(t, Space);
            if rest.len() > 0 && rest[0] == '"' {
                Some(unquoted(rest.drop_first()))
            } else {
                None
            }
        },
        None => None,
    }
}

pub(crate) fn unquote(s: &[char]) -> (r: Vec<char>)
    ensures
        r@ == unquoted(s@),
{
    let mut out: Vec<char> = Vec::new();
    let mut i: usize = 0;
    assert(s@.skip(0) =~= s@);
    assert(out@ + unquoted(s@) =~= unquoted(s@));
    while i < s.len() && s[i] != '"'
        invariant
            i <= s.len(),
            out@ + unquoted(s@.skip(i as int)) == unquoted(s@),
        decreases s.len() - i,
    {
        let ghost was = out@;
        let ghost rest = s@.skip(i as int);
        let c: char = s[i];
        if c == '\\' {
            if i + 1 >= s.len() {
                assert(out@ + unquoted(rest) =~= out@);
                return out;
            }
            let n: char = s[i + 1];
            let x: char = if n == 'n' {
                '\n'
            } else if n == 't' {
                ' '
            } else {
                n
            };
            out.push(x);
            proof {
                assert(rest.skip(2) =~= s@.skip(i as int + 2));
                assert(rest[1] == n);
                assert(was + (seq![x] + unquoted(rest.skip(2))) =~= out@ + unquoted(
                    s@.skip(i as int + 2),
                ));
            }
            i = i + 2;
        } else {
            out.push(c);
            proof {
                assert(rest.drop_first() =~= s@.skip(i as int + 1));
                assert(was + (seq![c] + unquoted(rest.drop_first())) =~= out@ + unquoted(
                    s@.skip(i as int + 1),
                ));
            }
            i = i + 1;
        }
    }
    assert(out@ + unquoted(s@.skip(i as int)) =~= out@);
    out
}

pub(crate) fn json_str(s: &[char], key: &str) -> (r: Option<Vec<char>>)
    ensures
        match r {
            Some(t) => string_field(s@, key@) == Some(t@),
            None => string_field(s@, key@) is None,
        },
{
    match after(s, key) {
        Some(t) => {
            let rest = drop_start(t, &Space);
            if rest.len() > 0 && rest[0] == '"' {
                let inner = slice_subrange(rest, 1, rest.len());
                assert(inner@ =~= rest@.drop_first());
                Some(unquote(inner))
            } else {
                None
            }
        },
        None => None,
    }
}

/// The parts that are numbers.
pub open spec fn numbers_in(parts: Seq<Seq<char>>) -> Seq<usize>
    decreases parts.len(),
{
    if parts.len() == 0 {
        Seq::empty()
    } else {
        match parsed_nat(trimmed(parts.last()), 10, usize::MAX as nat) {
            Some(n) => numbers_in(parts.drop_last()).push(n as usize),
            None => numbers_in(parts.drop_last()),
        }
    }
}

/// The numbers in the square brackets that follow a key.
pub open spec fn numbers_field(s: Seq<char>, key: Seq<char>) -> Seq<usize> {
    match after_key(s, key) {
        Some(rest) => {
            let a = until(rest, One('[')) as int;
            let tail = rest.skip(a);
            let b = until(tail, One(']')) as int;
            if a >= rest.len() || b >= tail.len() {
                Seq::empty()
            } else {
                numbers_in(split_by(tail.subrange(1, b), One(',')))
            }
        },
        None => Seq::empty(),
    }
}

pub(crate) fn json_usizes(s: &[char], key: &str) -> (r: Vec<usize>)
    ensures
        r@ == numbers_field(s@, key@),
{
    let mut r: Vec<usize> = Vec::new();
    assert(r@ =~= Seq::<usize>::empty());
    let rest = match after(s, key) {
        Some(t) => t,
        None => {
            return r;
        },
    };
    let a: usize = position(rest, &One('['));
    if a >= rest.len() {
        return r;
    }
    let tail = slice_subrange(rest, a, rest.len());
    assert(tail@ =~= rest@.skip(a as int));
    let b: usize = position(tail, &One(']'));
    if b >= tail.len() {
        return r;
    }
    proof {
        lemma_until(rest@, One('['));
        lemma_until(tail@, One(']'));
        assert(rest@[a as int] == '[');
        assert(tail@[b as int] == ']');
    }
    let parts = split(slice_subrange(tail, 1, b), &One(','));
    let mut i: usize = 0;
    assert(rows(parts@).take(0) =~= Seq::<Seq<char>>::empty());
    while i < parts.len()
        invariant
            i <= parts.len(),
            r@ == numbers_in(rows(parts@).take(i as int)),
        decreases parts.len() - i,
    {
        proof {
            let t = rows(parts@).take(i as int + 1);
            assert(t.drop_last() =~= rows(parts@).take(i as int));
            assert(t.last() == parts@[i as int]@);
        }
        match parse_usize(trim(&parts[i])) {
            Some(n) => {
                r.push(n);
            },
            None => {},
        }
        i = i + 1;
    }
    assert(rows(parts@).take(i as int) =~= rows(parts@));
    r
}

/// How many strings begin before the first `]` outside a string, where `inside` says whether
/// the text begins within a string.
pub open spec fn strings_ahead(s: Seq<char>, inside: bool) -> nat
    decreases s.len(),
{
    if s.len() == 0 {
        0
    } else if inside {
        if s[0] == '\\' && s.len() > 1 {
            strings_ahead(s.skip(2), true)
        } else {
            strings_ahead(s.drop_first(), s[0] != '"')
        }
    } else if s[0] == ']' {
        0
    } else if s[0] == '"' {
        1 + strings_ahead(s.drop_first(), true)
    } else {
        strings_ahead(s.drop_first(), false)
    }
}

/// How many strings the list under a key holds.
pub open spec fn strings_under(s: Seq<char>, key: Seq<char>) -> nat {
    match after_key(s, key) {
        Some(rest) => strings_ahead(rest, false),
        None => 0,
    }
}

pub(crate) fn json_strings(s: &[char], key: &str) -> (r: usize)
    ensures
        r == strings_under(s@, key@),
{
    let rest = match after(s, key) {
        Some(t) => t,
        None => {
            return 0;
        },
    };
    let mut n: usize = 0;
    let mut inside: bool = false;
    let mut i: usize = 0;
    assert(rest@.skip(0) =~= rest@);
    while i < rest.len() && (inside || rest[i] != ']')
        invariant
            n <= i <= rest.len(),
            strings_ahead(rest@, false) == n + strings_ahead(rest@.skip(i as int), inside),
        decreases rest.len() - i,
    {
        let c: char = rest[i];
        assert(rest@.skip(i as int)[0] == c);
        assert(rest@.skip(i as int).drop_first() =~= rest@.skip(i as int + 1));
        if inside && c == '\\' && rest.len() - i > 1 {
            assert(rest@.skip(i as int).skip(2) =~= rest@.skip(i as int + 2));
            i = i + 2;
        } else {
            if inside {
                inside = c != '"';
            } else if c == '"' {
                inside = true;
                n = n + 1;
            }
            i = i + 1;
        }
    }
    n
}

/// A reply without the code fence that may stand round it.
pub open spec fn fence_stripped(s: Seq<char>) -> Seq<char> {
    let t = trimmed(s);
    let u = if starts_with(t, "```json"@) {
        t.skip(7)
    } else if starts_with(t, "```"@) {
        t.skip(3)
    } else {
        t
    };
    let v = trim_start_by(u, Space);
    if ends_with(v, "```"@) {
        trimmed(v.take(v.len() - 3))
    } else {
        trimmed(u)
    }
}

pub(crate) fn strip_fence_of(s: &[char]) -> (r: Vec<char>)
    ensures
        r@ == fence_stripped(s@),
{
    let t = trim(s);
    let long = chars_of("```json");
    let short = chars_of("```");
    proof {
        reveal_strlit("```json");
        reveal_strlit("```");
        assert("```json"@.len() == 7);
        assert("```"@.len() == 3);
    }
    let u: &[char] = if has_prefix(t, &long) {
        assert(t@.skip(7) =~= t@.subrange(7, t@.len() as int));
        slice_subrange(t, 7, t.len())
    } else if has_prefix(t, &short) {
        assert(t@.skip(3) =~= t@.subrange(3, t@.len() as int));
        slice_subrange(t, 3, t.len())
    } else {
        t
    };
    let v = drop_start(u, &Space);
    if has_suffix(v, &short) {
        let w = slice_subrange(v, 0, v.len() - 3);
        assert(w@ =~= v@.take(v@.len() - 3));
        copy(trim(w))
    } else {
        copy(trim(u))
    }
}

/// Takes off the code fence that a reply may stand in.
pub fn strip_fence(s: &str) -> (r: String)
    ensures
        r@ == fence_stripped(s@),
{
    let c = chars_of(s);
    let r = strip_fence_of(&c);
    string_of(&r)
}

/// Where a scan for objects stands.
pub struct ScanView {
    pub depth: int,
    /// Where the outermost object began.
    pub start: int,
    pub in_str: bool,
    pub escape: bool,
}

/// The scan after one more character.
pub open spec fn scan_step(st: ScanView, c: char, i: int) -> ScanView {
    if st.in_str {
        if st.escape {
            ScanView { escape: false, ..st }
        } else if c == '\\' {
            ScanView { escape: true, ..st }
        } else if c == '"' {
            ScanView { in_str: false, ..st }
        } else {
            st
        }
    } else if c == '"' {
        ScanView { in_str: true, ..st }
    } else if c == '{' {
        ScanView {
            start: if st.depth == 0 {
                i
            } else {
                st.start
            },
            depth: st.depth + 1,
            ..st
        }
    } else if c == '}' {
        ScanView { depth: st.depth - 1, ..st }
    } else {
        st
    }
}

/// The scan of the first `n` characters.
pub open spec fn scan_upto(s: Seq<char>, n: nat) -> ScanView
    decreases n,
{
    if n == 0 {
        ScanView { depth: 0, start: 0, in_str: false, escape: false }
    } else {
        scan_step(scan_upto(s, (n - 1) as nat), s[n - 1], n - 1)
    }
}

/// The objects that close within the first `n` characters. Braces inside strings do not count.
pub open spec fn objects_upto(s: Seq<char>, n: nat) -> Seq<Seq<char>>
    decreases n,
{
    if n == 0 {
        Seq::empty()
    } else {
        let st = scan_upto(s, (n - 1) as nat);
        let a = objects_upto(s, (n - 1) as nat);
        if !st.in_str && s[n - 1] == '}' && st.depth == 1 {
            a.push(s.subrange(st.start, n as int))
        } else {
            a
        }
    }
}

/// The outermost objects of a text.
pub open spec fn objects_in(s: Seq<char>) -> Seq<Seq<char>> {
    objects_upto(s, s.len())
}

pub(crate) fn split_objects_of(s: &[char]) -> (r: Vec<Vec<char>>)
    ensures
        rows(r@) == objects_in(s@),
{
    let mut out: Vec<Vec<char>> = Vec::new();
    let mut depth: i128 = 0;
    let mut start: usize = 0;
    let mut in_str: bool = false;
    let mut escape: bool = false;
    let mut i: usize = 0;
    assert(rows(out@) =~= Seq::<Seq<char>>::empty());
    while i < s.len()
        invariant
            i <= s.len(),
            -i <= depth <= i,
            start <= i,
            rows(out@) == objects_upto(s@, i as nat),
            scan_upto(s@, i as nat) == (ScanView {
                depth: depth as int,
                start: start as int,
                in_str,
                escape,
            }),
        decreases s.len() - i,
    {
        let c: char = s[i];
        if in_str {
            if escape {
                escape = false;
            } else if c == '\\' {
                escape = true;
            } else if c == '"' {
                in_str = false;
            }
        } else if c == '"' {
            in_str = true;
        } else if c == '{' {
            if depth == 0 {
                start = i;
            }
            depth = depth + 1;
        } else if c == '}' {
            depth = depth - 1;
            if depth == 0 {
                let x = copy(slice_subrange(s, start, i + 1));
                proof {
                    lemma_rows_push(out@, x);
                }
                out.push(x);
            }
        }
        i = i + 1;
    }
    out
}

/// Cuts a text into its outermost JSON objects.
pub fn split_objects(s: &str) -> (r: Vec<String>)
    ensures
        texts(r@) == objects_in(s@),
{
    let c = chars_of(s);
    let parts = split_objects_of(&c);
    let mut r: Vec<String> = Vec::new();
    let mut i: usize = 0;
    while i < parts.len()
        invariant
            i <= parts.len(),
            r.len() == i,
            forall|j: int| 0 <= j < i ==> (#[trigger] r@[j])@ == parts@[j]@,
        decreases parts.len() - i,
    {
        r.push(string_of(&parts[i]));
        i = i + 1;
    }
    assert(texts(r@) =~= rows(parts@));
    r
}

} // verus!
