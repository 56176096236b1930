//! What the operations on texts, numbers and bytes do, whatever they are used for.
use crate::bytes::{
    bytes_less, le32, le64, lemma_le32_at, lemma_le64_at, lemma_put32, lemma_put64, put16, put32,
    put64,
};
use crate::fstmap::{value_at, with_prefix, FstEntries};
use crate::letters::{ascii_lower, ascii_lower_char, ascii_upper_char, is_plain_char, plain_lower};
use crate::number::{decimal, digit_value, lemma_decimal_reads_back, parsed_nat, value_of};
use crate::text::{
    each_trimmed, ends_bare, ends_with, find, is_ascii_punct_spec, is_cjk_spec, is_digit_spec,
    is_latin_spec, is_space_spec, join, lemma_blank_trims, lemma_non_empty_cat, lemma_split_cat,
    lemma_until_is, non_empty, replaced, split_by, starts_with, trim_end_by, trim_start_by,
    trimmed, words_of, CharClass, NotAlnum, NotCjk, NotDigit, NotLatin, PunctOrSpace, Space,
};
use vstd::prelude::*;

verus! {

// ───────────────────────── characters ─────────────────────────

/// What counts as a letter, a digit, a Han character and punctuation.
pub proof fn law_kinds_of_characters(c: char)
    ensures
        is_latin_spec(c) <==> 0x41 <= c as u32 <= 0x5A || 0x61 <= c as u32 <= 0x7A,
        is_digit_spec(c) <==> 0x30 <= c as u32 <= 0x39,
        is_cjk_spec(c) <==> 0x3400 <= c as u32 <= 0x4DBF || 0x4E00 <= c as u32 <= 0x9FFF || 0xF900
            <= c as u32 <= 0xFAFF || 0x20000 <= c as u32 <= 0x2FA1F,
        is_ascii_punct_spec(c) <==> 0x21 <= c as u32 <= 0x2F || 0x3A <= c as u32 <= 0x40 || 0x5B
            <= c as u32 <= 0x60 || 0x7B <= c as u32 <= 0x7E,
        PunctOrSpace.holds(c) <==> is_space_spec(c) || 0x21 <= c as u32 <= 0x2F || 0x3A <= c as u32
            <= 0x40 || 0x5B <= c as u32 <= 0x60 || 0x7B <= c as u32 <= 0x7E,
        NotAlnum.holds(c) <==> !('a' <= c <= 'z') && !('A' <= c <= 'Z') && !('0' <= c <= '9') && c
            != '\'',
        NotLatin.holds(c) <==> !('a' <= c <= 'z') && !('A' <= c <= 'Z') && c != '\'',
        NotCjk.holds(c) <==> !is_cjk_spec(c),
        NotDigit.holds(c) <==> !('0' <= c <= '9'),
        Space.holds(c) <==> is_space_spec(c),
{
}

/// Capital letters from A to Z have their small letters, and back; other characters of ASCII are
/// left alone.
pub proof fn law_small_and_capital_letters(s: Seq<char>, c: char, i: int)
    ensures
        'A' <= c <= 'Z' ==> ascii_lower_char(c) as u32 == c as u32 + 32,
        !('A' <= c <= 'Z') ==> ascii_lower_char(c) == c,
        'a' <= c <= 'z' ==> ascii_upper_char(c) as u32 == c as u32 - 32,
        !('a' <= c <= 'z') ==> ascii_upper_char(c) == c,
        'A' <= c <= 'Z' ==> ascii_upper_char(ascii_lower_char(c)) == c,
        'a' <= c <= 'z' ==> ascii_lower_char(ascii_upper_char(c)) == c,
        ascii_lower(s).len() == s.len(),
        0 <= i < s.len() ==> ascii_lower(s)[i] == ascii_lower_char(s[i]),
        plain_lower(s).len() == s.len(),
        0 <= i < s.len() && s[i] == 'Ü' ==> plain_lower(s)[i] == 'ü',
        0 <= i < s.len() && s[i] != 'Ü' ==> plain_lower(s)[i] == ascii_lower_char(s[i]),
        is_plain_char(c) <==> (c as u32) < 128 || c == 'ü' || c == 'Ü' || is_cjk_spec(c),
{
}

// ───────────────────────── texts ─────────────────────────

proof fn lemma_start_blank(a: Seq<char>, y: Seq<char>)
    requires
        forall|i: int| 0 <= i < a.len() ==> is_space_spec(#[trigger] a[i]),
    ensures
        trim_start_by(a + y, Space) == trim_start_by(y, Space),
    decreases a.len(),
{
    if a.len() == 0 {
        assert(a + y =~= y);
    } else {
        let t = a.drop_first();
        assert(forall|i: int| 0 <= i < t.len() ==> t[i] == a[i + 1]);
        lemma_start_blank(t, y);
        assert((a + y).drop_first() =~= t + y);
        assert((a + y)[0] == a[0]);
    }
}

proof fn lemma_end_blank(y: Seq<char>, b: Seq<char>)
    requires
        forall|i: int| 0 <= i < b.len() ==> is_space_spec(#[trigger] b[i]),
    ensures
        trim_end_by(y + b, Space) == trim_end_by(y, Space),
    decreases b.len(),
{
    if b.len() == 0 {
        assert(y + b =~= y);
    } else {
        let t = b.drop_last();
        assert(forall|i: int| 0 <= i < t.len() ==> t[i] == b[i]);
        lemma_end_blank(y, t);
        assert((y + b).drop_last() =~= y + t);
        assert((y + b).last() == b[b.len() - 1]);
    }
}

/// Trimming takes the blanks at both ends off and nothing more.
pub proof fn law_blanks_are_taken_off(a: Seq<char>, x: Seq<char>, b: Seq<char>)
    requires
        forall|i: int| 0 <= i < a.len() ==> is_space_spec(#[trigger] a[i]),
        forall|i: int| 0 <= i < b.len() ==> is_space_spec(#[trigger] b[i]),
        ends_bare(x),
    ensures
        trimmed(a + x + b) == x,
{
    assert(a + x + b =~= a + (x + b));
    lemma_start_blank(a, x + b);
    if x.len() > 0 {
        assert((x + b)[0] == x[0]);
        assert(trim_start_by(x + b, Space) == x + b);
        lemma_end_blank(x, b);
        assert(trim_end_by(x, Space) == x);
    } else {
        let s = a + x + b;
        assert forall|i: int| 0 <= i < s.len() implies is_space_spec(#[trigger] s[i]) by {
            if i < a.len() {
                assert(s[i] == a[i]);
            } else {
                assert(s[i] == b[i - a.len()]);
            }
        }
        lemma_blank_trims(s);
        assert(trimmed(s) =~= x);
    }
}

/// A text falls apart at each separator; one without a separator is one part.
pub proof fn law_texts_fall_apart<P: CharClass>(a: Seq<char>, c: char, b: Seq<char>, p: P)
    ensures
        p.holds(c) ==> split_by(a + seq![c] + b, p) == split_by(a, p) + split_by(b, p),
        (forall|i: int| 0 <= i < a.len() ==> !p.holds(#[trigger] a[i])) ==> split_by(a, p) == seq![a],
{
    if p.holds(c) {
        lemma_split_cat(a, c, b, p);
    }
    if forall|i: int| 0 <= i < a.len() ==> !p.holds(#[trigger] a[i]) {
        lemma_until_is(a, p, a.len() as int);
    }
}

/// Words stand between blanks, however many.
pub proof fn law_words_stand_between_blanks(a: Seq<char>, c: char, b: Seq<char>)
    ensures
        is_space_spec(c) ==> words_of(a + seq![c] + b) == words_of(a) + words_of(b),
        a.len() > 0 && (forall|i: int| 0 <= i < a.len() ==> !is_space_spec(#[trigger] a[i]))
            ==> words_of(a) == seq![a],
        words_of(Seq::empty()).len() == 0,
{
    law_texts_fall_apart(a, c, b, Space);
    lemma_non_empty_cat(split_by(a, Space), split_by(b, Space));
    let e = Seq::<Seq<char>>::empty();
    assert(non_empty(e) =~= e);
    if a.len() > 0 && (forall|i: int| 0 <= i < a.len() ==> !is_space_spec(#[trigger] a[i])) {
        assert forall|i: int| 0 <= i < a.len() implies !Space.holds(#[trigger] a[i]) by {}
        lemma_until_is(a, Space, a.len() as int);
        assert(seq![a].drop_last() =~= e);
        assert(non_empty(seq![a]) =~= seq![a]);
    }
    let n = Seq::<char>::empty();
    assert(split_by(n, Space) == seq![n]);
    assert(seq![n].drop_last() =~= e);
    assert(seq![n].last().len() == 0);
}

/// What is found is the first place where the pattern stands, and nothing is found where it
/// stands nowhere.
pub proof fn law_the_first_place_is_found(s: Seq<char>, p: Seq<char>, j: int)
    ensures
        find(s, p) matches Some(i) ==> 0 <= i <= s.len() && p.is_prefix_of(s.skip(i)),
        find(s, p) is Some && 0 <= j < find(s, p)->0 ==> !p.is_prefix_of(s.skip(j)),
        find(s, p) is None && 0 <= j <= s.len() ==> !p.is_prefix_of(s.skip(j)),
    decreases s.len(),
{
    assert(s.skip(0) =~= s);
    lemma_starts(s, p);
    if !starts_with(s, p) && s.len() > 0 {
        let t = s.drop_first();
        law_the_first_place_is_found(t, p, j - 1);
        if 1 <= j <= s.len() {
            assert(t.skip(j - 1) =~= s.skip(j));
        }
        if let Some(i) = find(t, p) {
            assert(t.skip(i) =~= s.skip(i + 1));
        }
    }
}

proof fn lemma_starts(s: Seq<char>, p: Seq<char>)
    ensures
        starts_with(s, p) <==> p.is_prefix_of(s),
        ends_with(s, p) <==> p.is_suffix_of(s),
{
    if p.len() <= s.len() {
        assert(s.take(p.len() as int) =~= s.subrange(0, p.len() as int));
        assert(s.skip(s.len() - p.len()) =~= s.subrange(s.len() - p.len(), s.len() as int));
    }
}

/// How texts begin and end.
pub proof fn law_how_texts_begin_and_end(p: Seq<char>, x: Seq<char>, s: Seq<char>)
    ensures
        starts_with(p + x, p),
        ends_with(x + p, p),
        starts_with(s, p) ==> s == p + s.skip(p.len() as int),
        ends_with(s, p) ==> s == s.take(s.len() - p.len()) + p,
{
    assert((p + x).take(p.len() as int) =~= p);
    assert((x + p).skip(x.len() as int) =~= p);
    if starts_with(s, p) {
        assert(s =~= s.take(p.len() as int) + s.skip(p.len() as int));
    }
    if ends_with(s, p) {
        assert(s =~= s.take(s.len() - p.len()) + s.skip(s.len() - p.len()));
    }
}

/// Every place where the pattern stands is replaced, from the front, and the rest stays.
pub proof fn law_every_place_is_replaced(p: Seq<char>, r: Seq<char>, x: Seq<char>, c: char)
    requires
        p.len() > 0,
    ensures
        replaced(p + x, p, r) == r + replaced(x, p, r),
        !p.is_prefix_of(seq![c] + x) ==> replaced(seq![c] + x, p, r) == seq![c] + replaced(x, p, r),
        replaced(Seq::empty(), p, r).len() == 0,
{
    lemma_starts(p + x, p);
    lemma_starts(seq![c] + x, p);
    assert((p + x).take(p.len() as int) =~= p);
    assert((p + x).skip(p.len() as int) =~= x);
    assert((seq![c] + x).drop_first() =~= x);
    assert((seq![c] + x)[0] == c);
}

/// Parts are joined with the separator between them.
pub proof fn law_parts_are_joined(parts: Seq<Seq<char>>, x: Seq<char>, sep: Seq<char>)
    ensures
        join(Seq::empty(), sep).len() == 0,
        join(seq![x], sep) == x,
        parts.len() > 0 ==> join(parts.push(x), sep) == join(parts, sep) + sep + x,
{
    assert(parts.push(x).drop_last() =~= parts);
}

/// Parts that are empty are left out, and each part is trimmed by itself.
pub proof fn law_empty_parts_are_left_out(parts: Seq<Seq<char>>, x: Seq<char>, i: int)
    ensures
        non_empty(parts.push(x)) == if x.len() > 0 {
            non_empty(parts).push(x)
        } else {
            non_empty(parts)
        },
        non_empty(Seq::empty()).len() == 0,
        each_trimmed(parts).len() == parts.len(),
        0 <= i < parts.len() ==> each_trimmed(parts)[i] == trimmed(parts[i]),
{
    assert(parts.push(x).drop_last() =~= parts);
}

// ───────────────────────── numbers ─────────────────────────

/// Numbers are written in decimal digits, without noughts in front, and read back.
pub proof fn law_numbers_are_written_in_digits(n: nat)
    ensures
        n < 10 ==> decimal(n) == seq![('0' as u32 + n) as u8 as char],
        n >= 10 ==> decimal(n) == decimal(n / 10) + decimal(n % 10),
        value_of(decimal(n), 10) == n,
        n <= u32::MAX ==> parsed_nat(decimal(n), 10, u32::MAX as nat) == Some(n),
{
    lemma_decimal_reads_back(n);
    if n >= 10 {
        assert(decimal(n) =~= decimal(n / 10) + decimal(n % 10));
    }
}

/// A plus sign in front of a number does not count; a number that is too large is none.
pub proof fn law_which_numbers_are_read(s: Seq<char>, radix: nat, max: nat)
    ensures
        s.len() == 0 || s[0] != '+' ==> parsed_nat(seq!['+'] + s, radix, max) == parsed_nat(
            s,
            radix,
            max,
        ),
        parsed_nat(s, radix, max) matches Some(n) ==> n <= max,
        s.len() > 0 && s[0] != '+' && (forall|i: int|
            0 <= i < s.len() ==> (#[trigger] digit_value(s[i], radix)) is Some) && value_of(s, radix)
            > max ==> parsed_nat(s, radix, max) is None,
        s.len() > 0 && s[0] != '+' && (exists|i: int|
            0 <= i < s.len() && (#[trigger] digit_value(s[i], radix)) is None) ==> parsed_nat(
            s,
            radix,
            max,
        ) is None,
        s.len() > 0 && s[0] != '+' && (forall|i: int|
            0 <= i < s.len() ==> (#[trigger] digit_value(s[i], radix)) is Some) && value_of(s, radix)
            <= max ==> parsed_nat(s, radix, max) == Some(value_of(s, radix)),
{
    assert((seq!['+'] + s).drop_first() =~= s);
}

// ───────────────────────── bytes ─────────────────────────

/// Numbers are laid out byte by byte, the lowest first, and read back.
pub proof fn law_numbers_are_laid_out_lowest_first(x: u16, y: u32, z: u64)
    ensures
        put16(x).len() == 2 && put16(x)[0] + 0x100 * put16(x)[1] == x,
        put32(y).len() == 4 && put32(y)[0] + 0x100 * put32(y)[1] + 0x1_0000 * put32(y)[2]
            + 0x100_0000 * put32(y)[3] == y,
        le32(put32(y), 0) == y,
        put64(z).len() == 8 && le64(put64(z), 0) == z,
        le32(put64(z), 0) + 0x1_0000_0000 * le32(put64(z), 4) == z,
{
    lemma_put32(y);
    lemma_put64(z);
    lemma_le32_at(put32(y), 0);
    lemma_le64_at(put64(z), 0);
}

/// Both agree up to place `k`, where the first has the smaller byte or has come to its end.
pub open spec fn parts_at(a: Seq<u8>, b: Seq<u8>, k: int) -> bool {
    &&& 0 <= k < b.len()
    &&& k <= a.len()
    &&& forall|i: int| 0 <= i < k ==> #[trigger] a[i] == b[i]
    &&& k < a.len() ==> a[k] < b[k]
}

/// Bytes come in the order of the first that differs, a beginning before what goes on.
pub proof fn law_the_first_difference_decides(a: Seq<u8>, b: Seq<u8>)
    ensures
        bytes_less(a, b) <==> exists|k: int| #[trigger] parts_at(a, b, k),
    decreases a.len(),
{
    if b.len() > 0 && a.len() > 0 {
        let c = a.drop_first();
        let d = b.drop_first();
        law_the_first_difference_decides(c, d);
        if a[0] == b[0] {
            if bytes_less(c, d) {
                let k = choose|k: int| #[trigger] parts_at(c, d, k);
                assert forall|i: int| 0 <= i < k + 1 implies #[trigger] a[i] == b[i] by {
                    if i > 0 {
                        assert(c[i - 1] == d[i - 1]);
                    }
                }
                assert(parts_at(a, b, k + 1));
            }
            if exists|k: int| #[trigger] parts_at(a, b, k) {
                let k = choose|k: int| #[trigger] parts_at(a, b, k);
                assert forall|i: int| 0 <= i < k - 1 implies #[trigger] c[i] == d[i] by {
                    assert(a[i + 1] == b[i + 1]);
                }
                assert(parts_at(c, d, k - 1));
            }
        } else {
            if a[0] < b[0] {
                assert(parts_at(a, b, 0));
            }
            if exists|k: int| #[trigger] parts_at(a, b, k) {
                let k = choose|k: int| #[trigger] parts_at(a, b, k);
                if k > 0 {
                    assert(a[0] == b[0]);
                }
            }
        }
    } else if b.len() > 0 {
        assert(parts_at(a, b, 0));
    }
}

/// What stands under a key is the value of its first entry, and the entries with a prefix are
/// those whose keys begin with it, in order.
pub proof fn law_entries_of_an_index(e: FstEntries, key: Seq<u8>, k: int, x: (Seq<u8>, u64))
    ensures
        0 <= k < e.len() && e[k].0 == key && (forall|j: int| 0 <= j < k ==> (#[trigger] e[j]).0 != key)
            ==> value_at(e, key) == Some(e[k].1),
        (forall|j: int| 0 <= j < e.len() ==> (#[trigger] e[j]).0 != key) ==> value_at(e, key) is None,
        with_prefix(e.push(x), key) == if key.is_prefix_of(x.0) {
            with_prefix(e, key).push(x)
        } else {
            with_prefix(e, key)
        },
        with_prefix(Seq::empty(), key).len() == 0,
    decreases e.len(),
{
    reveal(Seq::filter);
    assert(e.push(x).drop_last() =~= e);
    if e.len() > 0 {
        let t = e.drop_first();
        law_entries_of_an_index(t, key, k - 1, x);
        assert(forall|j: int| 0 <= j < t.len() ==> t[j] == e[j + 1]);
        if e[0].0 != key {
            if 0 < k < e.len() && e[k].0 == key && (forall|j: int|
                0 <= j < k ==> (#[trigger] e[j]).0 != key) {
                assert forall|j: int| 0 <= j < k - 1 implies (#[trigger] t[j]).0 != key by {
                    assert(e[j + 1].0 != key);
                }
                assert(t[k - 1] == e[k]);
            }
            if forall|j: int| 0 <= j < e.len() ==> (#[trigger] e[j]).0 != key {
                assert forall|j: int| 0 <= j < t.len() implies (#[trigger] t[j]).0 != key by {
                    assert(e[j + 1].0 != key);
                }
            }
        }
    }
}

} // verus!
