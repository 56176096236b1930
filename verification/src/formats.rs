//! What is written and read byte by byte and character by character: JSON, numbers, pictures,
//! colours; and what the values of the library stand for.
use crate::assemble::{all_entries, en_views, zh_views, IndexKeys};
use crate::bytes::{bytes_less, le32, lemma_le32_at, lemma_put32, lemma_put64, put32, put64};
use crate::cedict::{RawZh, RawZhView};
use crate::codec::text_bytes;
use crate::corpus::{pair_views, text_values};
use crate::english::{RawEn, RawEnView};
use crate::fasthash::{mixed, wrap_product, K};
use crate::icon::{dib_byte, dib_header, ico_entries, ico_entry, image_bytes, mask_stride};
use crate::json::{
    escaped, fence_stripped, key_pattern, number_field, numbers_field, numbers_in, objects_in,
    objects_upto, scan_step, scan_upto, string_field, strings_under, unquoted,
};
use crate::lane::Lane;
use crate::llm::{
    batch_counts, item_views, out_sense_views, out_views, report_view, task_views, ImportReport,
    Out, OutSense,
};
use crate::model::{sense_views, Entry, Example, Sense};
use crate::number::{digit_value, parsed_i32, parsed_nat, value_of};
use crate::page::{
    candidate_views, line_views, piece_views, sense_row_views, CandidateRow, ExampleLine, Piece,
    SenseRow,
};
use crate::panel::{same_number, Panel};
use crate::pinyin::{Reading, Syllable};
use crate::settings::Theme;
use crate::shot::{
    advanced, bgra_of, bmp_header, press_of, script, sent_at, typing_of, Move, Plan, Press, Sent,
    StepView,
};
use crate::single::{Double, Single};
use crate::sorted::{is_sorted_set, number_order};
use crate::store::Store;
use crate::text::{
    ends_bare, ends_with, find, is_space_spec, lacks, lemma_trimmed_keeps, lemma_until_is, rows,
    starts_with, texts, trim_end_by, trim_start_by, trimmed, until, CharClass, NotDigit, Space,
};
use crate::theme::{dark_colours, light_colours, palette_is, rgb_spec, Palette, Rgb};
use crate::tray::hex;
use crate::whole::{lists_lane, lists_of, order_fault, write_fault};
use crate::wide::{utf16, utf16_char};
use crate::writer::{key_follows, keyed};
use vstd::prelude::*;
use vstd::string::*;

verus! {

// ───────────────────────── JSON ─────────────────────────

/// The state after a text that is closed: outside every object and every string.
pub open spec fn closed(s: Seq<char>) -> bool {
    let st = scan_upto(s, s.len());
    st.depth == 0 && !st.in_str && !st.escape
}

proof fn lemma_scan_shifts(x: Seq<char>, y: Seq<char>, k: nat)
    requires
        closed(x),
        k <= y.len(),
    ensures
        ({
            let a = scan_upto(x + y, (x.len() + k) as nat);
            let b = scan_upto(y, k);
            &&& a.depth == b.depth
            &&& a.in_str == b.in_str
            &&& a.escape == b.escape
            &&& b.depth > 0 ==> a.start == b.start + x.len()
        }),
        objects_upto(x + y, (x.len() + k) as nat) == objects_in(x) + objects_upto(y, k),
    decreases k,
{
    let n = x.len();
    if k == 0 {
        lemma_scan_prefix(x, y, n);
        assert(objects_in(x) + objects_upto(y, 0) =~= objects_in(x));
    } else {
        lemma_scan_shifts(x, y, (k - 1) as nat);
        let s = x + y;
        assert(s[n + k - 1] == y[k - 1]);
        let a = scan_upto(s, (n + k - 1) as nat);
        let b = scan_upto(y, (k - 1) as nat);
        assert(scan_upto(s, (n + k) as nat) == scan_step(a, y[k - 1], n + k - 1));
        assert(scan_upto(y, k) == scan_step(b, y[k - 1], k - 1));
        if !b.in_str && y[k - 1] == '}' && b.depth == 1 {
            lemma_start_bound(y, (k - 1) as nat);
            assert(s.subrange(a.start, (n + k) as int) =~= y.subrange(b.start, k as int));
        }
        assert(objects_upto(s, (n + k) as nat) =~= objects_in(x) + objects_upto(y, k));
    }
}

proof fn lemma_start_bound(s: Seq<char>, n: nat)
    ensures
        0 <= scan_upto(s, n).start <= n,
    decreases n,
{
    if n > 0 {
        lemma_start_bound(s, (n - 1) as nat);
    }
}

proof fn lemma_scan_prefix(x: Seq<char>, y: Seq<char>, k: nat)
    requires
        k <= x.len(),
    ensures
        scan_upto(x + y, k) == scan_upto(x, k),
        objects_upto(x + y, k) == objects_upto(x, k),
    decreases k,
{
    if k > 0 {
        lemma_scan_prefix(x, y, (k - 1) as nat);
        assert((x + y)[k - 1] == x[k - 1]);
        lemma_start_bound(x, (k - 1) as nat);
        let st = scan_upto(x, (k - 1) as nat);
        assert((x + y).subrange(st.start, k as int) =~= x.subrange(st.start, k as int));
    }
}

/// The objects of two texts one behind the other, of which the first is closed, are those of
/// the first and then those of the second, however many there are.
pub proof fn law_objects_add_up(x: Seq<char>, y: Seq<char>)
    requires
        closed(x),
    ensures
        objects_in(x + y) == objects_in(x) + objects_in(y),
        closed(y) ==> closed(x + y),
{
    lemma_scan_shifts(x, y, y.len());
}

/// Braces round a text without quotes and braces are one object, and what has neither quotes nor
/// braces is none.
pub proof fn law_one_object(body: Seq<char>)
    requires
        lacks(body, '"') && lacks(body, '{') && lacks(body, '}'),
    ensures
        objects_in(seq!['{'] + body + seq!['}']) == seq![seq!['{'] + body + seq!['}']],
        closed(seq!['{'] + body + seq!['}']),
        objects_in(body).len() == 0,
        closed(body),
{
    let s = seq!['{'] + body + seq!['}'];
    let n = body.len() as int;
    assert(s[0] == '{' && s[n + 1] == '}');
    let st = scan_upto(s, 0);
    assert(st.depth == 0 && st.start == 0 && !st.in_str && !st.escape);
    assert(scan_upto(s, 1) == scan_step(st, s[0], 0));
    assert forall|i: int| 0 <= i < body.len() implies #[trigger] s[1 + i] == body[i] by {}
    lemma_idle(s, body, 1, body.len());
    assert(scan_upto(s, (n + 2) as nat) == scan_step(scan_upto(s, (n + 1) as nat), '}', n + 1));
    assert(objects_upto(s, 0) =~= Seq::<Seq<char>>::empty());
    assert(objects_upto(s, 1) == objects_upto(s, 0));
    assert(s.subrange(0, n + 2) =~= s);
    assert(objects_in(s) =~= seq![s]);
    assert(Seq::<char>::empty() + body =~= body);
    lemma_idle(body, body, 0, body.len());
    assert(objects_upto(body, 0) =~= Seq::<Seq<char>>::empty());
}

proof fn lemma_idle(s: Seq<char>, body: Seq<char>, at: nat, k: nat)
    requires
        k <= body.len(),
        at + body.len() <= s.len(),
        forall|i: int| 0 <= i < body.len() ==> #[trigger] s[at + i] == body[i],
        lacks(body, '"') && lacks(body, '{') && lacks(body, '}'),
        !scan_upto(s, at).in_str,
    ensures
        scan_upto(s, (at + k) as nat) == scan_upto(s, at),
        objects_upto(s, (at + k) as nat) == objects_upto(s, at),
    decreases k,
{
    if k > 0 {
        lemma_idle(s, body, at, (k - 1) as nat);
        assert(s[at + (k - 1)] == body[k - 1]);
        assert(body[k - 1] != '"' && body[k - 1] != '{' && body[k - 1] != '}');
    }
}

/// A number under a key is read with or without blanks before it.
pub proof fn law_numbers_under_a_key(
    key: Seq<char>,
    blanks: Seq<char>,
    digits: Seq<char>,
    c: char,
    rest: Seq<char>,
)
    requires
        forall|i: int| 0 <= i < blanks.len() ==> is_space_spec(#[trigger] blanks[i]),
        digits.len() > 0,
        forall|i: int| 0 <= i < digits.len() ==> '0' <= #[trigger] digits[i] <= '9',
        !('0' <= c <= '9'),
    ensures
        number_field(
            seq!['"'] + key + seq!['"', ':'] + blanks + digits + seq![c] + rest,
            key,
        ) == match parsed_nat(digits, 10, u32::MAX as nat) {
            Some(n) => Some(n as u32),
            None => None,
        },
{
    let p = seq!['"'] + key + seq!['"', ':'];
    let tail = digits + seq![c] + rest;
    let s = seq!['"'] + key + seq!['"', ':'] + blanks + digits + seq![c] + rest;
    assert(s =~= p + (blanks + tail));
    assert(s.take(p.len() as int) =~= p);
    assert(key_pattern(key) =~= p);
    assert(find(s, key_pattern(key)) == Some(0int));
    assert(s.skip(p.len() as int) =~= blanks + tail);
    assert('0' <= digits[0] <= '9');
    assert(tail[0] == digits[0]);
    lemma_blanks_off(blanks, tail);
    let n = digits.len() as int;
    assert forall|i: int| 0 <= i < n implies !NotDigit.holds(#[trigger] tail[i]) by {
        assert(tail[i] == digits[i]);
    }
    assert(tail[n] == c);
    lemma_until_is(tail, NotDigit, n);
    assert(tail.take(n) =~= digits);
}

proof fn lemma_blanks_off(blanks: Seq<char>, tail: Seq<char>)
    requires
        forall|i: int| 0 <= i < blanks.len() ==> is_space_spec(#[trigger] blanks[i]),
        tail.len() > 0,
        !is_space_spec(tail[0]),
    ensures
        trim_start_by(blanks + tail, Space) == tail,
    decreases blanks.len(),
{
    if blanks.len() == 0 {
        assert(blanks + tail =~= tail);
    } else {
        let b = blanks.drop_first();
        assert(is_space_spec(blanks[0]));
        assert((blanks + tail)[0] == blanks[0]);
        assert((blanks + tail).drop_first() =~= b + tail);
        assert forall|i: int| 0 <= i < b.len() implies is_space_spec(#[trigger] b[i]) by {
            assert(b[i] == blanks[i + 1]);
        }
        lemma_blanks_off(b, tail);
    }
}

/// The numbers of a list are read one by one, and what is no number is passed over.
pub proof fn law_numbers_of_a_list(parts: Seq<Seq<char>>, x: Seq<char>)
    ensures
        numbers_in(parts.push(x)) == match parsed_nat(trimmed(x), 10, usize::MAX as nat) {
            Some(n) => numbers_in(parts).push(n as usize),
            None => numbers_in(parts),
        },
{
    assert(parts.push(x).drop_last() =~= parts);
}

/// A text under a key is read with or without blanks before it, up to its closing quote.
pub proof fn law_texts_under_a_key(key: Seq<char>, blanks: Seq<char>, text: Seq<char>, rest: Seq<char>)
    requires
        forall|i: int| 0 <= i < blanks.len() ==> is_space_spec(#[trigger] blanks[i]),
        lacks(text, '"') && lacks(text, '\\'),
    ensures
        string_field(
            seq!['"'] + key + seq!['"', ':'] + blanks + seq!['"'] + text + seq!['"'] + rest,
            key,
        ) == Some(text),
{
    let p = seq!['"'] + key + seq!['"', ':'];
    let tail = seq!['"'] + text + seq!['"'] + rest;
    let s = seq!['"'] + key + seq!['"', ':'] + blanks + seq!['"'] + text + seq!['"'] + rest;
    assert(s =~= p + (blanks + tail));
    assert(s.take(p.len() as int) =~= p);
    assert(key_pattern(key) =~= p);
    assert(find(s, key_pattern(key)) == Some(0int));
    assert(s.skip(p.len() as int) =~= blanks + tail);
    assert(tail[0] == '"');
    lemma_blanks_off(blanks, tail);
    assert(tail.drop_first() =~= text + (seq!['"'] + rest));
    lemma_unquoted_plain(text, seq!['"'] + rest);
}

proof fn lemma_unquoted_plain(text: Seq<char>, b: Seq<char>)
    requires
        lacks(text, '"') && lacks(text, '\\'),
        b.len() > 0,
        b[0] == '"',
    ensures
        unquoted(text + b) == text,
    decreases text.len(),
{
    let s = text + b;
    if text.len() == 0 {
        assert(s =~= b);
        assert(unquoted(s) =~= text);
    } else {
        let t = text.drop_first();
        assert(text[0] != '"' && text[0] != '\\');
        assert(s[0] == text[0]);
        assert forall|i: int| 0 <= i < t.len() implies #[trigger] t[i] != '"' && t[i] != '\\' by {
            assert(t[i] == text[i + 1]);
            assert(text[i + 1] != '"' && text[i + 1] != '\\');
        }
        lemma_unquoted_plain(t, b);
        assert(s.drop_first() =~= t + b);
        assert(seq![text[0]] + t =~= text);
    }
}

/// Inside a text a backslash stands for what follows it: `n` is a line break, `t` a blank, and
/// anything else itself.
pub proof fn law_backslashes_inside_a_text(c: char, rest: Seq<char>)
    ensures
        unquoted(seq!['\\', 'n'] + rest) == seq!['\n'] + unquoted(rest),
        unquoted(seq!['\\', 't'] + rest) == seq![' '] + unquoted(rest),
        c != 'n' && c != 't' ==> unquoted(seq!['\\', c] + rest) == seq![c] + unquoted(rest),
        unquoted(seq!['"'] + rest).len() == 0,
{
    assert((seq!['\\', 'n'] + rest).skip(2) =~= rest);
    assert((seq!['\\', 't'] + rest).skip(2) =~= rest);
    assert((seq!['\\', c] + rest).skip(2) =~= rest);
}

/// A fence round a reply is taken off, with or without the name of the language, and a reply
/// without one is left as it is.
pub proof fn law_fences_are_taken_off(x: Seq<char>)
    requires
        x.len() > 0,
        ends_bare(x),
        x[0] != '`',
        x.last() != '`',
    ensures
        fence_stripped(seq!['`', '`', '`', 'j', 's', 'o', 'n', '\n'] + x + seq!['\n', '`', '`', '`'])
            == x,
        fence_stripped(seq!['`', '`', '`', '\n'] + x + seq!['\n', '`', '`', '`']) == x,
        fence_stripped(x) == x,
{
    reveal_strlit("```json");
    reveal_strlit("```");
    assert("```json"@ =~= seq!['`', '`', '`', 'j', 's', 'o', 'n']);
    assert("```"@ =~= seq!['`', '`', '`']);
    let end = seq!['\n', '`', '`', '`'];
    lemma_fence_rest(x);
    let a = seq!['`', '`', '`', 'j', 's', 'o', 'n', '\n'] + x + end;
    assert(a[0] == '`' && a.last() == '`');
    lemma_trimmed_keeps(a);
    assert(a.take(7) =~= "```json"@);
    assert(a.skip(7) =~= seq!['\n'] + x + end);
    let b = seq!['`', '`', '`', '\n'] + x + end;
    assert(b[0] == '`' && b.last() == '`');
    lemma_trimmed_keeps(b);
    if starts_with(b, "```json"@) {
        assert(b.take(7)[3] == b[3]);
        assert("```json"@[3] == 'j');
    }
    assert(b.take(3) =~= "```"@);
    assert(b.skip(3) =~= seq!['\n'] + x + end);
    lemma_trimmed_keeps(x);
    if starts_with(x, "```json"@) {
        assert(x.take(7)[0] == x[0]);
    }
    if starts_with(x, "```"@) {
        assert(x.take(3)[0] == x[0]);
    }
    assert(trim_start_by(x, Space) == x);
    if ends_with(x, "```"@) {
        assert(x.skip(x.len() - 3)[2] == x.last());
    }
}

proof fn lemma_fence_rest(x: Seq<char>)
    requires
        x.len() > 0,
        ends_bare(x),
    ensures
        ({
            let u = seq!['\n'] + x + seq!['\n', '`', '`', '`'];
            let v = trim_start_by(u, Space);
            &&& v == x + seq!['\n', '`', '`', '`']
            &&& ends_with(v, seq!['`', '`', '`'])
            &&& trimmed(v.take(v.len() - 3)) == x
        }),
{
    let end = seq!['\n', '`', '`', '`'];
    let u = seq!['\n'] + x + end;
    let w = x + end;
    assert(u[0] == '\n');
    assert(u.drop_first() =~= w);
    assert(w[0] == x[0]);
    assert(trim_start_by(w, Space) == w);
    assert(trim_start_by(u, Space) == w);
    assert(w.skip(w.len() - 3) =~= seq!['`', '`', '`']);
    let y = w.take(w.len() - 3);
    assert(y =~= x + seq!['\n']);
    assert(y[0] == x[0]);
    assert(trim_start_by(y, Space) == y);
    assert(y.last() == '\n' && y.drop_last() =~= x);
    assert(trim_end_by(x, Space) == x);
    assert(trim_end_by(y, Space) == x);
}

// ───────────────────────── numbers ─────────────────────────

/// A number is read digit by digit, and a text with anything else in it is no number.
pub proof fn law_digits_of_a_number(s: Seq<char>, c: char, i: int)
    ensures
        '0' <= c <= '9' ==> value_of(s.push(c), 10) == value_of(s, 10) * 10 + (c as int
            - '0' as int),
        value_of(Seq::empty(), 10) == 0,
        0 <= i < s.len() && s[0] != '+' && !('0' <= s[i] <= '9') ==> parsed_nat(
            s,
            10,
            u32::MAX as nat,
        ) is None,
        parsed_nat(Seq::empty(), 10, u32::MAX as nat) is None,
        s.len() > 0 && (forall|k: int| 0 <= k < s.len() ==> '0' <= #[trigger] s[k] <= '9')
            && value_of(s, 10) <= u32::MAX ==> parsed_nat(s, 10, u32::MAX as nat) == Some(
            value_of(s, 10),
        ),
        s.len() > 0 && (forall|k: int| 0 <= k < s.len() ==> '0' <= #[trigger] s[k] <= '9')
            && value_of(s, 10) <= 0x7fff_ffff ==> parsed_i32(s) == Some(value_of(s, 10) as int)
            && parsed_i32(seq!['-'] + s) == Some(-(value_of(s, 10) as int)),
{
    assert(s.push(c).drop_last() =~= s);
    if 0 <= i < s.len() && s[0] != '+' && !('0' <= s[i] <= '9') {
        assert(digit_value(s[i], 10) is None);
    }
    if s.len() > 0 && (forall|k: int| 0 <= k < s.len() ==> '0' <= #[trigger] s[k] <= '9') {
        assert(s[0] != '+' && s[0] != '-');
        assert forall|k: int| 0 <= k < s.len() implies (#[trigger] digit_value(s[k], 10)) is Some by {
            assert('0' <= s[k] <= '9');
        }
        let m = seq!['-'] + s;
        assert(m[0] == '-');
        assert(m.drop_first() =~= s);
    }
}

/// The order of numbers with a fraction by their bits: those without a sign rise with their
/// bits, those with a sign fall, and stand below.
pub proof fn law_the_order_of_bits(a: Single, b: Single, x: Double, y: Double)
    ensures
        a.bits < 0x8000_0000 && b.bits < 0x8000_0000 ==> (a.order() < b.order() <==> a.bits
            < b.bits),
        a.bits >= 0x8000_0000 && b.bits >= 0x8000_0000 ==> (a.order() < b.order() <==> a.bits
            > b.bits),
        a.bits > 0x8000_0000 && b.bits < 0x8000_0000 ==> a.order() < b.order(),
        a.is_nan_spec() <==> 0x7F80_0000 < a.bits < 0x8000_0000 || a.bits > 0xFF80_0000,
        a.less_spec(b) <==> !a.is_nan_spec() && !b.is_nan_spec() && a.order() < b.order(),
        x.bits < 0x8000_0000_0000_0000 && y.bits < 0x8000_0000_0000_0000 ==> (x.order()
            < y.order() <==> x.bits < y.bits),
        x.bits >= 0x8000_0000_0000_0000 && y.bits >= 0x8000_0000_0000_0000 ==> (x.order()
            < y.order() <==> x.bits > y.bits),
        x.bits > 0x8000_0000_0000_0000 && y.bits < 0x8000_0000_0000_0000 ==> x.order()
            < y.order(),
        x.is_nan_spec() <==> 0x7FF0_0000_0000_0000 < x.bits < 0x8000_0000_0000_0000 || x.bits
            > 0xFFF0_0000_0000_0000,
        x.less_spec(y) <==> !x.is_nan_spec() && !y.is_nan_spec() && x.order() < y.order(),
{
}

// ───────────────────────── characters ─────────────────────────

/// White space is what Unicode calls so: tab to carriage return, the blank, the next line, and
/// the blanks of other scripts.
pub proof fn law_what_white_space_is(c: char)
    ensures
        is_space_spec(c) <==> seq![
            0x9u32,
            0xA,
            0xB,
            0xC,
            0xD,
            0x20,
            0x85,
            0xA0,
            0x1680,
            0x2000,
            0x2001,
            0x2002,
            0x2003,
            0x2004,
            0x2005,
            0x2006,
            0x2007,
            0x2008,
            0x2009,
            0x200A,
            0x2028,
            0x2029,
            0x202F,
            0x205F,
            0x3000,
        ].contains(c as u32),
{
    let l = seq![
        0x9u32,
        0xA,
        0xB,
        0xC,
        0xD,
        0x20,
        0x85,
        0xA0,
        0x1680,
        0x2000,
        0x2001,
        0x2002,
        0x2003,
        0x2004,
        0x2005,
        0x2006,
        0x2007,
        0x2008,
        0x2009,
        0x200A,
        0x2028,
        0x2029,
        0x202F,
        0x205F,
        0x3000,
    ];
    assert(l[0] == 0x9 && l[1] == 0xA && l[2] == 0xB && l[3] == 0xC && l[4] == 0xD && l[5] == 0x20
        && l[6] == 0x85 && l[7] == 0xA0 && l[8] == 0x1680 && l[9] == 0x2000 && l[10] == 0x2001
        && l[11] == 0x2002 && l[12] == 0x2003 && l[13] == 0x2004 && l[14] == 0x2005 && l[15]
        == 0x2006 && l[16] == 0x2007 && l[17] == 0x2008 && l[18] == 0x2009 && l[19] == 0x200A
        && l[20] == 0x2028 && l[21] == 0x2029 && l[22] == 0x202F && l[23] == 0x205F && l[24]
        == 0x3000);
    if l.contains(c as u32) {
        let i = choose|i: int| 0 <= i < l.len() && l[i] == c as u32;
        assert(is_space_spec(c));
    }
}

/// A text in UTF-16 is that of its characters, one behind the other: one unit, or a pair that
/// gives the character back.
pub proof fn law_utf16(s: Seq<char>, c: char)
    ensures
        utf16(s.push(c)) == utf16(s) + utf16_char(c),
        utf16(Seq::empty()).len() == 0,
        (c as u32) < 0x1_0000 ==> utf16_char(c) == seq![c as u32 as u16],
        (c as u32) >= 0x1_0000 && (c as u32) <= 0x10_FFFF ==> utf16_char(c).len() == 2 && 0xD800
            <= utf16_char(c)[0] < 0xDC00 && 0xDC00 <= utf16_char(c)[1] < 0xE000 && 0x1_0000 + (
        utf16_char(c)[0] - 0xD800) * 0x400 + (utf16_char(c)[1] - 0xDC00) == c as u32,
{
    assert(s.push(c).drop_last() =~= s);
}

// ───────────────────────── pictures ─────────────────────────

/// The script of the pictures: what is looked up, opened, typed and pressed in each step.
pub proof fn law_steps_of_the_script()
    ensures
        script().len() == 13,
        script()[0] == (StepView {
            query: None,
            open_entry: false,
            bar: false,
            typed: None,
            keys: None,
            settings: false,
            name: "1-空"@,
        }),
        script()[1] == (StepView {
            query: Some("中国"@),
            open_entry: false,
            bar: false,
            typed: None,
            keys: None,
            settings: false,
            name: "2-中文候选"@,
        }),
        script()[2] == (StepView {
            query: Some("中国"@),
            open_entry: true,
            bar: false,
            typed: None,
            keys: None,
            settings: false,
            name: "3-中文词条"@,
        }),
        script()[3] == (StepView {
            query: Some("zhonggu"@),
            open_entry: false,
            bar: false,
            typed: None,
            keys: None,
            settings: false,
            name: "4-拼音候选"@,
        }),
        script()[4] == (StepView {
            query: Some("compile"@),
            open_entry: false,
            bar: false,
            typed: None,
            keys: None,
            settings: false,
            name: "5-英文候选"@,
        }),
        script()[5] == (StepView {
            query: Some("compile"@),
            open_entry: true,
            bar: false,
            typed: None,
            keys: None,
            settings: false,
            name: "6-英文词条"@,
        }),
        script()[6] == (StepView {
            query: Some("意思"@),
            open_entry: true,
            bar: false,
            typed: None,
            keys: None,
            settings: false,
            name: "7-已重组词条"@,
        }),
        script()[7] == (StepView {
            query: Some("man"@),
            open_entry: false,
            bar: true,
            typed: None,
            keys: None,
            settings: false,
            name: "8-调参条与打分"@,
        }),
        script()[8] == (StepView {
            query: Some(""@),
            open_entry: false,
            bar: false,
            typed: Some("zhongwen"@),
            keys: None,
            settings: false,
            name: "9-逐字符输入"@,
        }),
        script()[9] == (StepView {
            query: Some("中国"@),
            open_entry: false,
            bar: false,
            typed: None,
            keys: Some("dd"@),
            settings: false,
            name: "10-方向键选中第3项"@,
        }),
        script()[10] == (StepView {
            query: None,
            open_entry: false,
            bar: false,
            typed: None,
            keys: Some("e"@),
            settings: false,
            name: "11-回车进词条"@,
        }),
        script()[11] == (StepView {
            query: None,
            open_entry: false,
            bar: false,
            typed: None,
            keys: Some("d"@),
            settings: false,
            name: "12-方向键退回并保留选中"@,
        }),
        script()[12] == (StepView {
            query: Some(""@),
            open_entry: false,
            bar: false,
            typed: None,
            keys: None,
            settings: true,
            name: "13-设置页"@,
        }),
{
}

/// The colours of the light palette: paper, inks and greys, and a colour for each tone.
pub proof fn law_the_light_palette(p: Palette)
    requires
        palette_is(p, light_colours()),
    ensures
        p.ground == (Rgb { r: 0xFB, g: 0xFA, b: 0xF8 }),
        p.ink == (Rgb { r: 0x1A, g: 0x1A, b: 0x19 }),
        p.ink_soft == (Rgb { r: 0x4A, g: 0x48, b: 0x44 }),
        p.muted == (Rgb { r: 0x8A, g: 0x87, b: 0x81 }),
        p.faint == (Rgb { r: 0xB5, g: 0xB2, b: 0xAB }),
        p.hint == (Rgb { r: 0xD6, g: 0xD3, b: 0xCC }),
        p.rule == (Rgb { r: 0xE4, g: 0xE1, b: 0xDB }),
        p.hit == (Rgb { r: 0xEF, g: 0xED, b: 0xE7 }),
        p.tone@[0] == (Rgb { r: 0x9A, g: 0x97, b: 0x93 }),
        p.tone@[1] == (Rgb { r: 0xB0, g: 0x3A, b: 0x48 }),
        p.tone@[2] == (Rgb { r: 0xB4, g: 0x71, b: 0x2A }),
        p.tone@[3] == (Rgb { r: 0x4B, g: 0x7A, b: 0x3F }),
        p.tone@[4] == (Rgb { r: 0x3A, g: 0x5F, b: 0x9E }),
{
    let c = light_colours();
    assert(c[0] == 0xFBFAF8u32);
    assert(c[1] == 0x1A1A19u32);
    assert(c[2] == 0x4A4844u32);
    assert(c[3] == 0x8A8781u32);
    assert(c[4] == 0xB5B2ABu32);
    assert(c[5] == 0xD6D3CCu32);
    assert(c[6] == 0xE4E1DBu32);
    assert(c[7] == 0xEFEDE7u32);
    assert(c[8] == 0x9A9793u32);
    assert(c[9] == 0xB03A48u32);
    assert(c[10] == 0xB4712Au32);
    assert(c[11] == 0x4B7A3Fu32);
    assert(c[12] == 0x3A5F9Eu32);
    assert(p.tone@[0] == rgb_spec(c[8]));
    assert(p.tone@[1] == rgb_spec(c[9]));
    assert(p.tone@[2] == rgb_spec(c[10]));
    assert(p.tone@[3] == rgb_spec(c[11]));
    assert(p.tone@[4] == rgb_spec(c[12]));
}

/// The colours of the dark palette: paper, inks and greys, and a colour for each tone.
pub proof fn law_the_dark_palette(p: Palette)
    requires
        palette_is(p, dark_colours()),
    ensures
        p.ground == (Rgb { r: 0x16, g: 0x16, b: 0x1A }),
        p.ink == (Rgb { r: 0xED, g: 0xEB, b: 0xE7 }),
        p.ink_soft == (Rgb { r: 0xC4, g: 0xC1, b: 0xBA }),
        p.muted == (Rgb { r: 0x87, g: 0x84, b: 0x7E }),
        p.faint == (Rgb { r: 0x5C, g: 0x5A, b: 0x56 }),
        p.hint == (Rgb { r: 0x3D, g: 0x3B, b: 0x38 }),
        p.rule == (Rgb { r: 0x2B, g: 0x2B, b: 0x31 }),
        p.hit == (Rgb { r: 0x23, g: 0x23, b: 0x29 }),
        p.tone@[0] == (Rgb { r: 0x8A, g: 0x87, b: 0x82 }),
        p.tone@[1] == (Rgb { r: 0xE0, g: 0x75, b: 0x7F }),
        p.tone@[2] == (Rgb { r: 0xDC, g: 0xA3, b: 0x5B }),
        p.tone@[3] == (Rgb { r: 0x84, g: 0xB6, b: 0x73 }),
        p.tone@[4] == (Rgb { r: 0x7C, g: 0xA0, b: 0xDC }),
{
    let c = dark_colours();
    assert(c[0] == 0x16161Au32);
    assert(c[1] == 0xEDEBE7u32);
    assert(c[2] == 0xC4C1BAu32);
    assert(c[3] == 0x87847Eu32);
    assert(c[4] == 0x5C5A56u32);
    assert(c[5] == 0x3D3B38u32);
    assert(c[6] == 0x2B2B31u32);
    assert(c[7] == 0x232329u32);
    assert(c[8] == 0x8A8782u32);
    assert(c[9] == 0xE0757Fu32);
    assert(c[10] == 0xDCA35Bu32);
    assert(c[11] == 0x84B673u32);
    assert(c[12] == 0x7CA0DCu32);
    assert(p.tone@[0] == rgb_spec(c[8]));
    assert(p.tone@[1] == rgb_spec(c[9]));
    assert(p.tone@[2] == rgb_spec(c[10]));
    assert(p.tone@[3] == rgb_spec(c[11]));
    assert(p.tone@[4] == rgb_spec(c[12]));
}


/// What is sent in a step of the script: each character of what is typed, or each key that is
/// named by its letter.
pub proof fn law_what_a_step_sends(s: StepView, i: int)
    ensures
        s.typed matches Some(t) ==> (0 <= i < t.len() ==> sent_at(s, i) == Sent::Text(t[i])) && (
        i >= t.len() ==> sent_at(s, i) == Sent::Nothing),
        s.typed is None && s.keys is Some && 0 <= i < s.keys->0.len() ==> sent_at(s, i) == press_of(
            s.keys->0[i],
        ),
        press_of('d') == Sent::Key(Press::Down),
        press_of('u') == Sent::Key(Press::Up),
        press_of('e') == Sent::Key(Press::Enter),
        press_of('x') == Sent::Key(Press::Escape),
        typing_of(s) == (if s.typed is Some {
            s.typed->0.len()
        } else {
            0
        }) + (if s.keys is Some {
            s.keys->0.len()
        } else {
            0
        }),
{
}

/// One frame of the script: on the second the step is set up, then every other frame sends one
/// thing until all is sent, and the picture is asked for once, after 30 frames in the first step
/// and after 14 and two for each thing sent in any other.
pub proof fn law_a_frame_of_the_script(p: Plan, typing: usize, held: bool)
    requires
        p.waited < u32::MAX,
    ensures
        advanced(p, typing, held).0.waited == p.waited + 1,
        advanced(p, typing, held).0.step == p.step,
        p.waited == 1 ==> advanced(p, typing, held).1 == Move::SetUp,
        p.waited >= 2 && p.typed_at < typing && p.waited % 2 == 1 ==> advanced(
            p,
            typing,
            held,
        ).1 == Move::Send(p.typed_at) && advanced(p, typing, held).0.typed_at == p.typed_at + 1,
        p.waited >= 2 && p.typed_at < typing && p.waited % 2 == 0 ==> advanced(
            p,
            typing,
            held,
        ).1 == Move::Wait,
        advanced(p, typing, held).1 == Move::Request <==> p.waited != 1 && !(p.waited >= 2
            && p.typed_at < typing) && !p.requested && !held && p.waited + 1 >= (if p.step == 0 {
            30
        } else {
            14 + 2 * typing
        }),
{
}

/// A bitmap has a header of 54 bytes, with its size, its width and its height from the top down,
/// and then its pixels with red and blue exchanged.
#[verifier::rlimit(40)]
pub proof fn law_a_bitmap(w: usize, h: usize)
    requires
        w <= i32::MAX,
        0 < h <= i32::MAX,
        54 + w * 4 * h <= u32::MAX,
    ensures
        bmp_header(w, h).len() == 54,
        bmp_header(w, h)[0] == 0x42 && bmp_header(w, h)[1] == 0x4D,
        le32(bmp_header(w, h), 2) == 54 + w * 4 * h,
        le32(bmp_header(w, h), 10) == 54,
        le32(bmp_header(w, h), 14) == 40,
        le32(bmp_header(w, h), 18) == w,
        le32(bmp_header(w, h), 22) + h == 0x1_0000_0000,
        bmp_header(w, h)[28] == 32,
{
    let b = bmp_header(w, h);
    let px = w * 4 * h;
    assert(px >= 0) by (nonlinear_arith)
        requires
            px == w * 4 * h,
            w >= 0,
            h >= 0,
    ;
    let n = (0x1_0000_0000 - h) as u32;
    lemma_put32((54 + px) as u32);
    lemma_put32(54);
    lemma_put32(40);
    lemma_put32(w as u32);
    lemma_put32(n);
    assert(b.len() == 54);
    lemma_le32_at(b, 2);
    lemma_le32_at(b, 10);
    lemma_le32_at(b, 14);
    lemma_le32_at(b, 18);
    lemma_le32_at(b, 22);
    assert(b.subrange(2, 6) =~= put32((54 + px) as u32));
    assert(b.subrange(10, 14) =~= put32(54));
    assert(b.subrange(14, 18) =~= put32(40));
    assert(b.subrange(18, 22) =~= put32(w as u32));
    assert(b.subrange(22, 26) =~= put32(n));
}

/// The bytes of a pixel stand in the order blue, green, red, opacity.
pub proof fn law_pixels_of_a_bitmap(rgba: Seq<u8>, p: int)
    requires
        0 <= p,
        4 * p + 3 < rgba.len(),
    ensures
        bgra_of(rgba, 4 * p) == rgba[4 * p + 2],
        bgra_of(rgba, 4 * p + 1) == rgba[4 * p + 1],
        bgra_of(rgba, 4 * p + 2) == rgba[4 * p],
        bgra_of(rgba, 4 * p + 3) == rgba[4 * p + 3],
{
}

/// An image of an icon has its rows from the bottom up, each pixel with red and blue exchanged,
/// and a mask that lets everything through.
pub proof fn law_an_image_of_an_icon(px: Seq<u8>, size: u32, row: int, col: int, k: int)
    requires
        0 < size <= 0x7FFF,
        px.len() == 4 * size * size,
        0 <= row < size,
        0 <= col < size,
        0 <= k < 4,
    ensures
        dib_byte(px, size, 4 * (row * size + col) + k) == px[4 * ((size - 1 - row) * size + col) + (
        if k == 0 {
            2
        } else if k == 2 {
            0
        } else {
            k
        })],
        dib_header(size).len() == 40,
        le32(dib_header(size), 4) == size,
        le32(dib_header(size), 8) == 2 * size,
        mask_stride(size) == (size + 31) / 32 * 4,
{
    let s = size as int;
    let w = 4 * s;
    let at = 4 * (row * s + col) + k;
    assert(at == w * row + (4 * col + k)) by (nonlinear_arith)
        requires
            at == 4 * (row * s + col) + k,
            w == 4 * s,
    ;
    assert(0 <= 4 * col + k < w);
    vstd::arithmetic::div_mod::lemma_fundamental_div_mod_converse(at, w, row, 4 * col + k);
    assert(at / (4 * size as int) == row && at % (4 * size as int) == 4 * col + k);
    assert((s - 1 - row) * w + (4 * col + k) == 4 * ((s - 1 - row) * s + col) + k) by (nonlinear_arith)
        requires
            w == 4 * s,
    ;
    assert(at % 4 == k) by {
        assert(at == 4 * (row * s + col) + k);
    }
    let h = dib_header(size);
    lemma_put32(size);
    lemma_put32((size * 2) as u32);
    lemma_le32_at(h, 4);
    lemma_le32_at(h, 8);
    assert(h.subrange(4, 8) =~= put32(size));
    assert(h.subrange(8, 12) =~= put32((size * 2) as u32));
}

/// The directory of an icon has 16 bytes to an image: its side, which is 0 for 256, its length,
/// and where it stands, behind the directory and the images before it.
pub proof fn law_the_directory_of_an_icon(images: Seq<(u32, Seq<u8>)>, n: nat)
    requires
        n < images.len(),
        6 + 16 * images.len() + image_bytes(images, images.len()) <= u32::MAX,
        image_bytes(images, n) + images[n as int].1.len() <= image_bytes(images, images.len()),
    ensures
        ico_entries(images, (n + 1) as nat).len() == ico_entries(images, n).len() + 16,
        ({
            let e = ico_entries(images, (n + 1) as nat).skip(ico_entries(images, n).len() as int);
            &&& images[n as int].0 < 256 ==> e[0] == images[n as int].0 && e[1]
                == images[n as int].0
            &&& images[n as int].0 >= 256 ==> e[0] == 0 && e[1] == 0
            &&& le32(e, 8) == images[n as int].1.len()
            &&& le32(e, 12) == 6 + 16 * images.len() + image_bytes(images, n)
        }),
{
    let a = ico_entries(images, n);
    let len = images[n as int].1.len() as int;
    let off = (6 + 16 * images.len() + image_bytes(images, n)) as int;
    let x = ico_entry(images[n as int].0, len, off);
    lemma_put32(len as u32);
    lemma_put32(off as u32);
    assert(x.len() == 16);
    let e = ico_entries(images, (n + 1) as nat).skip(a.len() as int);
    assert(e =~= x);
    lemma_le32_at(x, 8);
    lemma_le32_at(x, 12);
    assert(x.subrange(8, 12) =~= put32(len as u32));
    assert(x.subrange(12, 16) =~= put32(off as u32));
}

// ───────────────────────── what values stand for ─────────────────────────

/// What is said of a sense, an example or an entry is said of its own fields.
pub proof fn law_what_an_entry_stands_for(e: Entry, s: Sense, x: Example, i: int)
    ensures
        s@.pos == s.pos@ && s@.text == s.text@ && s@.note == s.note@ && s@.reg == s.reg@,
        x@.a == x.a@ && x@.b == x.b@,
        e@.kind == e.kind && e@.word == e.word@ && e@.trad == e.trad@,
        e@.reading == e.reading@ && e@.tones == e.tones@ && e@.freq == e.freq && e@.pct == e.pct,
        e@.pos == e.pos@ && e@.forms == e.forms@ && e@.tags == e.tags@ && e@.raw == e.raw@,
        e@.senses.len() == e.senses@.len() && e@.examples.len() == e.examples@.len(),
        e@.xrefs.len() == e.xrefs@.len(),
        0 <= i < e.senses@.len() ==> e@.senses[i] == e.senses@[i]@,
        0 <= i < e.examples@.len() ==> e@.examples[i] == e.examples@[i]@,
        0 <= i < e.xrefs@.len() ==> e@.xrefs[i] == e.xrefs@[i]@,
{
}

/// So of what a headword brings to the indexes, of a reading, and of a reply.
pub proof fn law_what_a_headword_stands_for(
    z: RawZh,
    n: RawEn,
    y: Syllable,
    r: Reading,
    o: Out,
    s: OutSense,
    i: int,
)
    ensures
        z@.entry == z.entry@ && z@.initials == z.initials@,
        z@.pinyin_keys.len() == z.pinyin_keys@.len() && z@.gloss_tokens.len()
            == z.gloss_tokens@.len(),
        0 <= i < z.pinyin_keys@.len() ==> z@.pinyin_keys[i] == z.pinyin_keys@[i]@,
        0 <= i < z.gloss_tokens@.len() ==> z@.gloss_tokens[i] == z.gloss_tokens@[i]@,
        n@.entry == n.entry@ && n@.rank == n.rank,
        n@.trans_tokens.len() == n.trans_tokens@.len(),
        0 <= i < n.trans_tokens@.len() ==> n@.trans_tokens[i] == n.trans_tokens@[i]@,
        n.lemma is None ==> n@.lemma is None,
        n.lemma matches Some(l) ==> n@.lemma == Some(l@),
        y@.toned == y.toned@ && y@.plain == y.plain@ && y@.plain_v == y.plain_v@ && y@.tone
            == y.tone,
        r@.len() == r.syllables@.len(),
        0 <= i < r.syllables@.len() ==> r@[i] == r.syllables@[i]@,
        o@.id == o.id && o@.senses.len() == o.senses@.len(),
        0 <= i < o.senses@.len() ==> o@.senses[i] == o.senses@[i]@,
        s@.from == s.from@ && s@.text == s.text@ && s@.reg == s.reg@ && s@.col == s.col@,
{
}

/// And of what the panel holds.
pub proof fn law_what_the_panel_stands_for(p: Panel)
    ensures
        p@.query == p.query@ && p@.last_query == p.last_query@ && p@.cands == p.cands@,
        p@.sel == p.sel && p@.mode == p.mode && p@.entry_id == p.entry_id && p@.show_bar
            == p.show_bar,
        p.entry is None ==> p@.entry is None,
        p.entry matches Some(e) ==> p@.entry == Some(e@),
{
}

/// Lists stand for the lists of what their items stand for: as long, and item by item.
pub proof fn law_what_lists_stand_for(
    s: Seq<String>,
    c: Seq<Vec<char>>,
    k: Seq<(String, Vec<u32>)>,
    l: Seq<Vec<(String, Vec<u32>)>>,
    p: Seq<(String, String)>,
    t: Seq<(u32, String)>,
    m: Seq<(u32, Vec<Sense>)>,
    i: int,
)
    ensures
        texts(s).len() == s.len() && rows(c).len() == c.len() && keyed(k).len() == k.len(),
        lists_of(l).len() == l.len() && pair_views(p).len() == p.len() && task_views(t).len()
            == t.len() && item_views(m).len() == m.len(),
        0 <= i < s.len() ==> texts(s)[i] == s[i]@,
        0 <= i < c.len() ==> rows(c)[i] == c[i]@,
        0 <= i < k.len() ==> keyed(k)[i] == (k[i].0@, k[i].1@),
        0 <= i < l.len() ==> lists_of(l)[i] == keyed(l[i]@),
        0 <= i < p.len() ==> pair_views(p)[i] == (p[i].0@, p[i].1@),
        0 <= i < t.len() ==> task_views(t)[i] == (t[i].0, t[i].1@),
        0 <= i < m.len() ==> item_views(m)[i].0 == m[i].0 && item_views(m)[i].1 == sense_views(
            m[i].1@,
        ),
{
}

/// So do lists of headwords, senses, replies and rows.
pub proof fn law_what_lists_of_records_stand_for(
    z: Seq<RawZh>,
    n: Seq<RawEn>,
    s: Seq<Sense>,
    o: Seq<Out>,
    q: Seq<OutSense>,
    p: Seq<Piece>,
    e: Seq<ExampleLine>,
    r: Seq<SenseRow>,
    c: Seq<CandidateRow>,
    i: int,
)
    ensures
        zh_views(z).len() == z.len() && en_views(n).len() == n.len() && sense_views(s).len()
            == s.len() && out_views(o).len() == o.len() && out_sense_views(q).len() == q.len(),
        piece_views(p).len() == p.len() && line_views(e).len() == e.len() && sense_row_views(
            r,
        ).len() == r.len() && candidate_views(c).len() == c.len(),
        0 <= i < z.len() ==> zh_views(z)[i] == z[i]@,
        0 <= i < n.len() ==> en_views(n)[i] == n[i]@,
        0 <= i < s.len() ==> sense_views(s)[i] == s[i]@,
        0 <= i < o.len() ==> out_views(o)[i] == o[i]@,
        0 <= i < q.len() ==> out_sense_views(q)[i] == q[i]@,
        0 <= i < p.len() ==> piece_views(p)[i] == (p[i].text@, p[i].tone),
        0 <= i < e.len() ==> line_views(e)[i] == (e[i].text@, e[i].chinese),
        0 <= i < r.len() ==> {
            let x = sense_row_views(r)[i];
            x.number == r[i].number && x.pos == r[i].pos@ && x.text == r[i].text@ && x.note
                == r[i].note@ && x.reg == r[i].reg@
        },
        0 <= i < c.len() ==> {
            let x = candidate_views(c)[i];
            x.place == c[i].place && x.entry == c[i].entry@ && x.gloss == c[i].gloss@
        },
{
}

/// So do the report of an import, the table of the parts of speech and the view of a store.
pub proof fn law_what_reports_stand_for(r: ImportReport, m: Map<Seq<char>, String>, w: Seq<char>, st: Store)
    ensures
        report_view(r).kept == item_views(r.kept@),
        report_view(r).total == r.total && report_view(r).missing == r.missing,
        report_view(r).too_many == r.too_many && report_view(r).bad_from == r.bad_from,
        report_view(r).uncovered == r.uncovered,
        text_values(m).contains_key(w) <==> m.contains_key(w),
        m.contains_key(w) ==> text_values(m)[w] == m[w]@,
        st@.n == st.n && st@.pct == st.pct@ && st@.kind == st.kind@ && st@.entries == st.entries@
            && st@.idx == st.idx@,
        st@.lanes.len() == st.lanes@.len() && st@.tops.len() == st.tops@.len(),
        st.overlay is None ==> st@.overlay is None,
        st.overlay matches Some(o) ==> st@.overlay == Some((o.bin@, o.idx@)),
{
}

/// The names of the lanes: what their files are called and what the user is told.
pub proof fn law_lanes_have_their_names()
    ensures
        Lane::Zh.file_stem_spec() == "zh"@ && Lane::Zh.label_spec() == "汉字"@,
        Lane::ZhSub.file_stem_spec() == "zhsub"@ && Lane::ZhSub.label_spec() == "汉字中"@,
        Lane::Enw.file_stem_spec() == "enw"@ && Lane::Enw.label_spec() == "英文"@,
        Lane::Py.file_stem_spec() == "py"@ && Lane::Py.label_spec() == "全拼"@,
        Lane::Ini.file_stem_spec() == "ini"@ && Lane::Ini.label_spec() == "简拼"@,
        Lane::Gloss.file_stem_spec() == "gloss"@ && Lane::Gloss.label_spec() == "释义→中"@,
        Lane::Trans.file_stem_spec() == "trans"@ && Lane::Trans.label_spec() == "释义→英"@,
        Lane::Zh.idx_spec() == 0 && Lane::ZhSub.idx_spec() == 1 && Lane::Enw.idx_spec() == 2,
        Lane::Py.idx_spec() == 3 && Lane::Ini.idx_spec() == 4 && Lane::Gloss.idx_spec() == 5
            && Lane::Trans.idx_spec() == 6,
        Theme::Auto.label_spec() == "跟随系统"@ && Theme::Light.label_spec() == "浅色"@
            && Theme::Dark.label_spec() == "深色"@,
{
}

/// What is written into a JSON text: quotes, backslashes and line breaks behind a backslash, a
/// tab as a blank, other control characters not at all, and anything else as it is.
pub proof fn law_what_is_written_into_a_text(t: Seq<char>, c: char)
    ensures
        escaped(Seq::empty()).len() == 0,
        escaped(t.push('"')) == escaped(t) + seq!['\\', '"'],
        escaped(t.push('\\')) == escaped(t) + seq!['\\', '\\'],
        escaped(t.push('\n')) == escaped(t) + seq!['\\', 'n'],
        escaped(t.push('\t')) == escaped(t) + seq![' '],
        (c as u32) < 0x20 && c != '\n' && c != '\t' ==> escaped(t.push(c)) == escaped(t),
        (c as u32) >= 0x20 && c != '"' && c != '\\' ==> escaped(t.push(c)) == escaped(t).push(c),
{
    assert(t.push('"').drop_last() =~= t);
    assert(t.push('\\').drop_last() =~= t);
    assert(t.push('\n').drop_last() =~= t);
    assert(t.push('\t').drop_last() =~= t);
    assert(t.push(c).drop_last() =~= t);
    if (c as u32) < 0x20 && c != '\n' && c != '\t' {
        assert(escaped(t.push(c)) =~= escaped(t));
    }
    if (c as u32) >= 0x20 && c != '"' && c != '\\' {
        assert(escaped(t.push(c)) =~= escaped(t).push(c));
    }
}

/// What a batch is sent with is told for every task of it.
pub proof fn law_what_a_batch_is_sent_with(b: Seq<(u32, Seq<char>)>, id: u32, line: Seq<char>)
    ensures
        batch_counts(b.push((id, line))) == batch_counts(b).insert(
            id,
            strings_under(line, "src"@) as usize,
        ),
        batch_counts(Seq::empty()) == Map::<u32, usize>::empty(),
{
    assert(b.push((id, line)).drop_last() =~= b);
    assert(b.push((id, line)).last() == (id, line));
}

/// The entries of a store stand in order: the Chinese headwords and then the English ones, each
/// as it was read.
pub proof fn law_entries_stand_in_order(zh: Seq<RawZhView>, en: Seq<RawEnView>, i: int)
    ensures
        all_entries(zh, en).len() == zh.len() + en.len(),
        0 <= i < zh.len() ==> all_entries(zh, en)[i] == zh[i].entry,
        0 <= i < en.len() ==> all_entries(zh, en)[zh.len() + i] == en[i].entry,
{
}

proof fn lemma_no_order_fault(k: Seq<(Seq<char>, Seq<u32>)>, i: int)
    requires
        0 <= i,
        forall|j: int|
            0 < j < k.len() ==> bytes_less(
                vstd::utf8::encode_utf8((#[trigger] k[j - 1]).0),
                vstd::utf8::encode_utf8(k[j].0),
            ),
    ensures
        order_fault(k, i) is None,
    decreases k.len() - i,
{
    if i < k.len() {
        if i > 0 {
            assert(bytes_less(
                vstd::utf8::encode_utf8(k[i - 1].0),
                vstd::utf8::encode_utf8(k[i].0),
            ));
        }
        lemma_no_order_fault(k, i + 1);
    }
}

/// Lists of keys that ascend by their bytes are written, however long they are.
pub proof fn law_ascending_lists_are_written(
    lanes: Seq<Seq<(Seq<char>, Seq<u32>)>>,
    tops: Seq<Seq<(Seq<char>, Seq<u32>)>>,
    i: int,
)
    requires
        0 <= i,
        forall|m: int, j: int|
            0 <= m < 7 && 0 < j < lanes[m].len() ==> bytes_less(
                vstd::utf8::encode_utf8((#[trigger] lanes[m][j - 1]).0),
                vstd::utf8::encode_utf8(lanes[m][j].0),
            ),
        forall|m: int, j: int|
            0 <= m < 7 && 0 < j < tops[m].len() ==> bytes_less(
                vstd::utf8::encode_utf8((#[trigger] tops[m][j - 1]).0),
                vstd::utf8::encode_utf8(tops[m][j].0),
            ),
    ensures
        write_fault(lanes, tops, i) is None,
    decreases 7 - i,
{
    if i < 7 {
        lemma_no_order_fault(lanes[i], 0);
        lemma_no_order_fault(tops[i], 0);
        law_ascending_lists_are_written(lanes, tops, i + 1);
    }
}

/// Keys that a lane has are listed, in order, with the numbers noted for each, once each.
pub proof fn law_the_keys_of_a_lane_are_listed(
    k: Seq<(Seq<char>, Seq<u32>)>,
    keys: IndexKeys,
    lane: Lane,
    key: Seq<char>,
    id: u32,
    i: int,
)
    requires
        lists_lane(k, keys, lane),
    ensures
        keys.of(lane, key).contains(id) ==> exists|m: int|
            0 <= m < k.len() && (#[trigger] k[m]).0 == key && k[m].1.contains(id),
        0 <= i < k.len() && k[i].1.contains(id) ==> keys.of(lane, k[i].0).contains(id),
        0 < i < k.len() ==> bytes_less(
            vstd::utf8::encode_utf8(k[i - 1].0),
            vstd::utf8::encode_utf8(k[i].0),
        ),
{
    if keys.of(lane, key).contains(id) {
        let m = choose|m: int| 0 <= m < k.len() && (#[trigger] k[m]).0 == key;
        assert(is_sorted_set(number_order(), k[m].1, keys.of(lane, k[m].0)));
        assert(k[m].1.contains(id));
    }
    if 0 <= i < k.len() && k[i].1.contains(id) {
        assert(is_sorted_set(number_order(), k[i].1, keys.of(lane, k[i].0)));
    }
    if 0 < i < k.len() {
        assert(key_follows(k, i));
    }
}

/// Bytes are hashed one by one, and a number of hexadecimal digits is written digit by digit.
pub proof fn law_digits_and_hashes(state: u64, bytes: Seq<u8>, b: u8, n: nat)
    ensures
        mixed(state, bytes.push(b)) == wrap_product(mixed(state, bytes) ^ (b as u64), K),
        mixed(state, Seq::empty()) == state,
        wrap_product(state, K) == (state * 0x9E37_79B9_7F4A_7C15) % 0x1_0000_0000_0000_0000,
        n >= 16 ==> hex(n) == hex(n / 16).push(hex(n % 16)[0]),
        n < 10 ==> hex(n) == seq![('0' as u32 + n) as u8 as char],
        10 <= n < 16 ==> hex(n) == seq![('A' as u32 + n - 10) as u8 as char],
{
    assert(bytes.push(b).drop_last() =~= bytes);
}

/// Two sets of parameters count as one where their numbers are equal, as numbers.
pub proof fn law_which_numbers_are_equal(a: Single, b: Single)
    ensures
        same_number(a, b) <==> !a.is_nan_spec() && !b.is_nan_spec() && !a.less_spec(b)
            && !b.less_spec(a),
{
}

/// Hexadecimal digits count from nought to fifteen, in either case; no other character is one.
pub proof fn law_hexadecimal_digits(s: Seq<char>, c: char)
    ensures
        '0' <= c <= '9' ==> digit_value(c, 16) == Some((c as int - '0' as int) as nat),
        'a' <= c <= 'f' ==> digit_value(c, 16) == Some((c as int - 'a' as int + 10) as nat),
        'A' <= c <= 'F' ==> digit_value(c, 16) == Some((c as int - 'A' as int + 10) as nat),
        !('0' <= c <= '9') && !('a' <= c <= 'f') && !('A' <= c <= 'F') ==> digit_value(c, 16) is None,
        !('0' <= c <= '9') ==> digit_value(c, 10) is None,
        digit_value(c, 16) matches Some(d) ==> value_of(s.push(c), 16) == value_of(s, 16) * 16 + d,
{
    assert(s.push(c).drop_last() =~= s);
}

/// A key that a text lacks has no number, no text and no list; and what is no text in quotes is
/// no text.
pub proof fn law_what_is_not_there(s: Seq<char>, key: Seq<char>, c: char, rest: Seq<char>)
    ensures
        find(s, seq!['"'] + key + seq!['"', ':']) is None ==> number_field(s, key) is None
            && string_field(s, key) is None && numbers_field(s, key).len() == 0 && strings_under(
            s,
            key,
        ) == 0,
        c != '"' && !is_space_spec(c) ==> string_field(
            seq!['"'] + key + seq!['"', ':'] + (seq![c] + rest),
            key,
        ) is None,
{
    if c != '"' && !is_space_spec(c) {
        let p = key_pattern(key);
        let t = p + (seq![c] + rest);
        assert(t.take(p.len() as int) =~= p);
        assert(starts_with(t, p));
        assert(find(t, p) == Some(0int));
        assert(t.skip(p.len() as int) =~= seq![c] + rest);
        assert((seq![c] + rest)[0] == c);
        assert(trim_start_by(seq![c] + rest, Space) == seq![c] + rest);
    }
}

/// A text is read character by character up to the quote that closes it.
pub proof fn law_a_text_is_read_to_its_quote(c: char, rest: Seq<char>)
    ensures
        c != '"' && c != '\\' ==> unquoted(seq![c] + rest) == seq![c] + unquoted(rest),
        unquoted(Seq::empty()).len() == 0,
        unquoted(seq!['\\']).len() == 0,
{
    assert((seq![c] + rest).drop_first() =~= rest);
    assert((seq![c] + rest)[0] == c);
}

/// A fence that is not closed is taken off too, and one that only closes.
pub proof fn law_a_fence_may_lack_its_end(x: Seq<char>)
    requires
        x.len() > 0,
        ends_bare(x),
        x[0] != '`',
        x.last() != '`',
    ensures
        fence_stripped(seq!['`', '`', '`', 'j', 's', 'o', 'n', '\n'] + x) == x,
        fence_stripped(seq!['`', '`', '`', '\n'] + x) == x,
        fence_stripped(x + seq!['\n', '`', '`', '`']) == x,
{
    reveal_strlit("```json");
    reveal_strlit("```");
    assert("```json"@ =~= seq!['`', '`', '`', 'j', 's', 'o', 'n']);
    assert("```"@ =~= seq!['`', '`', '`']);
    let n = seq!['\n'];
    let e = Seq::<char>::empty();
    crate::wording::law_blanks_are_taken_off(n, x, e);
    crate::wording::law_blanks_are_taken_off(e, x, n);
    assert(n + x + e =~= n + x);
    assert(e + x + n =~= x + n);
    assert((n + x).drop_first() =~= x);
    assert((n + x)[0] == '\n');
    assert(trim_start_by(x, Space) == x);
    assert(trim_start_by(n + x, Space) == x);
    assert(!ends_with(x, "```"@)) by {
        if ends_with(x, "```"@) {
            assert(x.skip(x.len() - 3)[2] == x.last());
            assert("```"@[2] == '`');
        }
    }
    let a = "```json"@ + (n + x);
    assert(seq!['`', '`', '`', 'j', 's', 'o', 'n', '\n'] + x =~= a);
    assert(a[0] == '`' && a.last() == x.last());
    lemma_trimmed_keeps(a);
    assert(a.take(7) =~= "```json"@);
    assert(a.skip(7) =~= n + x);
    let b = "```"@ + (n + x);
    assert(seq!['`', '`', '`', '\n'] + x =~= b);
    assert(b[0] == '`' && b.last() == x.last() && b[3] == '\n');
    lemma_trimmed_keeps(b);
    assert(b.take(3) =~= "```"@);
    assert(b.skip(3) =~= n + x);
    assert(!starts_with(b, "```json"@)) by {
        if starts_with(b, "```json"@) {
            assert(b.take(7)[3] == 'j');
        }
    }
    let c = x + n + "```"@;
    assert(x + seq!['\n', '`', '`', '`'] =~= c);
    assert(c[0] == x[0] && c.last() == '`');
    lemma_trimmed_keeps(c);
    assert(!starts_with(c, "```json"@) && !starts_with(c, "```"@)) by {
        if starts_with(c, "```json"@) {
            assert(c.take(7)[0] == '`');
        }
        if starts_with(c, "```"@) {
            assert(c.take(3)[0] == '`');
        }
    }
    assert(trim_start_by(c, Space) == c);
    assert(c.skip(c.len() - 3) =~= "```"@);
    assert(c.take(c.len() - 3) =~= x + n);
}

/// A text is laid out behind the number of its bytes.
pub proof fn law_how_a_text_is_laid_out(s: Seq<char>)
    requires
        vstd::utf8::encode_utf8(s).len() <= u64::MAX,
    ensures
        text_bytes(s).len() == 8 + vstd::utf8::encode_utf8(s).len(),
        text_bytes(s).take(8) == put64(vstd::utf8::encode_utf8(s).len() as u64),
        text_bytes(s).skip(8) == vstd::utf8::encode_utf8(s),
{
    let n = vstd::utf8::encode_utf8(s).len() as u64;
    lemma_put64(n);
    assert(text_bytes(s).skip(8) =~= vstd::utf8::encode_utf8(s));
    assert(text_bytes(s).take(8) =~= put64(n));
}

/// What may be missing stands for what it holds.
pub proof fn law_what_may_be_missing(s: Option<String>, t: Option<&str>)
    ensures
        s matches Some(x) ==> crate::english::opt_text(s) == Some(x@) && crate::voice::opt_string(s)
            == Some(x@),
        s is None ==> crate::english::opt_text(s) is None && crate::voice::opt_string(s) is None,
        t matches Some(x) ==> crate::english::opt_str(t) == Some(x@) && crate::engine::opt_view(t)
            == Some(x@) && crate::shot::opt_text(t) == Some(x@),
        t is None ==> crate::english::opt_str(t) is None && crate::engine::opt_view(t) is None
            && crate::shot::opt_text(t) is None,
{
}

} // verus!
