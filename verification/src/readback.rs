//! What this program writes for the language model, and of its replies, it reads back.
use crate::json::{
    after_key, escaped, escaped_char, fence_stripped, key_pattern, number_field, numbers_field,
    numbers_in, objects_in, objects_upto, scan_upto, string_field, strings_ahead, strings_under,
    unquoted, ScanView,
};
use crate::llm::{
    import_line, json_list, number_list, replies_among, replies_in, reply_json, sense_in,
    sense_json, senses_among, senses_in, senses_within, stored_senses, task_json, verdict, within,
    ImportView, OutSenseView, OutView, Verdict,
};
use crate::model::EntryView;
use crate::number::{decimal, lemma_decimal_reads_back, parsed_nat};
use crate::store::{entry_result, StoreError, StoreView};
use crate::text::{
    find, is_digit_spec, is_space_spec, join, lemma_find, lemma_join_front, lemma_join_step,
    lemma_split_join, lemma_until_is, split_by, starts_with, trim_end_by, trim_start_by, trimmed,
    until, CharClass, NotDigit, One, Space,
};
use vstd::prelude::*;
use vstd::string::*;

verus! {

// ───────────────────────── strings ─────────────────────────

/// A text that escaping does not change but for quotes, backslashes and line breaks: a tab
/// becomes a blank, and other control characters are dropped.
pub open spec fn writable(t: Seq<char>) -> bool {
    forall|i: int| 0 <= i < t.len() ==> #[trigger] t[i] == '\n' || t[i] as u32 >= 0x20
}

/// A text that stands in JSON as it is.
spec fn inert(t: Seq<char>) -> bool {
    forall|i: int|
        0 <= i < t.len() ==> #[trigger] t[i] != '"' && t[i] != '\\' && t[i] as u32 >= 0x20
}

spec fn quoted(t: Seq<char>) -> Seq<char> {
    seq!['"'] + escaped(t) + seq!['"']
}

proof fn lemma_escaped_inert(t: Seq<char>)
    requires
        inert(t),
    ensures
        escaped(t) == t,
    decreases t.len(),
{
    if t.len() > 0 {
        assert(t.last() == t[t.len() - 1]);
        assert forall|i: int| 0 <= i < t.drop_last().len() implies #[trigger] t.drop_last()[i]
            != '"' && t.drop_last()[i] != '\\' && t.drop_last()[i] as u32 >= 0x20 by {
            assert(t[i] != '"');
        }
        lemma_escaped_inert(t.drop_last());
        assert(escaped(t) =~= t);
    } else {
        assert(escaped(t) =~= t);
    }
}

/// Inside an escaped text every quote follows a backslash, and there is no line break.
proof fn lemma_escaped_quotes(t: Seq<char>)
    ensures
        forall|m: int|
            0 <= m < escaped(t).len() && #[trigger] escaped(t)[m] == '"' ==> m > 0 && escaped(
                t,
            )[m - 1] == '\\',
        forall|m: int| 0 <= m < escaped(t).len() ==> #[trigger] escaped(t)[m] != '\n',
    decreases t.len(),
{
    if t.len() > 0 {
        lemma_escaped_quotes(t.drop_last());
        let a = escaped(t.drop_last());
        let b = escaped_char(t.last());
        assert forall|m: int| 0 <= m < escaped(t).len() implies (#[trigger] escaped(t)[m] == '"'
            ==> m > 0 && escaped(t)[m - 1] == '\\') && escaped(t)[m] != '\n' by {
            if m < a.len() {
                assert(escaped(t)[m] == a[m]);
                if m > 0 {
                    assert(escaped(t)[m - 1] == a[m - 1]);
                }
            } else {
                assert(escaped(t)[m] == b[m - a.len()]);
            }
        }
    }
}

proof fn lemma_escaped_front(t: Seq<char>)
    requires
        t.len() > 0,
    ensures
        escaped(t) == escaped_char(t[0]) + escaped(t.drop_first()),
    decreases t.len(),
{
    if t.len() == 1 {
        assert(t.drop_last() =~= Seq::<char>::empty());
        assert(t.drop_first() =~= Seq::<char>::empty());
        assert(escaped(t) =~= escaped_char(t[0]) + escaped(t.drop_first()));
    } else {
        lemma_escaped_front(t.drop_last());
        assert(t.drop_last().drop_first() =~= t.drop_first().drop_last());
        assert(t.drop_first().last() == t.last());
        assert(escaped(t) =~= escaped_char(t[0]) + escaped(t.drop_first()));
    }
}

/// A written string reads back.
proof fn lemma_unquoted(t: Seq<char>, b: Seq<char>)
    requires
        writable(t),
        b.len() > 0,
        b[0] == '"',
    ensures
        unquoted(escaped(t) + b) == t,
    decreases t.len(),
{
    let s = escaped(t) + b;
    if t.len() == 0 {
        assert(s[0] == '"');
        assert(unquoted(s) =~= t);
    } else {
        let u = t.drop_first();
        assert forall|i: int| 0 <= i < u.len() implies #[trigger] u[i] == '\n' || u[i] as u32
            >= 0x20 by {
            assert(u[i] == t[i + 1]);
        }
        lemma_escaped_front(t);
        lemma_unquoted(u, b);
        let e = escaped_char(t[0]);
        assert(t[0] == '\n' || t[0] as u32 >= 0x20);
        assert(s =~= e + (escaped(u) + b));
        if e.len() == 2 {
            assert(s.skip(2) =~= escaped(u) + b);
            assert(s[0] == '\\');
            assert(s[1] == e[1]);
        } else {
            assert(e.len() == 1);
            assert(s.drop_first() =~= escaped(u) + b);
            assert(s[0] == t[0]);
        }
        assert(unquoted(s) =~= seq![t[0]] + u);
        assert(seq![t[0]] + u =~= t);
    }
}

// ───────────────────────── finding fields ─────────────────────────

/// No occurrence of `p` in `a + b` begins within `a`.
spec fn clear(a: Seq<char>, b: Seq<char>, p: Seq<char>) -> bool {
    forall|j: int| 0 <= j < a.len() ==> !starts_with(#[trigger] (a + b).skip(j), p)
}

proof fn lemma_char(s: Seq<char>, j: int, p: Seq<char>, k: int)
    requires
        0 <= j <= s.len(),
        starts_with(s.skip(j), p),
        0 <= k < p.len(),
    ensures
        j + k < s.len(),
        s[j + k] == p[k],
{
    assert(s.skip(j).take(p.len() as int)[k] == p[k]);
}

proof fn lemma_find_behind(a: Seq<char>, b: Seq<char>, p: Seq<char>)
    requires
        clear(a, b, p),
    ensures
        find(a + b, p) == match find(b, p) {
            Some(i) => Some(i + a.len()),
            None => None,
        },
    decreases a.len(),
{
    let s = a + b;
    if a.len() == 0 {
        assert(s =~= b);
    } else {
        let c = a.drop_first();
        assert(s.skip(0) =~= s);
        assert(s.drop_first() =~= c + b);
        assert forall|j: int| 0 <= j < c.len() implies !starts_with(
            #[trigger] (c + b).skip(j),
            p,
        ) by {
            assert((c + b).skip(j) =~= s.skip(j + 1));
        }
        lemma_find_behind(c, b, p);
    }
}

/// A field is sought behind a text that does not mention it.
proof fn lemma_after_behind(a: Seq<char>, b: Seq<char>, key: Seq<char>)
    requires
        clear(a, b, key_pattern(key)),
    ensures
        after_key(a + b, key) == after_key(b, key),
{
    let p = key_pattern(key);
    lemma_find_behind(a, b, p);
    lemma_find(b, p);
    if let Some(i) = find(b, p) {
        assert((a + b).skip(i + a.len() + p.len()) =~= b.skip(i + p.len()));
    }
}

/// A quoted pattern does not begin in a text where what follows a quote differs from it.
proof fn lemma_clear_plain(a: Seq<char>, b: Seq<char>, p: Seq<char>)
    requires
        p.len() >= 2,
        p[0] == '"',
        forall|j: int|
            0 <= j < a.len() && #[trigger] a[j] == '"' ==> j + 1 < a.len() && a[j + 1] != p[1],
    ensures
        clear(a, b, p),
{
    assert forall|j: int| 0 <= j < a.len() implies !starts_with(#[trigger] (a + b).skip(j), p) by {
        if starts_with((a + b).skip(j), p) {
            lemma_char(a + b, j, p, 0);
            lemma_char(a + b, j, p, 1);
            assert(a[j] == '"');
        }
    }
}

/// A key does not begin within a string that is another key or no key at all.
#[verifier::rlimit(40)]
proof fn lemma_clear_quoted(t: Seq<char>, b: Seq<char>, key: Seq<char>)
    requires
        inert(key),
        key.len() > 0,
        b.len() > 0,
        b[0] != key[0],
        b[0] != ':' || (inert(t) && t != key),
    ensures
        clear(quoted(t), b, key_pattern(key)),
{
    let a = quoted(t);
    let p = key_pattern(key);
    let e = escaped(t);
    let s = a + b;
    let n = key.len() as int;
    assert(p.len() == n + 3 && p[0] == '"' && p[n + 1] == '"' && p[n + 2] == ':');
    assert(forall|k: int| 0 <= k < n ==> p[k + 1] == #[trigger] key[k]);
    lemma_escaped_quotes(t);
    if inert(t) {
        lemma_escaped_inert(t);
    }
    assert(forall|k: int| 0 <= k < e.len() ==> s[k + 1] == #[trigger] e[k]);
    let z = e.len() as int + 1;
    assert(s[z] == '"' && s[z + 1] == b[0]);
    assert forall|j: int| 0 <= j < a.len() implies !starts_with(#[trigger] s.skip(j), p) by {
        if starts_with(s.skip(j), p) {
            lemma_char(s, j, p, 0);
            lemma_char(s, j, p, 1);
            lemma_char(s, j, p, n);
            lemma_char(s, j, p, n + 1);
            lemma_char(s, j, p, n + 2);
            assert(key[0] == s[j + 1]);
            assert(key[n - 1] == s[j + n]);
            let m = j + n + 1;
            if j == z {
                assert(s[j + 1] == b[0]);
            } else if m < z {
                assert(e[m - 1] == '"');
                assert(e[m - 2] == '\\');
            } else if m == z {
                assert(b[0] == ':');
                if j == 0 {
                    assert forall|k: int| 0 <= k < n implies t[k] == #[trigger] key[k] by {
                        lemma_char(s, j, p, k + 1);
                        assert(s[k + 1] == e[k]);
                    }
                    assert(t =~= key);
                } else {
                    assert(e[j - 1] == '"');
                    assert(t[j - 1] != '"');
                }
            } else {
                lemma_char(s, j, p, z - j);
                assert(p[z - j] == key[z - j - 1]);
            }
        }
    }
}

/// A field that stands first is found there.
proof fn lemma_first_key(key: Seq<char>, b: Seq<char>)
    requires
        inert(key),
    ensures
        after_key(quoted(key) + (seq![':'] + b), key) == Some(b),
{
    lemma_escaped_inert(key);
    let p = key_pattern(key);
    let s = quoted(key) + (seq![':'] + b);
    assert(s.take(p.len() as int) =~= p);
    assert(find(s, p) == Some(0int));
    assert(s.skip(p.len() as int) =~= b);
}

/// A string under a key, and what follows it.
spec fn member(key: Seq<char>, value: Seq<char>, rest: Seq<char>) -> Seq<char> {
    quoted(key) + (seq![':'] + (quoted(value) + rest))
}

proof fn lemma_member_value(key: Seq<char>, value: Seq<char>, rest: Seq<char>)
    requires
        inert(key),
        writable(value),
    ensures
        string_field(member(key, value, rest), key) == Some(value),
{
    let t = quoted(value) + rest;
    lemma_first_key(key, t);
    assert(t[0] == '"');
    assert(trim_start_by(t, Space) == t);
    assert(t.drop_first() =~= escaped(value) + (seq!['"'] + rest));
    lemma_unquoted(value, seq!['"'] + rest);
}

/// A field that is not the first is sought behind it.
proof fn lemma_member_behind(key: Seq<char>, value: Seq<char>, rest: Seq<char>, other: Seq<char>)
    requires
        inert(key),
        inert(other),
        other.len() > 0,
        other != key,
        other[0] != ':' && other[0] != ',',
        rest.len() > 0,
        rest[0] == ',',
    ensures
        after_key(member(key, value, rest), other) == after_key(rest.drop_first(), other),
{
    let b = quoted(value) + rest;
    lemma_clear_quoted(key, seq![':'] + b, other);
    lemma_after_behind(quoted(key), seq![':'] + b, other);
    let p = key_pattern(other);
    assert(p[0] == '"' && p[1] == other[0]);
    lemma_clear_plain(seq![':'], b, p);
    lemma_after_behind(seq![':'], b, other);
    lemma_clear_quoted(value, rest, other);
    lemma_after_behind(quoted(value), rest, other);
    let last = rest.drop_first();
    assert(rest =~= seq![','] + last);
    lemma_clear_plain(seq![','], last, p);
    lemma_after_behind(seq![','], last, other);
}

// ───────────────────────── numbers ─────────────────────────

/// The digits of a number end where something else begins.
proof fn lemma_leading_number(n: nat, b: Seq<char>, max: nat)
    requires
        n <= max,
        b.len() > 0,
        !is_digit_spec(b[0]),
    ensures
        ({
            let s = decimal(n) + b;
            let rest = trim_start_by(s, Space);
            rest == s && parsed_nat(rest.take(until(rest, NotDigit) as int), 10, max) == Some(n)
        }),
{
    let d = decimal(n);
    let s = d + b;
    lemma_decimal_reads_back(n);
    assert(is_digit_spec(d[0]));
    assert(s[0] == d[0]);
    assert(trim_start_by(s, Space) == s);
    assert forall|i: int| 0 <= i < d.len() implies !NotDigit.holds(#[trigger] s[i]) by {
        assert(s[i] == d[i]);
    }
    assert(s[d.len() as int] == b[0]);
    lemma_until_is(s, NotDigit, d.len() as int);
    assert(s.take(d.len() as int) =~= d);
}

spec fn decimals(v: Seq<usize>) -> Seq<Seq<char>> {
    Seq::new(v.len(), |i: int| decimal(v[i] as nat))
}

proof fn lemma_numbers_in(v: Seq<usize>)
    ensures
        numbers_in(decimals(v)) == v,
    decreases v.len(),
{
    let parts = decimals(v);
    if v.len() == 0 {
        assert(numbers_in(parts) =~= v);
    } else {
        assert(parts.drop_last() =~= decimals(v.drop_last()));
        lemma_numbers_in(v.drop_last());
        let d = decimal(v.last() as nat);
        lemma_decimal_reads_back(v.last() as nat);
        assert(is_digit_spec(d[0]));
        assert(is_digit_spec(d[d.len() - 1]));
        assert(trim_start_by(d, Space) == d);
        assert(trimmed(d) == d);
        assert(numbers_in(parts) =~= v);
    }
}

/// A list of numbers holds digits and commas alone.
proof fn lemma_number_list(v: Seq<usize>, k: int)
    requires
        0 <= k <= v.len(),
    ensures
        forall|i: int|
            0 <= i < join(decimals(v).take(k), seq![',']).len() ==> ({
                let c = #[trigger] join(decimals(v).take(k), seq![','])[i];
                c == ',' || is_digit_spec(c)
            }),
    decreases k,
{
    if k == 0 {
        assert(decimals(v).take(0) =~= Seq::<Seq<char>>::empty());
    } else {
        lemma_number_list(v, k - 1);
        lemma_join_step(decimals(v), seq![','], k - 1);
        lemma_decimal_reads_back(v[k - 1] as nat);
        let a = join(decimals(v).take(k - 1), seq![',']);
        let d = decimals(v)[k - 1];
        let s = join(decimals(v).take(k), seq![',']);
        assert forall|i: int| 0 <= i < s.len() implies ({
            let c = #[trigger] s[i];
            c == ',' || is_digit_spec(c)
        }) by {
            if k == 1 {
                assert(s[i] == d[i]);
            } else if i < a.len() {
                assert(s[i] == a[i]);
            } else if i > a.len() {
                assert(s[i] == d[i - a.len() - 1]);
            }
        }
    }
}

/// The numbers in square brackets behind a key read back.
proof fn lemma_numbers_field(key: Seq<char>, v: Seq<usize>, b: Seq<char>)
    requires
        inert(key),
    ensures
        numbers_field(
            quoted(key) + (seq![':'] + (seq!['['] + (number_list(v) + (seq![']'] + b)))),
            key,
        ) == v,
{
    let n = number_list(v);
    let rest = seq!['['] + (n + (seq![']'] + b));
    lemma_first_key(key, rest);
    assert(decimals(v).take(v.len() as int) =~= decimals(v));
    assert(n == join(decimals(v), seq![',']));
    lemma_number_list(v, v.len() as int);
    lemma_until_is(rest, One('['), 0);
    assert(rest.skip(0) =~= rest);
    assert forall|i: int| 0 <= i < n.len() + 1 implies !One(']').holds(#[trigger] rest[i]) by {
        if i > 0 {
            assert(rest[i] == n[i - 1]);
        }
    }
    assert(rest[n.len() as int + 1] == ']');
    lemma_until_is(rest, One(']'), n.len() as int + 1);
    assert(rest.subrange(1, n.len() as int + 1) =~= n);
    if v.len() == 0 {
        assert(n =~= Seq::<char>::empty());
        lemma_until_is(n, One(','), 0);
        assert(split_by(n, One(',')) =~= seq![n]);
        assert(trimmed(n) =~= n);
        assert(seq![n].drop_last() =~= Seq::<Seq<char>>::empty());
        assert(numbers_in(Seq::<Seq<char>>::empty()) =~= v);
        assert(seq![n].last() == n);
        assert(numbers_in(seq![n]) =~= v);
    } else {
        assert forall|i: int, j: int|
            0 <= i < decimals(v).len() && 0 <= j < decimals(v)[i].len() implies #[trigger] decimals(
            v,
        )[i][j] != ',' by {
            lemma_decimal_reads_back(v[i] as nat);
            assert(is_digit_spec(decimal(v[i] as nat)[j]));
        }
        lemma_split_join(decimals(v), ',', One(','));
        lemma_numbers_in(v);
    }
}

// ───────────────────────── scanning for objects ─────────────────────────

/// `p` stands in `w` at `i`.
#[verifier::opaque]
spec fn stands(w: Seq<char>, i: int, p: Seq<char>) -> bool {
    &&& 0 <= i
    &&& i + p.len() <= w.len()
    &&& forall|k: int| 0 <= k < p.len() ==> w[i + k] == #[trigger] p[k]
}

proof fn lemma_at(w: Seq<char>, i: int, p: Seq<char>, k: int)
    requires
        stands(w, i, p),
        0 <= k < p.len(),
    ensures
        0 <= i,
        i + p.len() <= w.len(),
        w[i + k] == p[k],
{
    reveal(stands);
    assert(p[k] == w[i + k]);
}

proof fn lemma_stands_whole(w: Seq<char>)
    ensures
        stands(w, 0, w),
{
    reveal(stands);
}

proof fn lemma_stands_part(w: Seq<char>, i: int, p: Seq<char>)
    requires
        stands(w, i, p),
    ensures
        0 <= i,
        i + p.len() <= w.len(),
        w.subrange(i, i + p.len()) == p,
{
    reveal(stands);
    assert(w.subrange(i, i + p.len()) =~= p);
}

proof fn lemma_stands_cat(w: Seq<char>, i: int, a: Seq<char>, b: Seq<char>)
    requires
        stands(w, i, a + b),
    ensures
        stands(w, i, a),
        stands(w, i + a.len(), b),
{
    reveal(stands);
    assert forall|k: int| 0 <= k < a.len() implies w[i + k] == #[trigger] a[k] by {
        assert((a + b)[k] == a[k]);
    }
    assert forall|k: int| 0 <= k < b.len() implies w[i + a.len() + k] == #[trigger] b[k] by {
        assert((a + b)[a.len() + k] == b[k]);
    }
}

/// The scan is outside strings at `i`.
spec fn outside(w: Seq<char>, i: int) -> bool {
    0 <= i && !scan_upto(w, i as nat).in_str && !scan_upto(w, i as nat).escape
}

/// The scan is the same at `i` and at `j`, and no object closes between.
spec fn idle(w: Seq<char>, i: int, j: int) -> bool {
    &&& 0 <= i <= j
    &&& scan_upto(w, j as nat) == scan_upto(w, i as nat)
    &&& objects_upto(w, j as nat) == objects_upto(w, i as nat)
}

/// Nothing but quotes and braces matters outside strings.
proof fn lemma_scan_plain(w: Seq<char>, i: int, p: Seq<char>)
    requires
        outside(w, i),
        stands(w, i, p),
        forall|k: int|
            0 <= k < p.len() ==> #[trigger] p[k] != '"' && p[k] != '{' && p[k] != '}',
    ensures
        idle(w, i, i + p.len()),
    decreases p.len(),
{
    reveal(stands);
    if p.len() > 0 {
        let q = p.drop_last();
        assert forall|k: int| 0 <= k < q.len() implies w[i + k] == #[trigger] q[k] && q[k] != '"'
            && q[k] != '{' && q[k] != '}' by {
            assert(q[k] == p[k]);
        }
        lemma_scan_plain(w, i, q);
        assert(w[i + q.len()] == p[q.len() as int]);
    }
}

/// An escaped text neither ends the string that it stands in nor closes an object.
proof fn lemma_scan_body(w: Seq<char>, i: int, t: Seq<char>)
    requires
        0 <= i,
        scan_upto(w, i as nat).in_str,
        !scan_upto(w, i as nat).escape,
        stands(w, i, escaped(t)),
    ensures
        idle(w, i, i + escaped(t).len()),
    decreases t.len(),
{
    if t.len() > 0 {
        let a = escaped(t.drop_last());
        let b = escaped_char(t.last());
        lemma_stands_cat(w, i, a, b);
        lemma_scan_body(w, i, t.drop_last());
        let j = i + a.len();
        let st = scan_upto(w, j as nat);
        if b.len() == 1 {
            lemma_at(w, j, b, 0);
            assert(b[0] != '"' && b[0] != '\\');
            assert(scan_upto(w, (j + 1) as nat) == st);
        } else if b.len() == 2 {
            lemma_at(w, j, b, 0);
            lemma_at(w, j, b, 1);
            assert(scan_upto(w, (j + 1) as nat) == (ScanView { escape: true, ..st }));
            assert(scan_upto(w, (j + 2) as nat) == st);
            assert(objects_upto(w, (j + 1) as nat) == objects_upto(w, j as nat));
            assert(objects_upto(w, (j + 2) as nat) == objects_upto(w, (j + 1) as nat));
        }
    }
}

/// A string leaves the scan as it was.
proof fn lemma_scan_string(w: Seq<char>, i: int, t: Seq<char>)
    requires
        outside(w, i),
        stands(w, i, quoted(t)),
    ensures
        idle(w, i, i + quoted(t).len()),
{
    let e = escaped(t);
    lemma_stands_cat(w, i, seq!['"'] + e, seq!['"']);
    lemma_stands_cat(w, i, seq!['"'], e);
    lemma_at(w, i, seq!['"'], 0);
    let st = scan_upto(w, i as nat);
    assert(scan_upto(w, (i + 1) as nat) == (ScanView { in_str: true, ..st }));
    assert(objects_upto(w, (i + 1) as nat) == objects_upto(w, i as nat));
    lemma_scan_body(w, i + 1, t);
    let z = i + 1 + e.len();
    lemma_at(w, z, seq!['"'], 0);
}

proof fn lemma_scan_member(w: Seq<char>, i: int, key: Seq<char>, value: Seq<char>, rest: Seq<char>)
    requires
        outside(w, i),
        stands(w, i, member(key, value, rest)),
    ensures
        ({
            let j = i + quoted(key).len() + 1 + quoted(value).len();
            idle(w, i, j) && stands(w, j, rest)
        }),
{
    let b = quoted(value) + rest;
    lemma_stands_cat(w, i, quoted(key), seq![':'] + b);
    lemma_scan_string(w, i, key);
    let j = i + quoted(key).len();
    lemma_stands_cat(w, j, seq![':'], b);
    lemma_scan_plain(w, j, seq![':']);
    lemma_stands_cat(w, j + 1, quoted(value), rest);
    lemma_scan_string(w, j + 1, value);
}

// ───────────────────────── one sense ─────────────────────────

spec fn col_part(s: OutSenseView) -> Seq<char> {
    member("col"@, s.col, seq!['}'])
}

spec fn reg_part(s: OutSenseView) -> Seq<char> {
    member("reg"@, s.reg, seq![','] + col_part(s))
}

spec fn text_part(s: OutSenseView) -> Seq<char> {
    member("text"@, s.text, seq![','] + reg_part(s))
}

spec fn from_part(s: OutSenseView) -> Seq<char> {
    quoted("from"@) + (seq![':'] + (seq!['['] + (number_list(s.from) + (seq![']'] + (seq![',']
        + text_part(s))))))
}

proof fn lemma_keys()
    ensures
        inert("from"@) && "from"@.len() == 4 && "from"@[0] == 'f',
        inert("text"@) && "text"@.len() == 4 && "text"@[0] == 't',
        inert("reg"@) && "reg"@.len() == 3 && "reg"@[0] == 'r',
        inert("col"@) && "col"@.len() == 3 && "col"@[0] == 'c',
        inert("id"@) && "id"@.len() == 2 && "id"@[0] == 'i',
        inert("senses"@) && "senses"@.len() == 6 && "senses"@[0] == 's',
{
    reveal_strlit("from");
    reveal_strlit("text");
    reveal_strlit("reg");
    reveal_strlit("col");
    reveal_strlit("id");
    reveal_strlit("senses");
}

proof fn lemma_member_shape(
    lit: Seq<char>,
    pre: Seq<char>,
    key: Seq<char>,
    value: Seq<char>,
    rest: Seq<char>,
)
    requires
        lit == pre + quoted(key) + seq![':', '"'],
    ensures
        lit + escaped(value) + (seq!['"'] + rest) == pre + member(key, value, rest),
{
    let q = quoted(value) + rest;
    assert(q =~= seq!['"'] + escaped(value) + (seq!['"'] + rest));
    assert(lit + escaped(value) + (seq!['"'] + rest) =~= pre + quoted(key) + seq![':'] + q);
    assert(pre + member(key, value, rest) =~= pre + quoted(key) + seq![':'] + q);
}

#[verifier::rlimit(40)]
proof fn lemma_text_literals()
    ensures
        "{\"from\":["@ == seq!['{'] + quoted("from"@) + seq![':', '['],
        "],\"text\":\""@ == seq![']', ','] + quoted("text"@) + seq![':', '"'],
        "\",\"reg\":\""@ == seq!['"', ','] + quoted("reg"@) + seq![':', '"'],
        "\",\"col\":\""@ == seq!['"', ','] + quoted("col"@) + seq![':', '"'],
        "\"}"@ == seq!['"'] + seq!['}'],
{
    lemma_keys();
    lemma_escaped_inert("from"@);
    lemma_escaped_inert("text"@);
    lemma_escaped_inert("reg"@);
    lemma_escaped_inert("col"@);
    reveal_strlit("from");
    reveal_strlit("text");
    reveal_strlit("reg");
    reveal_strlit("col");
    reveal_strlit("{\"from\":[");
    reveal_strlit("],\"text\":\"");
    reveal_strlit("\",\"reg\":\"");
    reveal_strlit("\",\"col\":\"");
    reveal_strlit("\"}");
    assert("{\"from\":["@ =~= seq!['{'] + quoted("from"@) + seq![':', '[']);
    assert("],\"text\":\""@ =~= seq![']', ','] + quoted("text"@) + seq![':', '"']);
    assert("\",\"reg\":\""@ =~= seq!['"', ','] + quoted("reg"@) + seq![':', '"']);
    assert("\",\"col\":\""@ =~= seq!['"', ','] + quoted("col"@) + seq![':', '"']);
    assert("\"}"@ =~= seq!['"'] + seq!['}']);
}

proof fn lemma_nested(
    a: Seq<char>,
    n: Seq<char>,
    b: Seq<char>,
    t: Seq<char>,
    c: Seq<char>,
    r: Seq<char>,
    d: Seq<char>,
    o: Seq<char>,
    e: Seq<char>,
)
    ensures
        a + n + b + t + c + r + d + o + e == a + n + (b + t + (c + r + (d + o + e))),
{
    assert(a + n + b + t + c + r + d + o + e =~= a + n + b + t + c + r + (d + o + e));
    let x = d + o + e;
    assert(a + n + b + t + c + r + x =~= a + n + b + t + (c + r + x));
    let y = c + r + x;
    assert(a + n + b + t + y =~= a + n + (b + t + y));
}

proof fn lemma_pair(a: char, b: char, x: Seq<char>)
    ensures
        seq![a, b] + x == seq![a] + (seq![b] + x),
{
    assert(seq![a, b] + x =~= seq![a] + (seq![b] + x));
}

proof fn lemma_from_shape(q: Seq<char>, n: Seq<char>, t: Seq<char>)
    ensures
        seq!['{'] + q + seq![':', '['] + n + (seq![']', ','] + t) == seq!['{'] + (q + (seq![':'] + (
        seq!['['] + (n + (seq![']'] + (seq![','] + t)))))),
{
    lemma_pair(']', ',', t);
    let u = n + (seq![']'] + (seq![','] + t));
    lemma_pair(':', '[', u);
    assert(seq!['{'] + q + seq![':', '['] + n + (seq![']', ','] + t) =~= seq!['{'] + q + (seq![
        ':',
        '[',
    ] + u));
    let v = seq![':', '['] + u;
    assert(seq!['{'] + q + v =~= seq!['{'] + (q + v));
}

proof fn lemma_sense_shape(s: OutSenseView)
    ensures
        sense_json(s) == seq!['{'] + from_part(s),
{
    let n = number_list(s.from);
    lemma_text_literals();
    let col = "\",\"col\":\""@ + escaped(s.col) + "\"}"@;
    lemma_member_shape("\",\"col\":\""@, seq!['"', ','], "col"@, s.col, seq!['}']);
    lemma_pair('"', ',', col_part(s));
    assert(col == seq!['"'] + (seq![','] + col_part(s)));
    let reg = "\",\"reg\":\""@ + escaped(s.reg) + col;
    lemma_member_shape(
        "\",\"reg\":\""@,
        seq!['"', ','],
        "reg"@,
        s.reg,
        seq![','] + col_part(s),
    );
    lemma_pair('"', ',', reg_part(s));
    assert(reg == seq!['"'] + (seq![','] + reg_part(s)));
    let text = "],\"text\":\""@ + escaped(s.text) + reg;
    lemma_member_shape(
        "],\"text\":\""@,
        seq![']', ','],
        "text"@,
        s.text,
        seq![','] + reg_part(s),
    );
    assert(text == seq![']', ','] + text_part(s));
    lemma_nested(
        "{\"from\":["@,
        n,
        "],\"text\":\""@,
        escaped(s.text),
        "\",\"reg\":\""@,
        escaped(s.reg),
        "\",\"col\":\""@,
        escaped(s.col),
        "\"}"@,
    );
    assert(sense_json(s) == "{\"from\":["@ + n + text);
    lemma_from_shape(quoted("from"@), n, text_part(s));
}

/// A sense that can be written without loss and that is not blank.
pub open spec fn sense_writable(s: OutSenseView) -> bool {
    writable(s.text) && writable(s.reg) && writable(s.col) && trimmed(s.text).len() > 0
}

proof fn lemma_after_from(s: OutSenseView, key: Seq<char>)
    requires
        inert(key),
        key.len() > 0,
        key != "from"@,
        key[0] != ':' && key[0] != ',',
    ensures
        after_key(sense_json(s), key) == after_key(text_part(s), key),
{
    lemma_keys();
    lemma_sense_shape(s);
    let p = key_pattern(key);
    assert(p[0] == '"' && p[1] == key[0]);
    let n = number_list(s.from);
    let tail = seq![':'] + (seq!['['] + (n + (seq![']'] + (seq![','] + text_part(s)))));
    lemma_clear_plain(seq!['{'], from_part(s), p);
    lemma_after_behind(seq!['{'], from_part(s), key);
    lemma_clear_quoted("from"@, tail, key);
    lemma_after_behind(quoted("from"@), tail, key);
    let a = seq![':', '['] + n + seq![']', ','];
    assert(decimals(s.from).take(s.from.len() as int) =~= decimals(s.from));
    lemma_number_list(s.from, s.from.len() as int);
    assert forall|j: int| 0 <= j < a.len() && #[trigger] a[j] == '"' implies j + 1 < a.len()
        && a[j + 1] != p[1] by {
        if 2 <= j < n.len() + 2 {
            assert(a[j] == n[j - 2]);
        }
    }
    assert(tail =~= a + text_part(s));
    lemma_clear_plain(a, text_part(s), p);
    lemma_after_behind(a, text_part(s), key);
}

proof fn lemma_sense_in(s: OutSenseView)
    requires
        sense_writable(s),
    ensures
        sense_in(sense_json(s)) == Some(s),
{
    lemma_keys();
    lemma_sense_shape(s);
    let n = number_list(s.from);
    let p = key_pattern("from"@);
    lemma_clear_plain(seq!['{'], from_part(s), p);
    lemma_after_behind(seq!['{'], from_part(s), "from"@);
    lemma_numbers_field("from"@, s.from, seq![','] + text_part(s));
    assert(numbers_field(sense_json(s), "from"@) == s.from);
    let reg_rest = seq![','] + reg_part(s);
    let col_rest = seq![','] + col_part(s);
    assert(reg_rest.drop_first() =~= reg_part(s));
    assert(col_rest.drop_first() =~= col_part(s));
    lemma_after_from(s, "text"@);
    lemma_member_value("text"@, s.text, reg_rest);
    assert(string_field(sense_json(s), "text"@) == Some(s.text));
    lemma_after_from(s, "reg"@);
    lemma_member_behind("text"@, s.text, reg_rest, "reg"@);
    lemma_member_value("reg"@, s.reg, col_rest);
    assert(string_field(sense_json(s), "reg"@) == Some(s.reg));
    lemma_after_from(s, "col"@);
    lemma_member_behind("text"@, s.text, reg_rest, "col"@);
    lemma_member_behind("reg"@, s.reg, col_rest, "col"@);
    lemma_member_value("col"@, s.col, seq!['}']);
    assert(string_field(sense_json(s), "col"@) == Some(s.col));
}

/// The strings of a written sense leave the scan before its closing brace.
proof fn lemma_scan_texts(w: Seq<char>, c: int, s: OutSenseView)
    requires
        outside(w, c),
        stands(w, c, text_part(s)),
    ensures
        ({
            let z = c + text_part(s).len() - 1;
            idle(w, c, z) && z < w.len() && w[z] == '}'
        }),
{
    lemma_scan_member(w, c, "text"@, s.text, seq![','] + reg_part(s));
    let d = c + quoted("text"@).len() + 1 + quoted(s.text).len();
    lemma_stands_cat(w, d, seq![','], reg_part(s));
    lemma_scan_plain(w, d, seq![',']);
    lemma_scan_member(w, d + 1, "reg"@, s.reg, seq![','] + col_part(s));
    let e = d + 1 + quoted("reg"@).len() + 1 + quoted(s.reg).len();
    lemma_stands_cat(w, e, seq![','], col_part(s));
    lemma_scan_plain(w, e, seq![',']);
    lemma_scan_member(w, e + 1, "col"@, s.col, seq!['}']);
    let z = e + 1 + quoted("col"@).len() + 1 + quoted(s.col).len();
    lemma_at(w, z, seq!['}'], 0);
    assert(col_part(s).len() == quoted("col"@).len() + 1 + quoted(s.col).len() + 1);
    assert(reg_part(s).len() == quoted("reg"@).len() + 1 + quoted(s.reg).len() + 1
        + col_part(s).len());
}

/// Digits, commas and brackets leave the scan as it was.
proof fn lemma_scan_numbers(w: Seq<char>, b: int, v: Seq<usize>)
    requires
        outside(w, b),
        stands(w, b, seq![':', '['] + number_list(v) + seq![']', ',']),
    ensures
        idle(w, b, b + number_list(v).len() + 4),
{
    let n = number_list(v);
    let mid = seq![':', '['] + n + seq![']', ','];
    assert(decimals(v).take(v.len() as int) =~= decimals(v));
    lemma_number_list(v, v.len() as int);
    assert forall|k: int| 0 <= k < mid.len() implies #[trigger] mid[k] != '"' && mid[k] != '{'
        && mid[k] != '}' by {
        if 2 <= k < n.len() + 2 {
            assert(mid[k] == n[k - 2]);
        }
    }
    lemma_scan_plain(w, b, mid);
}

/// A written sense is one object.
#[verifier::rlimit(40)]
proof fn lemma_scan_sense(w: Seq<char>, i: int, s: OutSenseView)
    requires
        outside(w, i),
        scan_upto(w, i as nat).depth >= 0,
        stands(w, i, sense_json(s)),
    ensures
        ({
            let j = (i + sense_json(s).len()) as nat;
            let st = scan_upto(w, i as nat);
            &&& outside(w, j as int)
            &&& scan_upto(w, j).depth == st.depth
            &&& st.depth > 0 ==> scan_upto(w, j).start == st.start
            &&& objects_upto(w, j) == if st.depth == 0 {
                objects_upto(w, i as nat).push(sense_json(s))
            } else {
                objects_upto(w, i as nat)
            }
        }),
{
    let st = scan_upto(w, i as nat);
    let x = sense_json(s);
    lemma_sense_shape(s);
    lemma_stands_cat(w, i, seq!['{'], from_part(s));
    lemma_at(w, i, seq!['{'], 0);
    let a = i + 1;
    assert(scan_upto(w, a as nat).depth == st.depth + 1);
    assert(objects_upto(w, a as nat) == objects_upto(w, i as nat));
    let mid = seq![':', '['] + number_list(s.from) + seq![']', ','];
    assert(from_part(s) =~= quoted("from"@) + (mid + text_part(s)));
    lemma_stands_cat(w, a, quoted("from"@), mid + text_part(s));
    lemma_scan_string(w, a, "from"@);
    let b = a + quoted("from"@).len();
    lemma_stands_cat(w, b, mid, text_part(s));
    lemma_scan_numbers(w, b, s.from);
    let c = b + mid.len();
    lemma_scan_texts(w, c, s);
    let z = c + text_part(s).len() - 1;
    assert(z + 1 == i + x.len());
    if st.depth == 0 {
        lemma_stands_part(w, i, x);
    }
}

// ───────────────────────── a reply ─────────────────────────

spec fn sense_objects(v: Seq<OutSenseView>) -> Seq<Seq<char>> {
    Seq::new(v.len(), |i: int| sense_json(v[i]))
}

/// Written senses are objects of their own where they are not within another.
proof fn lemma_scan_senses(w: Seq<char>, i: int, v: Seq<OutSenseView>, k: int)
    requires
        outside(w, i),
        scan_upto(w, i as nat).depth >= 0,
        0 <= k <= v.len(),
        stands(w, i, join(sense_objects(v).take(k), seq![','])),
    ensures
        ({
            let j = (i + join(sense_objects(v).take(k), seq![',']).len()) as nat;
            let st = scan_upto(w, i as nat);
            &&& outside(w, j as int)
            &&& scan_upto(w, j).depth == st.depth
            &&& st.depth > 0 ==> scan_upto(w, j).start == st.start
            &&& objects_upto(w, j) == if st.depth == 0 {
                objects_upto(w, i as nat) + sense_objects(v).take(k)
            } else {
                objects_upto(w, i as nat)
            }
        }),
    decreases k,
{
    let parts = sense_objects(v);
    let before = objects_upto(w, i as nat);
    if k == 0 {
        assert(parts.take(0) =~= Seq::<Seq<char>>::empty());
        assert(before + parts.take(0) =~= before);
    } else {
        lemma_join_step(parts, seq![','], k - 1);
        assert(parts.take(k) =~= parts.take(k - 1).push(parts[k - 1]));
        if k == 1 {
            lemma_scan_sense(w, i, v[0]);
            assert(before.push(parts[0]) =~= before + parts.take(1));
        } else {
            let a = join(parts.take(k - 1), seq![',']);
            lemma_stands_cat(w, i, a + seq![','], parts[k - 1]);
            lemma_stands_cat(w, i, a, seq![',']);
            lemma_scan_senses(w, i, v, k - 1);
            let j = i + a.len();
            lemma_scan_plain(w, j, seq![',']);
            lemma_scan_sense(w, j + 1, v[k - 1]);
            assert((before + parts.take(k - 1)).push(parts[k - 1]) =~= before + parts.take(k));
        }
    }
}

/// The objects of written senses describe them.
proof fn lemma_senses_among(v: Seq<OutSenseView>)
    requires
        forall|i: int| 0 <= i < v.len() ==> sense_writable(#[trigger] v[i]),
    ensures
        senses_among(sense_objects(v)) == v,
    decreases v.len(),
{
    if v.len() == 0 {
        assert(senses_among(sense_objects(v)) =~= v);
    } else {
        let u = v.drop_last();
        assert forall|i: int| 0 <= i < u.len() implies sense_writable(#[trigger] u[i]) by {
            assert(u[i] == v[i]);
        }
        lemma_senses_among(u);
        assert(sense_objects(v).drop_last() =~= sense_objects(u));
        assert(sense_writable(v[v.len() - 1]));
        lemma_sense_in(v.last());
        assert(senses_among(sense_objects(v)) =~= v);
    }
}

/// What follows the name of the senses in a written reply.
spec fn senses_part(o: OutView) -> Seq<char> {
    seq![':', '['] + (join(sense_objects(o.senses), seq![',']) + seq![']', '}'])
}

spec fn id_part(o: OutView) -> Seq<char> {
    seq![':'] + (decimal(o.id as nat) + seq![','])
}

#[verifier::rlimit(40)]
proof fn lemma_reply_shape(o: OutView)
    ensures
        reply_json(o) == seq!['{'] + (quoted("id"@) + (id_part(o) + (quoted("senses"@)
            + senses_part(o)))),
{
    lemma_keys();
    lemma_escaped_inert("id"@);
    lemma_escaped_inert("senses"@);
    reveal_strlit("id");
    reveal_strlit("senses");
    reveal_strlit("{\"id\":");
    reveal_strlit(",\"senses\":[");
    reveal_strlit("]}");
    let d = decimal(o.id as nat);
    let j = join(sense_objects(o.senses), seq![',']);
    assert(Seq::new(o.senses.len(), |i: int| sense_json(o.senses[i])) =~= sense_objects(o.senses));
    assert("{\"id\":"@ =~= seq!['{'] + quoted("id"@) + seq![':']);
    assert(",\"senses\":["@ =~= seq![','] + quoted("senses"@) + seq![':', '[']);
    assert("]}"@ =~= seq![']', '}']);
    let tail = quoted("senses"@) + senses_part(o);
    assert(",\"senses\":["@ + j + "]}"@ =~= seq![','] + tail);
    assert("{\"id\":"@ + d + (seq![','] + tail) =~= seq!['{'] + (quoted("id"@) + (id_part(o)
        + tail)));
    assert(reply_json(o) =~= "{\"id\":"@ + d + (",\"senses\":["@ + j + "]}"@));
}

/// The id of a written reply reads back.
proof fn lemma_reply_id(o: OutView)
    ensures
        number_field(reply_json(o), "id"@) == Some(o.id),
{
    lemma_keys();
    lemma_reply_shape(o);
    let d = decimal(o.id as nat);
    let tail = seq![','] + (quoted("senses"@) + senses_part(o));
    let b = quoted("id"@) + (seq![':'] + (d + tail));
    assert(reply_json(o) =~= seq!['{'] + b);
    lemma_clear_plain(seq!['{'], b, key_pattern("id"@));
    lemma_after_behind(seq!['{'], b, "id"@);
    lemma_first_key("id"@, d + tail);
    lemma_leading_number(o.id as nat, tail, u32::MAX as nat);
}

/// The senses of a written reply are found behind its id.
#[verifier::rlimit(40)]
proof fn lemma_senses_found(o: OutView)
    ensures
        find(reply_json(o), "\"senses\""@) matches Some(i) && reply_json(o).skip(i) == quoted(
            "senses"@,
        ) + senses_part(o),
{
    lemma_keys();
    lemma_reply_shape(o);
    lemma_escaped_inert("id"@);
    lemma_escaped_inert("senses"@);
    let d = decimal(o.id as nat);
    let w = quoted("senses"@) + senses_part(o);
    let a = seq!['{'] + (quoted("id"@) + id_part(o));
    let p = "\"senses\""@;
    reveal_strlit("\"senses\"");
    reveal_strlit("senses");
    reveal_strlit("id");
    assert(p =~= quoted("senses"@));
    lemma_decimal_reads_back(o.id as nat);
    assert(a =~= seq!['{', '"', 'i', 'd', '"', ':'] + d + seq![',']);
    assert forall|j: int| 0 <= j < a.len() && #[trigger] a[j] == '"' implies j + 1 < a.len()
        && a[j + 1] != p[1] by {
        if 6 <= j < d.len() + 6 {
            assert(a[j] == d[j - 6]);
            assert(is_digit_spec(d[j - 6]));
        }
    }
    assert(reply_json(o) =~= a + w);
    lemma_clear_plain(a, w, p);
    lemma_find_behind(a, w, p);
    assert(w.take(p.len() as int) =~= p);
    assert(find(w, p) == Some(0int));
    assert((a + w).skip(a.len() as int) =~= w);
}

/// The list of senses, up to the brace that closes the reply.
proof fn lemma_scan_list(w: Seq<char>, b: int, o: OutView)
    requires
        outside(w, b),
        scan_upto(w, b as nat).depth >= 0,
        stands(w, b, quoted("senses"@) + senses_part(o)),
    ensures
        ({
            let z = b + quoted("senses"@).len() + senses_part(o).len() - 1;
            let st = scan_upto(w, b as nat);
            &&& outside(w, z)
            &&& z < w.len() && w[z] == '}'
            &&& scan_upto(w, z as nat).depth == st.depth
            &&& st.depth > 0 ==> scan_upto(w, z as nat).start == st.start
            &&& objects_upto(w, z as nat) == if st.depth == 0 {
                objects_upto(w, b as nat) + sense_objects(o.senses)
            } else {
                objects_upto(w, b as nat)
            }
        }),
{
    let list = join(sense_objects(o.senses), seq![',']);
    let parts = sense_objects(o.senses);
    assert(parts.take(parts.len() as int) =~= parts);
    lemma_stands_cat(w, b, quoted("senses"@), senses_part(o));
    lemma_scan_string(w, b, "senses"@);
    let c = b + quoted("senses"@).len();
    lemma_stands_cat(w, c, seq![':', '['], list + seq![']', '}']);
    lemma_scan_plain(w, c, seq![':', '[']);
    lemma_stands_cat(w, c + 2, list, seq![']', '}']);
    lemma_scan_senses(w, c + 2, o.senses, parts.len() as int);
    let y = c + 2 + list.len();
    assert(seq![']', '}'] =~= seq![']'] + seq!['}']);
    lemma_stands_cat(w, y, seq![']'], seq!['}']);
    lemma_scan_plain(w, y, seq![']']);
    lemma_at(w, y + 1, seq!['}'], 0);
}

/// The senses of a written reply read back.
proof fn lemma_reply_senses(o: OutView)
    requires
        forall|i: int| 0 <= i < o.senses.len() ==> sense_writable(#[trigger] o.senses[i]),
    ensures
        senses_in(reply_json(o)) == o.senses,
{
    lemma_senses_found(o);
    let w = quoted("senses"@) + senses_part(o);
    let parts = sense_objects(o.senses);
    lemma_stands_whole(w);
    lemma_scan_list(w, 0, o);
    assert(objects_upto(w, 0) + parts =~= parts);
    assert(objects_in(w) == parts);
    lemma_senses_among(o.senses);
}

/// The id of a written reply, up to the name of its senses.
proof fn lemma_scan_id(w: Seq<char>, i: int, o: OutView)
    requires
        outside(w, i),
        stands(w, i, quoted("id"@) + id_part(o)),
    ensures
        idle(w, i, i + quoted("id"@).len() + id_part(o).len()),
{
    let d = decimal(o.id as nat);
    lemma_stands_cat(w, i, quoted("id"@), id_part(o));
    lemma_scan_string(w, i, "id"@);
    lemma_decimal_reads_back(o.id as nat);
    assert forall|k: int| 0 <= k < id_part(o).len() implies #[trigger] id_part(o)[k] != '"'
        && id_part(o)[k] != '{' && id_part(o)[k] != '}' by {
        if 1 <= k < d.len() + 1 {
            assert(id_part(o)[k] == d[k - 1]);
            assert(is_digit_spec(d[k - 1]));
        }
    }
    lemma_scan_plain(w, i + quoted("id"@).len(), id_part(o));
}

/// A written reply in square brackets is one object.
#[verifier::rlimit(40)]
proof fn lemma_reply_object(o: OutView)
    ensures
        objects_in(seq!['['] + reply_json(o) + seq![']']) == seq![reply_json(o)],
{
    let x = reply_json(o);
    let w = seq!['['] + x + seq![']'];
    let head = quoted("id"@) + id_part(o);
    let tail = quoted("senses"@) + senses_part(o);
    lemma_reply_shape(o);
    assert(x =~= seq!['{'] + (head + tail));
    lemma_stands_whole(w);
    lemma_stands_cat(w, 0, seq!['['] + x, seq![']']);
    lemma_stands_cat(w, 0, seq!['['], x);
    lemma_scan_plain(w, 0, seq!['[']);
    lemma_stands_cat(w, 1, seq!['{'], head + tail);
    lemma_at(w, 1, seq!['{'], 0);
    assert(scan_upto(w, 1) == (ScanView { depth: 0, start: 0, in_str: false, escape: false }));
    assert(scan_upto(w, 2) == (ScanView { depth: 1, start: 1, in_str: false, escape: false }));
    assert(objects_upto(w, 2) =~= Seq::<Seq<char>>::empty());
    lemma_stands_cat(w, 2, head, tail);
    lemma_scan_id(w, 2, o);
    let b = 2 + head.len() as int;
    lemma_scan_list(w, b, o);
    let z = b + tail.len() - 1;
    assert(z + 1 == x.len() + 1);
    lemma_stands_part(w, 1, x);
    assert(objects_upto(w, (z + 1) as nat) =~= seq![x]);
    assert(w.len() == z + 2);
    lemma_at(w, z + 1, seq![']'], 0);
    assert(objects_upto(w, (z + 2) as nat) == objects_upto(w, (z + 1) as nat));
}

/// A text in square brackets has no fence to take off.
proof fn lemma_no_fence(x: Seq<char>)
    ensures
        fence_stripped(seq!['['] + x + seq![']']) == seq!['['] + x + seq![']'],
{
    let w = seq!['['] + x + seq![']'];
    reveal_strlit("```json");
    reveal_strlit("```");
    assert(w[0] == '[' && w.last() == ']');
    assert(trim_start_by(w, Space) == w);
    assert(trimmed(w) == w);
    assert("```json"@.len() == 7 && "```json"@[0] == '`');
    assert("```"@.len() == 3 && "```"@[0] == '`' && "```"@[2] == '`');
    if starts_with(w, "```json"@) {
        assert(w.take(7)[0] == '`');
    }
    if starts_with(w, "```"@) {
        assert(w.take(3)[0] == '`');
    }
    if w.len() >= 3 && w.skip(w.len() - 3) == "```"@ {
        assert(w.skip(w.len() - 3)[2] == '`');
    }
}

/// Senses that name only what the source has are all kept.
proof fn lemma_all_within(v: Seq<OutSenseView>, n: nat)
    requires
        forall|i: int| 0 <= i < v.len() ==> within(#[trigger] v[i], n),
    ensures
        senses_within(v, n) == v,
    decreases v.len(),
{
    if v.len() > 0 {
        let u = v.drop_last();
        assert forall|i: int| 0 <= i < u.len() implies within(#[trigger] u[i], n) by {
            assert(u[i] == v[i]);
        }
        lemma_all_within(u, n);
        assert(within(v[v.len() - 1], n));
        assert(u.push(v.last()) =~= v);
    }
}

/// What is written of a reply reads back: as a line of the result file it has its id and its
/// senses, and in square brackets it is the reply itself, to a batch that sent the entry with
/// all the senses that it names. The texts must be writable, and a sense must not be blank.
pub proof fn law_replies_read_back(o: OutView, sent: Map<u32, usize>)
    requires
        o.senses.len() > 0,
        forall|i: int| 0 <= i < o.senses.len() ==> sense_writable(#[trigger] o.senses[i]),
        sent.contains_key(o.id),
        forall|i: int|
            0 <= i < o.senses.len() ==> within(#[trigger] o.senses[i], sent[o.id] as nat),
    ensures
        number_field(reply_json(o), "id"@) == Some(o.id),
        senses_in(reply_json(o)) == o.senses,
        replies_in(seq!['['] + reply_json(o) + seq![']'], sent) == seq![o],
{
    lemma_reply_id(o);
    lemma_reply_senses(o);
    lemma_reply_object(o);
    lemma_no_fence(reply_json(o));
    lemma_all_within(o.senses, sent[o.id] as nat);
    let objs = seq![reply_json(o)];
    assert(objs.drop_last() =~= Seq::<Seq<char>>::empty());
    assert(replies_among(objs.drop_last(), sent) =~= Seq::<OutView>::empty());
    assert(objs.last() == reply_json(o));
    assert(replies_among(objs, sent) =~= seq![o]);
}

/// A line with sound senses is imported: what was written of a reply that passes the verdict
/// on its entry is kept, with the part of speech of the entry.
pub proof fn law_sound_replies_are_imported(v: StoreView, a: ImportView, o: OutView, e: EntryView)
    requires
        entry_result(v, o.id) == Ok::<EntryView, StoreError>(e),
        forall|i: int| 0 <= i < o.senses.len() ==> sense_writable(#[trigger] o.senses[i]),
        verdict(e.senses.len(), o.senses) == Verdict::Kept,
    ensures
        import_line(v, a, reply_json(o)) == (ImportView {
            total: a.total + 1,
            kept: a.kept.push((o.id, stored_senses(e.pos, o.senses))),
            ..a
        }),
{
    lemma_reply_id(o);
    lemma_reply_senses(o);
    lemma_reply_shape(o);
    let x = reply_json(o);
    assert(x[0] == '{');
    assert(trim_start_by(x, Space) == x);
    lemma_trim_end_keeps(x);
}

/// White space at the end is all that trimming the end takes off.
proof fn lemma_trim_end_keeps(x: Seq<char>)
    requires
        x.len() > 0,
        !is_space_spec(x[0]),
    ensures
        trim_end_by(x, Space).len() > 0,
    decreases x.len(),
{
    if is_space_spec(x.last()) {
        assert(x.drop_last()[0] == x[0]);
        lemma_trim_end_keeps(x.drop_last());
    }
}

// ───────────────────────── a task ─────────────────────────

spec fn one_line(s: Seq<char>) -> bool {
    forall|i: int| 0 <= i < s.len() ==> #[trigger] s[i] != '\n'
}

proof fn lemma_one_line_cat(a: Seq<char>, b: Seq<char>)
    requires
        one_line(a),
        one_line(b),
    ensures
        one_line(a + b),
{
    assert forall|i: int| 0 <= i < (a + b).len() implies #[trigger] (a + b)[i] != '\n' by {
        if i < a.len() {
            assert((a + b)[i] == a[i]);
        } else {
            assert((a + b)[i] == b[i - a.len()]);
        }
    }
}

spec fn quoted_each(v: Seq<Seq<char>>) -> Seq<Seq<char>> {
    Seq::new(v.len(), |i: int| seq!['"'] + escaped(v[i]) + seq!['"'])
}

proof fn lemma_one_line_list(v: Seq<Seq<char>>, k: int)
    requires
        0 <= k <= v.len(),
    ensures
        one_line(join(quoted_each(v).take(k), seq![','])),
    decreases k,
{
    if k == 0 {
        assert(quoted_each(v).take(0) =~= Seq::<Seq<char>>::empty());
    } else {
        lemma_one_line_list(v, k - 1);
        lemma_join_step(quoted_each(v), seq![','], k - 1);
        lemma_escaped_quotes(v[k - 1]);
        lemma_one_line_cat(seq!['"'], escaped(v[k - 1]));
        lemma_one_line_cat(seq!['"'] + escaped(v[k - 1]), seq!['"']);
        if k > 1 {
            let a = join(quoted_each(v).take(k - 1), seq![',']);
            lemma_one_line_cat(a, seq![',']);
            lemma_one_line_cat(a + seq![','], quoted_each(v)[k - 1]);
        }
    }
}

/// A task is one line, whatever its texts hold, and its id reads back from the line.
#[verifier::rlimit(40)]
pub proof fn law_tasks_are_lines(
    id: u32,
    word: Seq<char>,
    pos: Seq<char>,
    src: Seq<Seq<char>>,
    ex: Seq<Seq<char>>,
)
    ensures
        number_field(task_json(id, word, pos, src, ex), "id"@) == Some(id),
        forall|i: int|
            0 <= i < task_json(id, word, pos, src, ex).len() ==> #[trigger] task_json(
                id,
                word,
                pos,
                src,
                ex,
            )[i] != '\n',
{
    let d = decimal(id as nat);
    let l0 = "{\"id\":"@;
    let l1 = ",\"w\":\""@;
    let l2 = "\",\"pos\":\""@;
    let l3 = "\",\"src\":["@;
    let l4 = "],\"ex\":["@;
    let l5 = "]}"@;
    reveal_strlit("{\"id\":");
    reveal_strlit(",\"w\":\"");
    reveal_strlit("\",\"pos\":\"");
    reveal_strlit("\",\"src\":[");
    reveal_strlit("],\"ex\":[");
    reveal_strlit("]}");
    assert(one_line(l0) && one_line(l1) && one_line(l2) && one_line(l3) && one_line(l4)
        && one_line(l5));
    lemma_decimal_reads_back(id as nat);
    assert forall|i: int| 0 <= i < d.len() implies #[trigger] d[i] != '\n' by {
        assert(is_digit_spec(d[i]));
    }
    lemma_escaped_quotes(word);
    lemma_escaped_quotes(pos);
    assert(quoted_each(src).take(src.len() as int) =~= quoted_each(src));
    assert(quoted_each(ex).take(ex.len() as int) =~= quoted_each(ex));
    lemma_one_line_list(src, src.len() as int);
    lemma_one_line_list(ex, ex.len() as int);
    lemma_one_line_cat(l0, d);
    lemma_one_line_cat(l0 + d, l1);
    let a = l0 + d + l1;
    lemma_one_line_cat(a, escaped(word));
    lemma_one_line_cat(a + escaped(word), l2);
    let b = a + escaped(word) + l2;
    lemma_one_line_cat(b, escaped(pos));
    lemma_one_line_cat(b + escaped(pos), l3);
    let c = b + escaped(pos) + l3;
    lemma_one_line_cat(c, json_list(src));
    lemma_one_line_cat(c + json_list(src), l4);
    let e = c + json_list(src) + l4;
    lemma_one_line_cat(e, json_list(ex));
    lemma_one_line_cat(e + json_list(ex), l5);
    let s = task_json(id, word, pos, src, ex);
    assert(s == e + json_list(ex) + l5);
    assert(e =~= a + (escaped(word) + l2 + escaped(pos) + l3 + json_list(src) + l4));
    assert(s.take(a.len() as int) =~= a);
    lemma_task_id(s, id);
}

/// The id that opens a line reads back.
proof fn lemma_task_id(s: Seq<char>, id: u32)
    requires
        starts_with(s, "{\"id\":"@ + decimal(id as nat) + ",\"w\":\""@),
    ensures
        number_field(s, "id"@) == Some(id),
{
    lemma_keys();
    lemma_escaped_inert("id"@);
    reveal_strlit("id");
    reveal_strlit("{\"id\":");
    reveal_strlit(",\"w\":\"");
    let d = decimal(id as nat);
    let head = "{\"id\":"@ + d + ",\"w\":\""@;
    let tail = ",\"w\":\""@ + s.skip(head.len() as int);
    let b = quoted("id"@) + (seq![':'] + (d + tail));
    assert(s =~= head + s.skip(head.len() as int));
    assert("{\"id\":"@ =~= seq!['{'] + quoted("id"@) + seq![':']);
    assert(s =~= seq!['{'] + b);
    lemma_clear_plain(seq!['{'], b, key_pattern("id"@));
    lemma_after_behind(seq!['{'], b, "id"@);
    lemma_first_key("id"@, d + tail);
    lemma_leading_number(id as nat, tail, u32::MAX as nat);
}

/// A written string is passed over up to its closing quote.
proof fn lemma_strings_behind(t: Seq<char>, b: Seq<char>)
    ensures
        strings_ahead(escaped(t) + (seq!['"'] + b), true) == strings_ahead(b, false),
    decreases t.len(),
{
    let q = seq!['"'] + b;
    let s = escaped(t) + q;
    if t.len() == 0 {
        assert(s =~= q);
        assert(q.drop_first() =~= b);
    } else {
        lemma_escaped_front(t);
        let u = t.drop_first();
        let e = escaped_char(t[0]);
        let r = escaped(u) + q;
        lemma_strings_behind(u, b);
        assert(s =~= e + r);
        if e.len() == 2 {
            assert(s[0] == '\\');
            assert(s.skip(2) =~= r);
        } else if e.len() == 1 {
            assert(s[0] == e[0]);
            assert(s.drop_first() =~= r);
        } else {
            assert(s =~= r);
        }
    }
}

/// A written list of strings has as many as were written.
proof fn lemma_strings_of_list(v: Seq<Seq<char>>, b: Seq<char>)
    ensures
        strings_ahead(json_list(v) + (seq![']'] + b), false) == v.len(),
    decreases v.len(),
{
    let z = seq![']'] + b;
    let parts = quoted_each(v);
    let s = json_list(v) + z;
    assert(json_list(v) == join(parts, seq![',']));
    if v.len() == 0 {
        assert(s =~= z);
    } else {
        let rest = if v.len() == 1 {
            z
        } else {
            seq![','] + (json_list(v.drop_first()) + z)
        };
        if v.len() > 1 {
            lemma_join_front(parts, seq![',']);
            assert(parts.drop_first() =~= quoted_each(v.drop_first()));
            assert(s =~= parts[0] + rest);
            lemma_strings_of_list(v.drop_first(), b);
            assert(rest.drop_first() =~= json_list(v.drop_first()) + z);
        } else {
            assert(join(parts, seq![',']) == parts[0]);
            assert(s =~= parts[0] + rest);
        }
        assert(s[0] == '"');
        assert(s.drop_first() =~= escaped(v[0]) + (seq!['"'] + rest));
        lemma_strings_behind(v[0], rest);
        assert(strings_ahead(rest, false) == v.len() - 1);
    }
}

proof fn lemma_task_keys()
    ensures
        inert("w"@) && inert("pos"@) && inert("src"@),
        "src"@.len() == 3 && "src"@[0] == 's',
        "src"@ != "w"@ && "src"@ != "pos"@,
        ",\"w\":\""@ == seq![','] + quoted("w"@) + seq![':', '"'],
        "\",\"pos\":\""@ == seq!['"', ','] + quoted("pos"@) + seq![':', '"'],
        "\",\"src\":["@ == seq!['"', ','] + quoted("src"@) + seq![':', '['],
{
    reveal_strlit("w");
    reveal_strlit("pos");
    reveal_strlit("src");
    reveal_strlit(",\"w\":\"");
    reveal_strlit("\",\"pos\":\"");
    reveal_strlit("\",\"src\":[");
    assert("pos"@[0] == 'p');
    assert("w"@[0] == 'w');
    lemma_escaped_inert("w"@);
    lemma_escaped_inert("pos"@);
    lemma_escaped_inert("src"@);
    assert(",\"w\":\""@ =~= seq![','] + quoted("w"@) + seq![':', '"']);
    assert("\",\"pos\":\""@ =~= seq!['"', ','] + quoted("pos"@) + seq![':', '"']);
    assert("\",\"src\":["@ =~= seq!['"', ','] + quoted("src"@) + seq![':', '[']);
}

/// What follows the senses in a written task.
spec fn task_tail(ex: Seq<Seq<char>>) -> Seq<char> {
    ",\"ex\":["@ + json_list(ex) + "]}"@
}

/// A written task from its senses on.
spec fn task_src(src: Seq<Seq<char>>, ex: Seq<Seq<char>>) -> Seq<char> {
    quoted("src"@) + (seq![':'] + (seq!['['] + (json_list(src) + (seq![']'] + task_tail(ex)))))
}

/// Texts put together in another order of brackets.
proof fn lemma_task_brackets(
    h: Seq<char>,
    w: Seq<char>,
    ew: Seq<char>,
    p: Seq<char>,
    ep: Seq<char>,
    rest: Seq<char>,
)
    ensures
        h + w + ew + p + ep + rest == h + (w + ew + (p + ep + rest)),
{
    assert(h + w + ew + p + ep + rest =~= h + (w + ew + (p + ep + rest)));
}

proof fn lemma_src_shape(src: Seq<Seq<char>>, ex: Seq<Seq<char>>)
    ensures
        "\",\"src\":["@ + json_list(src) + "],\"ex\":["@ + json_list(ex) + "]}"@ == seq!['"'] + (
        seq![','] + task_src(src, ex)),
{
    lemma_task_keys();
    reveal_strlit("],\"ex\":[");
    reveal_strlit(",\"ex\":[");
    assert("],\"ex\":["@ =~= seq![']'] + ",\"ex\":["@);
    let a = json_list(src);
    let b = json_list(ex);
    let q = quoted("src"@);
    let m = ",\"ex\":["@;
    let z = "]}"@;
    assert(seq!['"', ','] + q + seq![':', '['] + a + (seq![']'] + m) + b + z =~= seq!['"'] + (
    seq![','] + (q + (seq![':'] + (seq!['['] + (a + (seq![']'] + (m + b + z))))))));
}

proof fn lemma_task_shape(
    id: u32,
    word: Seq<char>,
    pos: Seq<char>,
    src: Seq<Seq<char>>,
    ex: Seq<Seq<char>>,
)
    ensures
        task_json(id, word, pos, src, ex) == "{\"id\":"@ + decimal(id as nat) + (seq![',']
            + member("w"@, word, seq![','] + member("pos"@, pos, seq![','] + task_src(src, ex)))),
{
    let h = "{\"id\":"@ + decimal(id as nat);
    let w = ",\"w\":\""@;
    let p = "\",\"pos\":\""@;
    let x = "\",\"src\":["@;
    let m = "],\"ex\":["@;
    let z = "]}"@;
    let rest = x + json_list(src) + m + json_list(ex) + z;
    let c = task_src(src, ex);
    let b = member("pos"@, pos, seq![','] + c);
    lemma_task_keys();
    lemma_src_shape(src, ex);
    assert(task_json(id, word, pos, src, ex) =~= h + w + escaped(word) + p + escaped(pos) + rest);
    lemma_task_brackets(h, w, escaped(word), p, escaped(pos), rest);
    lemma_member_shape(p, seq!['"', ','], "pos"@, pos, seq![','] + c);
    assert(p + escaped(pos) + rest =~= seq!['"'] + (seq![','] + b));
    lemma_member_shape(w, seq![','], "w"@, word, seq![','] + b);
}

/// A written task tells how many senses it was written with.
pub proof fn law_tasks_tell_their_senses(
    id: u32,
    word: Seq<char>,
    pos: Seq<char>,
    src: Seq<Seq<char>>,
    ex: Seq<Seq<char>>,
)
    ensures
        strings_under(task_json(id, word, pos, src, ex), "src"@) == src.len(),
{
    lemma_task_keys();
    lemma_task_shape(id, word, pos, src, ex);
    let d = decimal(id as nat);
    let c = task_src(src, ex);
    let b = member("pos"@, pos, seq![','] + c);
    let a = member("w"@, word, seq![','] + b);
    let l = "{\"id\":"@;
    let h = l + d + seq![','];
    assert(l + d + (seq![','] + a) =~= h + a);
    lemma_task_head(id);
    lemma_clear_plain(h, a, key_pattern("src"@));
    lemma_after_behind(h, a, "src"@);
    lemma_member_behind("w"@, word, seq![','] + b, "src"@);
    assert((seq![','] + b).drop_first() =~= b);
    lemma_member_behind("pos"@, pos, seq![','] + c, "src"@);
    assert((seq![','] + c).drop_first() =~= c);
    let list = json_list(src) + (seq![']'] + task_tail(ex));
    lemma_first_key("src"@, seq!['['] + list);
    assert((seq!['['] + list).drop_first() =~= list);
    lemma_strings_of_list(src, task_tail(ex));
}

/// What opens a written task mentions no senses.
proof fn lemma_task_head(id: u32)
    ensures
        ({
            let h = "{\"id\":"@ + decimal(id as nat) + seq![','];
            let p = key_pattern("src"@);
            &&& p.len() >= 2 && p[0] == '"' && p[1] == 's'
            &&& forall|j: int|
                0 <= j < h.len() && #[trigger] h[j] == '"' ==> j + 1 < h.len() && h[j + 1] != p[1]
        }),
{
    let d = decimal(id as nat);
    let h = "{\"id\":"@ + d + seq![','];
    let p = key_pattern("src"@);
    lemma_task_keys();
    reveal_strlit("{\"id\":");
    lemma_decimal_reads_back(id as nat);
    assert forall|j: int| 0 <= j < h.len() && #[trigger] h[j] == '"' implies j + 1 < h.len()
        && h[j + 1] != p[1] by {
        if 6 <= j && j < 6 + d.len() {
            assert(is_digit_spec(d[j - 6]));
        }
    }
}

} // verus!
