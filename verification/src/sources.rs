//! What the sources beside the dictionaries give: parts of speech, variants of characters,
//! sentence pairs, and the examples that headwords get of them.
use crate::attach::{
    en_attached, en_examples, en_slot, zh_attached, zh_examples, zh_found, zh_slot, zh_vocab,
};
use crate::bytes::bytes_less;
use crate::cedict::{long_tokens, RawZhView};
use crate::corpus::{
    all_spellings, char_order, codepoint, english_words, link_line, links_from, loaded_pairs,
    longest, longest_upto, noted, others, pairs_upto, pos_name, reach, sentence_line, sentences,
    sentences_among, shortest_first, spellings_upto, swapped, targets, variant_line, zh_lengths,
    Variants,
};
use crate::english::RawEnView;
use crate::glosses::lemma_long_cat;
use crate::letters::lowercase;
use crate::model::{EntryView, ExampleView};
use crate::number::parsed_nat;
use crate::order::{law_keys_can_be_ordered, lemma_perm_reaches, stable_order, stable_perm};
use crate::sorted::{
    is_sorted_set, law_sorted_texts_are_sorted, number_order, text_less, text_order,
};
use crate::text::{
    lacks, lemma_split_cat, lemma_until_is, split_by, starts_with, trimmed, until, words_of,
    CharClass, NotLatin, One,
};
use vstd::prelude::*;
use vstd::string::*;

verus! {

// ───────────────────────── parts of speech ─────────────────────────

/// What the corpus calls each part of speech, and what the dictionary calls it; a tag that is
/// not listed has no name.
pub proof fn law_parts_of_speech_are_named(t: Seq<char>)
    ensures
        (t == seq!['n'] || t == seq!['n', 'r'] || t == seq!['n', 's'] || t == seq!['n', 't']
            || t == seq!['n', 'z'] || t == seq!['n', 'r', 't']
            || t == seq!['n', 'r', 'f', 'g'] || t == seq!['n', 'g']) ==> pos_name(t) == seq!['名'],
        (t == seq!['v'] || t == seq!['v', 'd'] || t == seq!['v', 'n'] || t == seq!['v', 'f']
            || t == seq!['v', 'x'] || t == seq!['v', 'i'] || t == seq!['v', 'l']
            || t == seq!['v', 'g']) ==> pos_name(t) == seq!['动'],
        (t == seq!['a'] || t == seq!['a', 'd'] || t == seq!['a', 'n'] || t == seq!['a', 'g']
            || t == seq!['a', 'l']) ==> pos_name(t) == seq!['形'],
        (t == seq!['d'] || t == seq!['d', 'f'] || t == seq!['d', 'g']) ==> pos_name(t) == seq!['副'],
        (t == seq!['m'] || t == seq!['m', 'q']) ==> pos_name(t) == seq!['数'],
        (t == seq!['q']) ==> pos_name(t) == seq!['量'],
        (t == seq!['r'] || t == seq!['r', 'r'] || t == seq!['r', 'z'] || t == seq!['r', 't']
            || t == seq!['r', 'y'] || t == seq!['r', 'g']) ==> pos_name(t) == seq!['代'],
        (t == seq!['p'] || t == seq!['p', 'b', 'a']
            || t == seq!['p', 'b', 'e', 'i']) ==> pos_name(t) == seq!['介'],
        (t == seq!['c'] || t == seq!['c', 'c']) ==> pos_name(t) == seq!['连'],
        (t == seq!['u'] || t == seq!['u', 'j'] || t == seq!['u', 'd'] || t == seq!['u', 'g']
            || t == seq!['u', 'l'] || t == seq!['u', 'v']
            || t == seq!['u', 'z']) ==> pos_name(t) == seq!['助'],
        (t == seq!['i']) ==> pos_name(t) == seq!['成', '语'],
        (t == seq!['l']) ==> pos_name(t) == seq!['习', '语'],
        (t == seq!['j']) ==> pos_name(t) == seq!['简', '称'],
        (t == seq!['t'] || t == seq!['t', 'g']) ==> pos_name(t) == seq!['时', '间'],
        (t == seq!['s']) ==> pos_name(t) == seq!['处', '所'],
        (t == seq!['f']) ==> pos_name(t) == seq!['方', '位'],
        (t == seq!['b']) ==> pos_name(t) == seq!['区', '别'],
        (t == seq!['z']) ==> pos_name(t) == seq!['状', '态'],
        (t == seq!['y']) ==> pos_name(t) == seq!['语', '气'],
        (t == seq!['e']) ==> pos_name(t) == seq!['叹'],
        (t == seq!['o']) ==> pos_name(t) == seq!['拟', '声'],
        (t == seq!['h']) ==> pos_name(t) == seq!['前', '缀'],
        (t == seq!['k']) ==> pos_name(t) == seq!['后', '缀'],
        pos_name(t).len() > 0 ==> (
            t == seq!['n'] || t == seq!['n', 'r'] || t == seq!['n', 's']
            || t == seq!['n', 't'] || t == seq!['n', 'z'] || t == seq!['n', 'r', 't']
            || t == seq!['n', 'r', 'f', 'g'] || t == seq!['n', 'g'] || t == seq!['v']
            || t == seq!['v', 'd'] || t == seq!['v', 'n'] || t == seq!['v', 'f']
            || t == seq!['v', 'x'] || t == seq!['v', 'i'] || t == seq!['v', 'l']
            || t == seq!['v', 'g'] || t == seq!['a'] || t == seq!['a', 'd']
            || t == seq!['a', 'n'] || t == seq!['a', 'g'] || t == seq!['a', 'l']
            || t == seq!['d'] || t == seq!['d', 'f'] || t == seq!['d', 'g'] || t == seq!['m']
            || t == seq!['m', 'q'] || t == seq!['q'] || t == seq!['r'] || t == seq!['r', 'r']
            || t == seq!['r', 'z'] || t == seq!['r', 't'] || t == seq!['r', 'y']
            || t == seq!['r', 'g'] || t == seq!['p'] || t == seq!['p', 'b', 'a']
            || t == seq!['p', 'b', 'e', 'i'] || t == seq!['c'] || t == seq!['c', 'c']
            || t == seq!['u'] || t == seq!['u', 'j'] || t == seq!['u', 'd']
            || t == seq!['u', 'g'] || t == seq!['u', 'l'] || t == seq!['u', 'v']
            || t == seq!['u', 'z'] || t == seq!['i'] || t == seq!['l'] || t == seq!['j']
            || t == seq!['t'] || t == seq!['t', 'g'] || t == seq!['s'] || t == seq!['f']
            || t == seq!['b'] || t == seq!['z'] || t == seq!['y'] || t == seq!['e']
            || t == seq!['o'] || t == seq!['h'] || t == seq!['k']),
{
    reveal_strlit("n");
    reveal_strlit("nr");
    reveal_strlit("ns");
    reveal_strlit("nt");
    reveal_strlit("nz");
    reveal_strlit("nrt");
    reveal_strlit("nrfg");
    reveal_strlit("ng");
    reveal_strlit("v");
    reveal_strlit("vd");
    reveal_strlit("vn");
    reveal_strlit("vf");
    reveal_strlit("vx");
    reveal_strlit("vi");
    reveal_strlit("vl");
    reveal_strlit("vg");
    reveal_strlit("a");
    reveal_strlit("ad");
    reveal_strlit("an");
    reveal_strlit("ag");
    reveal_strlit("al");
    reveal_strlit("d");
    reveal_strlit("df");
    reveal_strlit("dg");
    reveal_strlit("m");
    reveal_strlit("mq");
    reveal_strlit("q");
    reveal_strlit("r");
    reveal_strlit("rr");
    reveal_strlit("rz");
    reveal_strlit("rt");
    reveal_strlit("ry");
    reveal_strlit("rg");
    reveal_strlit("p");
    reveal_strlit("pba");
    reveal_strlit("pbei");
    reveal_strlit("c");
    reveal_strlit("cc");
    reveal_strlit("u");
    reveal_strlit("uj");
    reveal_strlit("ud");
    reveal_strlit("ug");
    reveal_strlit("ul");
    reveal_strlit("uv");
    reveal_strlit("uz");
    reveal_strlit("i");
    reveal_strlit("l");
    reveal_strlit("j");
    reveal_strlit("t");
    reveal_strlit("tg");
    reveal_strlit("s");
    reveal_strlit("f");
    reveal_strlit("b");
    reveal_strlit("z");
    reveal_strlit("y");
    reveal_strlit("e");
    reveal_strlit("o");
    reveal_strlit("h");
    reveal_strlit("k");
    reveal_strlit("名");
    reveal_strlit("动");
    reveal_strlit("形");
    reveal_strlit("副");
    reveal_strlit("数");
    reveal_strlit("量");
    reveal_strlit("代");
    reveal_strlit("介");
    reveal_strlit("连");
    reveal_strlit("助");
    reveal_strlit("成语");
    reveal_strlit("习语");
    reveal_strlit("简称");
    reveal_strlit("时间");
    reveal_strlit("处所");
    reveal_strlit("方位");
    reveal_strlit("区别");
    reveal_strlit("状态");
    reveal_strlit("语气");
    reveal_strlit("叹");
    reveal_strlit("拟声");
    reveal_strlit("前缀");
    reveal_strlit("后缀");
    reveal_strlit("");
    assert("n"@ =~= seq!['n']);
    assert("nr"@ =~= seq!['n', 'r']);
    assert("ns"@ =~= seq!['n', 's']);
    assert("nt"@ =~= seq!['n', 't']);
    assert("nz"@ =~= seq!['n', 'z']);
    assert("nrt"@ =~= seq!['n', 'r', 't']);
    assert("nrfg"@ =~= seq!['n', 'r', 'f', 'g']);
    assert("ng"@ =~= seq!['n', 'g']);
    assert("v"@ =~= seq!['v']);
    assert("vd"@ =~= seq!['v', 'd']);
    assert("vn"@ =~= seq!['v', 'n']);
    assert("vf"@ =~= seq!['v', 'f']);
    assert("vx"@ =~= seq!['v', 'x']);
    assert("vi"@ =~= seq!['v', 'i']);
    assert("vl"@ =~= seq!['v', 'l']);
    assert("vg"@ =~= seq!['v', 'g']);
    assert("a"@ =~= seq!['a']);
    assert("ad"@ =~= seq!['a', 'd']);
    assert("an"@ =~= seq!['a', 'n']);
    assert("ag"@ =~= seq!['a', 'g']);
    assert("al"@ =~= seq!['a', 'l']);
    assert("d"@ =~= seq!['d']);
    assert("df"@ =~= seq!['d', 'f']);
    assert("dg"@ =~= seq!['d', 'g']);
    assert("m"@ =~= seq!['m']);
    assert("mq"@ =~= seq!['m', 'q']);
    assert("q"@ =~= seq!['q']);
    assert("r"@ =~= seq!['r']);
    assert("rr"@ =~= seq!['r', 'r']);
    assert("rz"@ =~= seq!['r', 'z']);
    assert("rt"@ =~= seq!['r', 't']);
    assert("ry"@ =~= seq!['r', 'y']);
    assert("rg"@ =~= seq!['r', 'g']);
    assert("p"@ =~= seq!['p']);
    assert("pba"@ =~= seq!['p', 'b', 'a']);
    assert("pbei"@ =~= seq!['p', 'b', 'e', 'i']);
    assert("c"@ =~= seq!['c']);
    assert("cc"@ =~= seq!['c', 'c']);
    assert("u"@ =~= seq!['u']);
    assert("uj"@ =~= seq!['u', 'j']);
    assert("ud"@ =~= seq!['u', 'd']);
    assert("ug"@ =~= seq!['u', 'g']);
    assert("ul"@ =~= seq!['u', 'l']);
    assert("uv"@ =~= seq!['u', 'v']);
    assert("uz"@ =~= seq!['u', 'z']);
    assert("i"@ =~= seq!['i']);
    assert("l"@ =~= seq!['l']);
    assert("j"@ =~= seq!['j']);
    assert("t"@ =~= seq!['t']);
    assert("tg"@ =~= seq!['t', 'g']);
    assert("s"@ =~= seq!['s']);
    assert("f"@ =~= seq!['f']);
    assert("b"@ =~= seq!['b']);
    assert("z"@ =~= seq!['z']);
    assert("y"@ =~= seq!['y']);
    assert("e"@ =~= seq!['e']);
    assert("o"@ =~= seq!['o']);
    assert("h"@ =~= seq!['h']);
    assert("k"@ =~= seq!['k']);
    assert("名"@ =~= seq!['名']);
    assert("动"@ =~= seq!['动']);
    assert("形"@ =~= seq!['形']);
    assert("副"@ =~= seq!['副']);
    assert("数"@ =~= seq!['数']);
    assert("量"@ =~= seq!['量']);
    assert("代"@ =~= seq!['代']);
    assert("介"@ =~= seq!['介']);
    assert("连"@ =~= seq!['连']);
    assert("助"@ =~= seq!['助']);
    assert("成语"@ =~= seq!['成', '语']);
    assert("习语"@ =~= seq!['习', '语']);
    assert("简称"@ =~= seq!['简', '称']);
    assert("时间"@ =~= seq!['时', '间']);
    assert("处所"@ =~= seq!['处', '所']);
    assert("方位"@ =~= seq!['方', '位']);
    assert("区别"@ =~= seq!['区', '别']);
    assert("状态"@ =~= seq!['状', '态']);
    assert("语气"@ =~= seq!['语', '气']);
    assert("叹"@ =~= seq!['叹']);
    assert("拟声"@ =~= seq!['拟', '声']);
    assert("前缀"@ =~= seq!['前', '缀']);
    assert("后缀"@ =~= seq!['后', '缀']);
    assert("n"@[0] == 'n');
    assert("nr"@[0] == 'n');
    assert("ns"@[0] == 'n');
    assert("nt"@[0] == 'n');
    assert("nz"@[0] == 'n');
    assert("nrt"@[0] == 'n');
    assert("nrfg"@[0] == 'n');
    assert("ng"@[0] == 'n');
    assert("v"@[0] == 'v');
    assert("vd"@[0] == 'v');
    assert("vn"@[0] == 'v');
    assert("vf"@[0] == 'v');
    assert("vx"@[0] == 'v');
    assert("vi"@[0] == 'v');
    assert("vl"@[0] == 'v');
    assert("vg"@[0] == 'v');
    assert("a"@[0] == 'a');
    assert("ad"@[0] == 'a');
    assert("an"@[0] == 'a');
    assert("ag"@[0] == 'a');
    assert("al"@[0] == 'a');
    assert("d"@[0] == 'd');
    assert("df"@[0] == 'd');
    assert("dg"@[0] == 'd');
    assert("m"@[0] == 'm');
    assert("mq"@[0] == 'm');
    assert("q"@[0] == 'q');
    assert("r"@[0] == 'r');
    assert("rr"@[0] == 'r');
    assert("rz"@[0] == 'r');
    assert("rt"@[0] == 'r');
    assert("ry"@[0] == 'r');
    assert("rg"@[0] == 'r');
    assert("p"@[0] == 'p');
    assert("pba"@[0] == 'p');
    assert("pbei"@[0] == 'p');
    assert("c"@[0] == 'c');
    assert("cc"@[0] == 'c');
    assert("u"@[0] == 'u');
    assert("uj"@[0] == 'u');
    assert("ud"@[0] == 'u');
    assert("ug"@[0] == 'u');
    assert("ul"@[0] == 'u');
    assert("uv"@[0] == 'u');
    assert("uz"@[0] == 'u');
    assert("i"@[0] == 'i');
    assert("l"@[0] == 'l');
    assert("j"@[0] == 'j');
    assert("t"@[0] == 't');
    assert("tg"@[0] == 't');
    assert("s"@[0] == 's');
    assert("f"@[0] == 'f');
    assert("b"@[0] == 'b');
    assert("z"@[0] == 'z');
    assert("y"@[0] == 'y');
    assert("e"@[0] == 'e');
    assert("o"@[0] == 'o');
    assert("h"@[0] == 'h');
    assert("k"@[0] == 'k');
    assert(seq!['n'][0] == 'n');
    assert(seq!['n', 'r'][0] == 'n');
    assert(seq!['n', 's'][0] == 'n');
    assert(seq!['n', 't'][0] == 'n');
    assert(seq!['n', 'z'][0] == 'n');
    assert(seq!['n', 'r', 't'][0] == 'n');
    assert(seq!['n', 'r', 'f', 'g'][0] == 'n');
    assert(seq!['n', 'g'][0] == 'n');
    assert(seq!['v'][0] == 'v');
    assert(seq!['v', 'd'][0] == 'v');
    assert(seq!['v', 'n'][0] == 'v');
    assert(seq!['v', 'f'][0] == 'v');
    assert(seq!['v', 'x'][0] == 'v');
    assert(seq!['v', 'i'][0] == 'v');
    assert(seq!['v', 'l'][0] == 'v');
    assert(seq!['v', 'g'][0] == 'v');
    assert(seq!['a'][0] == 'a');
    assert(seq!['a', 'd'][0] == 'a');
    assert(seq!['a', 'n'][0] == 'a');
    assert(seq!['a', 'g'][0] == 'a');
    assert(seq!['a', 'l'][0] == 'a');
    assert(seq!['d'][0] == 'd');
    assert(seq!['d', 'f'][0] == 'd');
    assert(seq!['d', 'g'][0] == 'd');
    assert(seq!['m'][0] == 'm');
    assert(seq!['m', 'q'][0] == 'm');
    assert(seq!['q'][0] == 'q');
    assert(seq!['r'][0] == 'r');
    assert(seq!['r', 'r'][0] == 'r');
    assert(seq!['r', 'z'][0] == 'r');
    assert(seq!['r', 't'][0] == 'r');
    assert(seq!['r', 'y'][0] == 'r');
    assert(seq!['r', 'g'][0] == 'r');
    assert(seq!['p'][0] == 'p');
    assert(seq!['p', 'b', 'a'][0] == 'p');
    assert(seq!['p', 'b', 'e', 'i'][0] == 'p');
    assert(seq!['c'][0] == 'c');
    assert(seq!['c', 'c'][0] == 'c');
    assert(seq!['u'][0] == 'u');
    assert(seq!['u', 'j'][0] == 'u');
    assert(seq!['u', 'd'][0] == 'u');
    assert(seq!['u', 'g'][0] == 'u');
    assert(seq!['u', 'l'][0] == 'u');
    assert(seq!['u', 'v'][0] == 'u');
    assert(seq!['u', 'z'][0] == 'u');
    assert(seq!['i'][0] == 'i');
    assert(seq!['l'][0] == 'l');
    assert(seq!['j'][0] == 'j');
    assert(seq!['t'][0] == 't');
    assert(seq!['t', 'g'][0] == 't');
    assert(seq!['s'][0] == 's');
    assert(seq!['f'][0] == 'f');
    assert(seq!['b'][0] == 'b');
    assert(seq!['z'][0] == 'z');
    assert(seq!['y'][0] == 'y');
    assert(seq!['e'][0] == 'e');
    assert(seq!['o'][0] == 'o');
    assert(seq!['h'][0] == 'h');
    assert(seq!['k'][0] == 'k');
    let first = t[0];
    assert(first == t[0]);
}

// ───────────────────────── variants ─────────────────────────

proof fn lemma_swapped_has(w: Seq<char>, i: int, alts: Seq<char>, a: char)
    requires
        0 <= i < w.len(),
        alts.contains(a),
        a != w[i],
    ensures
        swapped(w, i, alts).contains(w.update(i, a)),
    decreases alts.len(),
{
    let s = w.update(i, a);
    assert(s[i] != w[i]);
    let k = choose|k: int| 0 <= k < alts.len() && alts[k] == a;
    let u = alts.drop_last();
    let r = swapped(w, i, alts);
    if k < u.len() {
        assert(u[k] == a);
        lemma_swapped_has(w, i, u, a);
        let t = swapped(w, i, u);
        let j = choose|j: int| 0 <= j < t.len() && t[j] == s;
        assert(r[j] == s);
    } else {
        assert(r[r.len() - 1] == s);
    }
}

proof fn lemma_spellings_has(v: Variants, w: Seq<char>, n: nat, i: int, a: char)
    requires
        0 <= i < n <= w.len(),
        v.of(w[i]).contains(a),
        a != w[i],
    ensures
        spellings_upto(v, w, n).contains(w.update(i, a)),
    decreases n,
{
    let s = w.update(i, a);
    let p = spellings_upto(v, w, (n - 1) as nat);
    let q = swapped(w, n - 1, v.of(w[n - 1]));
    if i == n - 1 {
        lemma_swapped_has(w, i, v.of(w[i]), a);
        let j = choose|j: int| 0 <= j < q.len() && q[j] == s;
        assert((p + q)[p.len() + j] == s);
    } else {
        lemma_spellings_has(v, w, (n - 1) as nat, i, a);
        let j = choose|j: int| 0 <= j < p.len() && p[j] == s;
        assert((p + q)[j] == s);
    }
}

/// A word of up to four characters is spelt with every variant of every character of it; a
/// longer one has no other spelling.
pub proof fn law_every_variant_is_a_spelling(v: Variants, w: Seq<char>, i: int, a: char)
    requires
        0 <= i < w.len(),
        v.of(w[i]).contains(a),
        a != w[i],
    ensures
        w.len() <= 4 ==> all_spellings(v, w).contains(w.update(i, a)),
        w.len() > 4 ==> all_spellings(v, w).len() == 0,
{
    if w.len() <= 4 {
        lemma_spellings_has(v, w, w.len(), i, a);
    }
}

/// The variants of a character are noted line by line, and a line adds to its own character
/// alone.
pub proof fn law_variants_are_noted(lines: Seq<Seq<char>>, line: Seq<char>, c: char)
    ensures
        noted(lines.push(line), c) == match variant_line(line) {
            Some((x, l)) => if x == c {
                noted(lines, c) + l
            } else {
                noted(lines, c)
            },
            None => noted(lines, c),
        },
{
    assert(lines.push(line).drop_last() =~= lines);
    assert(lines.push(line).last() == line);
}

/// A line `U+91CC`, field, `U+88CF U+88E1` notes the characters of its third column but its own,
/// for the fields of variants that have the same meaning, the simplified and the traditional
/// forms, and the same shape; no other field counts.
pub proof fn law_a_line_of_variants(cp: Seq<char>, field: Seq<char>, vals: Seq<char>)
    requires
        cp.len() > 0,
        cp[0] != '#',
        lacks(cp, '\t') && lacks(field, '\t') && lacks(vals, '\t'),
        trimmed(cp + seq!['\t'] + field + seq!['\t'] + vals).len() > 0,
    ensures
        ({
            let line = cp + seq!['\t'] + field + seq!['\t'] + vals;
            let listed = field == "kSemanticVariant"@ || field == "kSimplifiedVariant"@ || field
                == "kTraditionalVariant"@ || field == "kZVariant"@;
            &&& !listed ==> variant_line(line) is None
            &&& codepoint(cp) is None ==> variant_line(line) is None
            &&& listed && codepoint(cp) is Some && others(words_of(vals), codepoint(cp)->0).len()
                > 0 ==> variant_line(line) == Some(
                (codepoint(cp)->0, others(words_of(vals), codepoint(cp)->0)),
            )
        }),
{
    let line = cp + seq!['\t'] + field + seq!['\t'] + vals;
    let front = cp + seq!['\t'] + field;
    assert(line =~= front + seq!['\t'] + vals);
    lemma_split_cat(front, '\t', vals, One('\t'));
    lemma_split_cat(cp, '\t', field, One('\t'));
    lemma_one_part(cp, '\t');
    lemma_one_part(field, '\t');
    lemma_one_part(vals, '\t');
    assert(seq![cp] + seq![field] + seq![vals] =~= seq![cp, field, vals]);
    let f = split_by(line, One('\t'));
    assert(f[0] == cp && f[1] == field && f[2] == vals);
    assert(line[0] == cp[0]);
}

proof fn lemma_one_part(s: Seq<char>, c: char)
    requires
        lacks(s, c),
    ensures
        split_by(s, One(c)) == seq![s],
{
    assert forall|i: int| 0 <= i < s.len() implies !One(c).holds(#[trigger] s[i]) by {}
    lemma_until_is(s, One(c), s.len() as int);
}

/// The characters of a list but one.
pub proof fn law_characters_but_one(w: Seq<Seq<char>>, x: Seq<char>, c: char)
    ensures
        others(w.push(x), c) == if codepoint(x) is Some && codepoint(x)->0 != c {
            others(w, c).push(codepoint(x)->0)
        } else {
            others(w, c)
        },
{
    assert(w.push(x).drop_last() =~= w);
}

/// A code point is `U+` and its number in hexadecimal, of any length; a note behind `<` does not
/// count.
pub proof fn law_code_points_are_read(hex: Seq<char>, note: Seq<char>)
    requires
        lacks(hex, '<'),
    ensures
        codepoint(seq!['U', '+'] + hex) == codepoint(seq!['U', '+'] + hex + seq!['<'] + note),
        parsed_nat(hex, 16, u32::MAX as nat) is Some && (parsed_nat(hex, 16, u32::MAX as nat)->0
            < 0xD800 || 0xE000 <= parsed_nat(hex, 16, u32::MAX as nat)->0 <= 0x10_FFFF)
            ==> codepoint(seq!['U', '+'] + hex) == Some(
            parsed_nat(hex, 16, u32::MAX as nat)->0 as u32 as char,
        ),
        parsed_nat(hex, 16, u32::MAX as nat) is None ==> codepoint(seq!['U', '+'] + hex) is None,
{
    reveal_strlit("U+");
    assert("U+"@ =~= seq!['U', '+']);
    let s = seq!['U', '+'] + hex;
    let t = s + seq!['<'] + note;
    assert forall|i: int| 0 <= i < s.len() implies !One('<').holds(#[trigger] s[i]) by {
        if i >= 2 {
            assert(s[i] == hex[i - 2]);
        }
    }
    lemma_until_is(s, One('<'), s.len() as int);
    assert forall|i: int| 0 <= i < s.len() implies !One('<').holds(#[trigger] t[i]) by {
        assert(t[i] == s[i]);
        assert(!One('<').holds(s[i]));
    }
    assert(t[s.len() as int] == '<');
    lemma_until_is(t, One('<'), s.len() as int);
    assert(s.take(s.len() as int) =~= s);
    assert(t.take(s.len() as int) =~= s);
    assert(s.take(2) =~= "U+"@);
    assert(s.skip(2) =~= hex);
}

// ───────────────────────── words of a sentence ─────────────────────────

proof fn lemma_longest(s: Seq<char>, vocab: Set<Seq<char>>, i: int, j: int, k: int)
    requires
        0 <= i < k <= j <= s.len(),
        vocab.contains(s.subrange(i, k)),
        forall|m: int| k < m <= j ==> !vocab.contains(#[trigger] s.subrange(i, m)),
    ensures
        longest(s, vocab, i, j) == Some(s.subrange(i, k)),
    decreases j - i,
{
    if k < j {
        assert(!vocab.contains(s.subrange(i, j)));
        lemma_longest(s, vocab, i, j - 1, k);
    }
}

proof fn lemma_longest_from(s: Seq<char>, vocab: Set<Seq<char>>, i: int, j: int)
    requires
        0 <= i,
        j <= s.len(),
    ensures
        longest(s, vocab, i, j) matches Some(w) ==> vocab.contains(w) && exists|k: int|
            i < k <= j && w == #[trigger] s.subrange(i, k),
    decreases j - i,
{
    if j > i && !vocab.contains(s.subrange(i, j)) {
        lemma_longest_from(s, vocab, i, j - 1);
        if let Some(w) = longest(s, vocab, i, j - 1) {
            let k = choose|k: int| i < k <= j - 1 && w == #[trigger] s.subrange(i, k);
            assert(w == s.subrange(i, k));
        }
    }
}

/// At every place of a sentence where a word of the vocabulary of at most `max` characters
/// begins, the longest such word is found.
pub proof fn law_the_longest_word_is_found(
    s: Seq<char>,
    vocab: Set<Seq<char>>,
    max: nat,
    n: nat,
    i: int,
    k: int,
)
    requires
        0 <= i < n <= s.len(),
        i < k <= s.len(),
        k - i <= max,
        vocab.contains(s.subrange(i, k)),
        forall|m: int|
            k < m <= s.len() && m - i <= max ==> !vocab.contains(#[trigger] s.subrange(i, m)),
    ensures
        longest_upto(s, vocab, max, n).contains(s.subrange(i, k)),
    decreases n,
{
    let a = longest_upto(s, vocab, max, (n - 1) as nat);
    let b = longest_upto(s, vocab, max, n);
    let w = s.subrange(i, k);
    if i == n - 1 {
        lemma_longest(s, vocab, i, reach(s, max, i), k);
        assert(b[b.len() - 1] == w);
    } else {
        law_the_longest_word_is_found(s, vocab, max, (n - 1) as nat, i, k);
        let j = choose|j: int| 0 <= j < a.len() && a[j] == w;
        assert(b[j] == w);
    }
}

/// What is found in a sentence are words of the vocabulary that stand in it.
pub proof fn law_words_found_stand_in_the_sentence(
    s: Seq<char>,
    vocab: Set<Seq<char>>,
    max: nat,
    n: nat,
    w: Seq<char>,
)
    requires
        n <= s.len(),
        longest_upto(s, vocab, max, n).contains(w),
    ensures
        vocab.contains(w),
        exists|i: int, k: int| 0 <= i < k <= s.len() && k - i <= max && w == #[trigger] s.subrange(i, k),
    decreases n,
{
    let b = longest_upto(s, vocab, max, n);
    let j = choose|j: int| 0 <= j < b.len() && b[j] == w;
    let a = longest_upto(s, vocab, max, (n - 1) as nat);
    if j < a.len() {
        assert(a[j] == w);
        law_words_found_stand_in_the_sentence(s, vocab, max, (n - 1) as nat, w);
    } else {
        lemma_longest_from(s, vocab, n - 1, reach(s, max, n - 1));
        let k = choose|k: int|
            n - 1 < k <= reach(s, max, n - 1) && w == #[trigger] s.subrange(n - 1, k);
        assert(w == s.subrange(n - 1, k));
    }
}

/// The words of two English texts with something between them that is no letter and no
/// apostrophe are the words of both; one run of letters is one word, from two characters on.
pub proof fn law_english_words_add_up(a: Seq<char>, c: char, b: Seq<char>, w: Seq<char>)
    requires
        !('a' <= c <= 'z') && !('A' <= c <= 'Z') && c != '\'',
    ensures
        english_words(a + seq![c] + b).contains(w) <==> english_words(a).contains(w)
            || english_words(b).contains(w),
        (forall|i: int|
            0 <= i < a.len() ==> ('a' <= #[trigger] a[i] <= 'z') || ('A' <= a[i] <= 'Z') || a[i]
                == '\'') ==> (english_words(a).contains(w) <==> a.len() >= 2 && w == lowercase(a)),
{
    lemma_split_cat(a, c, b, NotLatin);
    let x = split_by(a, NotLatin);
    let y = split_by(b, NotLatin);
    lemma_long_cat(x, y);
    let p = long_tokens(x);
    let q = long_tokens(y);
    law_sorted_texts_are_sorted(p);
    law_sorted_texts_are_sorted(q);
    law_sorted_texts_are_sorted(p + q);
    if p.contains(w) {
        let i = choose|i: int| 0 <= i < p.len() && p[i] == w;
        assert((p + q)[i] == w);
    }
    if q.contains(w) {
        let i = choose|i: int| 0 <= i < q.len() && q[i] == w;
        assert((p + q)[p.len() + i] == w);
    }
    if (p + q).contains(w) {
        let i = choose|i: int| 0 <= i < (p + q).len() && (p + q)[i] == w;
        if i < p.len() {
            assert(p[i] == w);
        } else {
            assert(q[i - p.len()] == w);
        }
    }
    if forall|i: int|
        0 <= i < a.len() ==> ('a' <= #[trigger] a[i] <= 'z') || ('A' <= a[i] <= 'Z') || a[i]
            == '\'' {
        assert forall|i: int| 0 <= i < a.len() implies !NotLatin.holds(#[trigger] a[i]) by {}
        lemma_until_is(a, NotLatin, a.len() as int);
        let one = seq![a];
        assert(x == one);
        assert(one.drop_last() =~= Seq::<Seq<char>>::empty() && one.last() == a);
        assert(long_tokens(one.drop_last()) =~= Seq::<Seq<char>>::empty());
        if a.len() >= 2 {
            assert(p =~= seq![lowercase(a)]);
            assert(p[0] == lowercase(a));
        }
    }
}

// ───────────────────────── sentence pairs ─────────────────────────

/// A line of sentences is a number, a language and a text, with tabs between; tabs in the text
/// stay.
pub proof fn law_a_line_of_sentences(id: Seq<char>, lang: Seq<char>, text: Seq<char>)
    requires
        lacks(id, '\t') && lacks(lang, '\t'),
    ensures
        sentence_line(id + seq!['\t'] + lang + seq!['\t'] + text) == match parsed_nat(
            id,
            10,
            u32::MAX as nat,
        ) {
            Some(n) => Some((n as u32, text)),
            None => None,
        },
{
    let line = id + seq!['\t'] + lang + seq!['\t'] + text;
    let n = id.len() as int;
    assert forall|i: int| 0 <= i < n implies !One('\t').holds(#[trigger] line[i]) by {
        assert(line[i] == id[i]);
    }
    assert(line[n] == '\t');
    lemma_until_is(line, One('\t'), n);
    assert(line.take(n) =~= id);
    let rest = line.skip(n + 1);
    assert(rest =~= lang + seq!['\t'] + text);
    let m = lang.len() as int;
    assert forall|i: int| 0 <= i < m implies !One('\t').holds(#[trigger] rest[i]) by {
        assert(rest[i] == lang[i]);
    }
    assert(rest[m] == '\t');
    lemma_until_is(rest, One('\t'), m);
    assert(rest.skip(m + 1) =~= text);
}

/// A line of links is two numbers with a tab between, and blanks round them do not count.
pub proof fn law_a_line_of_links(a: Seq<char>, b: Seq<char>)
    requires
        lacks(a, '\t') && lacks(b, '\t'),
    ensures
        link_line(a + seq!['\t'] + b) == match (
            parsed_nat(trimmed(a), 10, u32::MAX as nat),
            parsed_nat(trimmed(b), 10, u32::MAX as nat),
        ) {
            (Some(x), Some(y)) => Some((x as u32, y as u32)),
            _ => None,
        },
{
    lemma_split_cat(a, '\t', b, One('\t'));
    lemma_one_part(a, '\t');
    lemma_one_part(b, '\t');
    assert(seq![a] + seq![b] =~= seq![a, b]);
    let f = split_by(a + seq!['\t'] + b, One('\t'));
    assert(f[0] == a && f[1] == b);
}

/// The sentences and links of files are read line by line; a sentence met again is replaced.
pub proof fn law_sentences_are_read_line_by_line(
    lines: Seq<Seq<char>>,
    line: Seq<char>,
    cmn: Map<u32, Seq<char>>,
    ids: Set<u32>,
)
    ensures
        sentences(lines.push(line)) == match sentence_line(line) {
            Some((id, t)) => sentences(lines).insert(id, t),
            None => sentences(lines),
        },
        links_from(lines.push(line), cmn) == match link_line(line) {
            Some((a, b)) => if cmn.contains_key(a) {
                links_from(lines, cmn).push((a, b))
            } else {
                links_from(lines, cmn)
            },
            None => links_from(lines, cmn),
        },
        sentences_among(lines.push(line), ids) == match sentence_line(line) {
            Some((id, t)) => if ids.contains(id) {
                sentences_among(lines, ids).insert(id, t)
            } else {
                sentences_among(lines, ids)
            },
            None => sentences_among(lines, ids),
        },
{
    assert(lines.push(line).drop_last() =~= lines);
    assert(lines.push(line).last() == line);
}

/// Every Chinese sentence that some link leads from to an English one is paired, with the first
/// of them.
pub proof fn law_sentences_are_paired_with_their_first_translation(
    edges: Seq<(u32, u32)>,
    cmn: Map<u32, Seq<char>>,
    eng: Map<u32, Seq<char>>,
    n: nat,
    k: int,
)
    requires
        0 <= k < n <= edges.len(),
        cmn.contains_key(edges[k].0),
        eng.contains_key(edges[k].1),
        forall|j: int| 0 <= j < k ==> (#[trigger] edges[j]).0 != edges[k].0 || !eng.contains_key(
            edges[j].1,
        ),
    ensures
        pairs_upto(edges, cmn, eng, n).contains((cmn[edges[k].0], eng[edges[k].1])),
    decreases n,
{
    let x = (cmn[edges[k].0], eng[edges[k].1]);
    let a = pairs_upto(edges, cmn, eng, (n - 1) as nat);
    let b = pairs_upto(edges, cmn, eng, n);
    if k == n - 1 {
        assert(b[b.len() - 1] == x);
    } else {
        law_sentences_are_paired_with_their_first_translation(edges, cmn, eng, (n - 1) as nat, k);
        let j = choose|j: int| 0 <= j < a.len() && a[j] == x;
        assert(b[j] == x);
    }
}

/// Every pair is a Chinese sentence and an English one that a link leads to from it, and no
/// earlier link from the same sentence leads to an English one.
pub proof fn law_pairs_come_of_links(
    edges: Seq<(u32, u32)>,
    cmn: Map<u32, Seq<char>>,
    eng: Map<u32, Seq<char>>,
    n: nat,
    x: (Seq<char>, Seq<char>),
)
    requires
        n <= edges.len(),
        pairs_upto(edges, cmn, eng, n).contains(x),
    ensures
        exists|k: int|
            0 <= k < n && cmn.contains_key((#[trigger] edges[k]).0) && eng.contains_key(edges[k].1)
                && x == (cmn[edges[k].0], eng[edges[k].1]) && forall|j: int|
                0 <= j < k && (#[trigger] edges[j]).0 == edges[k].0 ==> !eng.contains_key(
                    edges[j].1,
                ),
    decreases n,
{
    let b = pairs_upto(edges, cmn, eng, n);
    let j = choose|j: int| 0 <= j < b.len() && b[j] == x;
    let a = pairs_upto(edges, cmn, eng, (n - 1) as nat);
    if j < a.len() {
        assert(a[j] == x);
        law_pairs_come_of_links(edges, cmn, eng, (n - 1) as nat, x);
        let k = choose|k: int|
            0 <= k < n - 1 && cmn.contains_key((#[trigger] edges[k]).0) && eng.contains_key(
                edges[k].1,
            ) && x == (cmn[edges[k].0], eng[edges[k].1]) && forall|j: int|
                0 <= j < k && (#[trigger] edges[j]).0 == edges[k].0 ==> !eng.contains_key(
                    edges[j].1,
                );
        assert(0 <= k < n && cmn.contains_key(edges[k].0));
    } else {
        assert(0 <= n - 1 < n && cmn.contains_key(edges[n - 1].0));
    }
}

/// The pairs that were loaded are all pairs of the links, by the length of the Chinese
/// sentence, the shortest first.
pub proof fn law_the_shortest_come_first(p: Seq<(Seq<char>, Seq<char>)>, k: int, i: int, j: int)
    requires
        p.len() <= usize::MAX,
        forall|m: int| 0 <= m < p.len() ==> (#[trigger] p[m]).0.len() <= usize::MAX,
        0 <= k < p.len(),
        0 <= i < j < p.len(),
    ensures
        shortest_first(p).len() == p.len(),
        shortest_first(p).contains(p[k]),
        p.contains(shortest_first(p)[i]),
        shortest_first(p)[i].0.len() <= shortest_first(p)[j].0.len(),
{
    let keys = zh_lengths(p);
    let q = stable_perm(keys);
    law_keys_can_be_ordered(keys);
    assert(stable_order(keys, q));
    let z = lemma_perm_reaches(keys, q, k);
    assert(shortest_first(p)[z] == p[k]);
    assert(shortest_first(p)[i] == p[q[i] as int]);
    assert(keys[q[i] as int] <= keys[q[j] as int]);
    assert(p[q[i] as int].0.len() <= usize::MAX && p[q[j] as int].0.len() <= usize::MAX);
}

/// Loading takes the sentences of the one file, the links from them, and of the other file the
/// sentences that a link leads to.
pub proof fn law_what_is_loaded(cmn: Seq<Seq<char>>, eng: Seq<Seq<char>>, links: Seq<Seq<char>>)
    ensures
        ({
            let zh = sentences(cmn);
            let edges = links_from(links, zh);
            loaded_pairs(cmn, eng, links) == shortest_first(
                pairs_upto(edges, zh, sentences_among(eng, targets(edges)), edges.len()),
            )
        }),
        forall|edges: Seq<(u32, u32)>, id: u32|
            #![trigger targets(edges).contains(id)]
            targets(edges).contains(id) <==> exists|k: int|
                0 <= k < edges.len() && (#[trigger] edges[k]).1 == id,
{
    assert forall|edges: Seq<(u32, u32)>, id: u32|
        #![trigger targets(edges).contains(id)]
        targets(edges).contains(id) <==> exists|k: int|
            0 <= k < edges.len() && (#[trigger] edges[k]).1 == id by {
        lemma_targets(edges, id);
    }
}

proof fn lemma_targets(edges: Seq<(u32, u32)>, id: u32)
    ensures
        targets(edges).contains(id) <==> exists|k: int|
            0 <= k < edges.len() && (#[trigger] edges[k]).1 == id,
    decreases edges.len(),
{
    if edges.len() > 0 {
        let u = edges.drop_last();
        lemma_targets(u, id);
        if exists|k: int| 0 <= k < u.len() && (#[trigger] u[k]).1 == id {
            let k = choose|k: int| 0 <= k < u.len() && (#[trigger] u[k]).1 == id;
            assert(edges[k].1 == id);
        }
        if exists|k: int| 0 <= k < edges.len() && (#[trigger] edges[k]).1 == id {
            let k = choose|k: int| 0 <= k < edges.len() && (#[trigger] edges[k]).1 == id;
            if k < u.len() {
                assert(u[k].1 == id);
            }
        }
        if edges.last().1 == id {
            assert(edges[edges.len() - 1].1 == id);
        }
    }
}

// ───────────────────────── examples ─────────────────────────

/// The vocabulary is every headword.
pub proof fn law_every_headword_is_looked_for(zh: Seq<RawZhView>, w: Seq<char>)
    ensures
        zh_vocab(zh).contains(w) <==> exists|k: int|
            0 <= k < zh.len() && (#[trigger] zh[k]).entry.word == w,
    decreases zh.len(),
{
    if zh.len() > 0 {
        let u = zh.drop_last();
        law_every_headword_is_looked_for(u, w);
        if exists|k: int| 0 <= k < u.len() && (#[trigger] u[k]).entry.word == w {
            let k = choose|k: int| 0 <= k < u.len() && (#[trigger] u[k]).entry.word == w;
            assert(zh[k].entry.word == w);
        }
        if exists|k: int| 0 <= k < zh.len() && (#[trigger] zh[k]).entry.word == w {
            let k = choose|k: int| 0 <= k < zh.len() && (#[trigger] zh[k]).entry.word == w;
            if k < u.len() {
                assert(u[k].entry.word == w);
            }
        }
        if zh.last().entry.word == w {
            assert(zh[zh.len() - 1].entry.word == w);
        }
    }
}

/// Of several headwords of one spelling the most common one gets the examples.
pub proof fn law_the_most_common_gets_the_examples(zh: Seq<RawZhView>, w: Seq<char>, j: int)
    requires
        0 <= j < zh.len(),
        zh[j].entry.word == w,
        forall|k: int| 0 <= k < zh.len() ==> !(#[trigger] zh[k]).entry.pct.is_nan_spec(),
    ensures
        zh_slot(zh, w) matches Some(b) && 0 <= b < zh.len() && zh[b].entry.word == w
            && zh[j].entry.pct.order() <= zh[b].entry.pct.order(),
    decreases zh.len(),
{
    let u = zh.drop_last();
    assert forall|k: int| 0 <= k < u.len() implies !(#[trigger] u[k]).entry.pct.is_nan_spec() by {
        assert(u[k] == zh[k]);
    }
    assert(!zh[zh.len() - 1].entry.pct.is_nan_spec());
    if j < u.len() {
        assert(u[j] == zh[j]);
        law_the_most_common_gets_the_examples(u, w, j);
        let b = zh_slot(u, w)->0;
        assert(u[b] == zh[b]);
        assert(!zh[b].entry.pct.is_nan_spec());
    } else {
        lemma_slot_from(u, w);
        if let Some(b) = zh_slot(u, w) {
            assert(u[b] == zh[b]);
            assert(!zh[b].entry.pct.is_nan_spec());
        }
    }
}

proof fn lemma_slot_from(zh: Seq<RawZhView>, w: Seq<char>)
    ensures
        zh_slot(zh, w) matches Some(b) ==> 0 <= b < zh.len() && zh[b].entry.word == w,
    decreases zh.len(),
{
    if zh.len() > 0 {
        lemma_slot_from(zh.drop_last(), w);
        if let Some(b) = zh_slot(zh.drop_last(), w) {
            assert(zh.drop_last()[b] == zh[b]);
        }
    }
}

/// Of several English headwords of one spelling the first gets the examples.
pub proof fn law_the_first_english_headword_gets_the_examples(
    en: Seq<RawEnView>,
    w: Seq<char>,
    j: int,
)
    requires
        0 <= j < en.len(),
        lowercase(en[j].entry.word) == w,
        forall|k: int| 0 <= k < j ==> lowercase((#[trigger] en[k]).entry.word) != w,
    ensures
        en_slot(en, w) == Some(j),
    decreases en.len(),
{
    let u = en.drop_last();
    if j < u.len() {
        assert(u[j] == en[j]);
        assert forall|k: int| 0 <= k < j implies lowercase((#[trigger] u[k]).entry.word) != w by {
            assert(u[k] == en[k]);
        }
        law_the_first_english_headword_gets_the_examples(u, w, j);
    } else {
        lemma_en_slot_none(u, w, en);
    }
}

proof fn lemma_en_slot_none(u: Seq<RawEnView>, w: Seq<char>, en: Seq<RawEnView>)
    requires
        u.len() <= en.len(),
        forall|k: int| 0 <= k < u.len() ==> u[k] == en[k],
        forall|k: int| 0 <= k < u.len() ==> lowercase((#[trigger] en[k]).entry.word) != w,
    ensures
        en_slot(u, w) is None,
    decreases u.len(),
{
    if u.len() > 0 {
        assert(u[u.len() - 1] == en[u.len() - 1]);
        lemma_en_slot_none(u.drop_last(), w, en);
    }
}

/// A headword gets the first three pairs whose sentence has it, in order: where it has fewer,
/// it has every such pair, and it has no other.
pub proof fn law_a_headword_gets_the_first_three(
    zh: Seq<RawZhView>,
    pairs: Seq<(Seq<char>, Seq<char>)>,
    n: nat,
    i: int,
    k: int,
)
    requires
        0 <= i < zh.len(),
        0 <= k < n <= pairs.len(),
        zh[i].entry.examples.len() == 0,
    ensures
        zh_examples(zh, pairs, n, i).len() <= 3,
        zh_examples(zh, pairs, n, i).len() < 3 && zh_slot(zh, zh[i].entry.word) == Some(i)
            && zh_found(zh, pairs[k].0).contains(zh[i].entry.word) ==> zh_examples(
            zh,
            pairs,
            n,
            i,
        ).contains((ExampleView { a: pairs[k].0, b: pairs[k].1 })),
        zh_slot(zh, zh[i].entry.word) != Some(i) ==> zh_examples(zh, pairs, n, i).len() == 0,
        forall|m: int|
            0 <= m < zh_examples(zh, pairs, n, i).len() ==> exists|q: int|
                0 <= q < n && zh_found(zh, (#[trigger] pairs[q]).0).contains(zh[i].entry.word)
                    && #[trigger] zh_examples(zh, pairs, n, i)[m] == (ExampleView {
                    a: pairs[q].0,
                    b: pairs[q].1,
                }),
    decreases n,
{
    let a = zh_examples(zh, pairs, (n - 1) as nat, i);
    let b = zh_examples(zh, pairs, n, i);
    let x = ExampleView { a: pairs[k].0, b: pairs[k].1 };
    if n >= 2 {
        law_a_headword_gets_the_first_three(
            zh,
            pairs,
            (n - 1) as nat,
            i,
            if k < n - 1 {
                k
            } else {
                0
            },
        );
    } else {
        assert(a == zh[i].entry.examples);
    }
    if b.len() < 3 && zh_slot(zh, zh[i].entry.word) == Some(i) && zh_found(
        zh,
        pairs[k].0,
    ).contains(zh[i].entry.word) {
        if k < n - 1 {
            let m = choose|m: int| 0 <= m < a.len() && a[m] == x;
            assert(b[m] == x);
        } else {
            assert(b[b.len() - 1] == x);
        }
    }
    assert forall|m: int| 0 <= m < b.len() implies exists|q: int|
        0 <= q < n && zh_found(zh, (#[trigger] pairs[q]).0).contains(zh[i].entry.word)
            && #[trigger] b[m] == (ExampleView { a: pairs[q].0, b: pairs[q].1 }) by {
        if m < a.len() {
            assert(b[m] == a[m]);
            let q = choose|q: int|
                0 <= q < n - 1 && zh_found(zh, (#[trigger] pairs[q]).0).contains(zh[i].entry.word)
                    && a[m] == (ExampleView { a: pairs[q].0, b: pairs[q].1 });
            assert(0 <= q < n && zh_found(zh, pairs[q].0).contains(zh[i].entry.word));
        } else {
            assert(0 <= n - 1 < n && zh_found(zh, pairs[n - 1].0).contains(zh[i].entry.word));
        }
    }
}

/// So does an English headword, with the English sentence first.
pub proof fn law_an_english_headword_gets_the_first_three(
    en: Seq<RawEnView>,
    pairs: Seq<(Seq<char>, Seq<char>)>,
    n: nat,
    i: int,
    k: int,
)
    requires
        0 <= i < en.len(),
        0 <= k < n <= pairs.len(),
        en[i].entry.examples.len() == 0,
    ensures
        en_examples(en, pairs, n, i).len() <= 3,
        en_examples(en, pairs, n, i).len() < 3 && en_slot(en, lowercase(en[i].entry.word)) == Some(
            i,
        ) && english_words(pairs[k].1).contains(lowercase(en[i].entry.word)) ==> en_examples(
            en,
            pairs,
            n,
            i,
        ).contains((ExampleView { a: pairs[k].1, b: pairs[k].0 })),
        en_slot(en, lowercase(en[i].entry.word)) != Some(i) ==> en_examples(
            en,
            pairs,
            n,
            i,
        ).len() == 0,
    decreases n,
{
    let a = en_examples(en, pairs, (n - 1) as nat, i);
    let b = en_examples(en, pairs, n, i);
    let x = ExampleView { a: pairs[k].1, b: pairs[k].0 };
    if n >= 2 {
        law_an_english_headword_gets_the_first_three(
            en,
            pairs,
            (n - 1) as nat,
            i,
            if k < n - 1 {
                k
            } else {
                0
            },
        );
    } else {
        assert(a == en[i].entry.examples);
    }
    if b.len() < 3 && en_slot(en, lowercase(en[i].entry.word)) == Some(i) && english_words(
        pairs[k].1,
    ).contains(lowercase(en[i].entry.word)) {
        if k < n - 1 {
            let m = choose|m: int| 0 <= m < a.len() && a[m] == x;
            assert(b[m] == x);
        } else {
            assert(b[b.len() - 1] == x);
        }
    }
}

/// A Chinese sentence has a headword where the headword is the longest of up to six characters
/// at some place of it; and attaching changes nothing but the examples.
pub proof fn law_where_a_headword_is_found(
    zh: Seq<RawZhView>,
    s: Seq<char>,
    i: int,
    k: int,
    h: int,
)
    requires
        0 <= i < k <= s.len(),
        k - i <= 6,
        0 <= h < zh.len(),
        zh[h].entry.word == s.subrange(i, k),
        forall|m: int, g: int|
            k < m <= s.len() && m - i <= 6 && 0 <= g < zh.len() ==> (#[trigger] zh[g]).entry.word
                != #[trigger] s.subrange(i, m),
    ensures
        zh_found(zh, s).contains(zh[h].entry.word),
{
    let vocab = zh_vocab(zh);
    law_every_headword_is_looked_for(zh, s.subrange(i, k));
    assert forall|m: int| k < m <= s.len() && m - i <= 6 implies !vocab.contains(
        #[trigger] s.subrange(i, m),
    ) by {
        law_every_headword_is_looked_for(zh, s.subrange(i, m));
    }
    law_the_longest_word_is_found(s, vocab, 6, s.len(), i, k);
    law_sorted_texts_are_sorted(longest_upto(s, vocab, 6, s.len()));
}

/// Attaching examples changes nothing else of a headword.
pub proof fn law_attaching_changes_examples_alone(
    zh: Seq<RawZhView>,
    en: Seq<RawEnView>,
    pairs: Seq<(Seq<char>, Seq<char>)>,
    n: nat,
    i: int,
)
    ensures
        zh_attached(zh, pairs, n).len() == zh.len(),
        en_attached(en, pairs, n).len() == en.len(),
        0 <= i < zh.len() ==> {
            let x = zh_attached(zh, pairs, n)[i];
            &&& x.entry.examples == zh_examples(zh, pairs, n, i)
            &&& x.entry.word == zh[i].entry.word && x.entry.trad == zh[i].entry.trad
            &&& x.entry.reading == zh[i].entry.reading && x.entry.tones == zh[i].entry.tones
            &&& x.entry.senses == zh[i].entry.senses && x.entry.forms == zh[i].entry.forms
            &&& x.entry.raw == zh[i].entry.raw && x.entry.xrefs == zh[i].entry.xrefs
            &&& x.entry.freq == zh[i].entry.freq && x.entry.pct == zh[i].entry.pct
            &&& x.entry.pos == zh[i].entry.pos && x.entry.kind == zh[i].entry.kind
            &&& x.pinyin_keys == zh[i].pinyin_keys && x.initials == zh[i].initials
            &&& x.gloss_tokens == zh[i].gloss_tokens
        },
        0 <= i < en.len() ==> {
            let x = en_attached(en, pairs, n)[i];
            &&& x.entry.examples == en_examples(en, pairs, n, i)
            &&& x.entry.word == en[i].entry.word && x.entry.reading == en[i].entry.reading
            &&& x.entry.senses == en[i].entry.senses && x.entry.forms == en[i].entry.forms
            &&& x.entry.tags == en[i].entry.tags && x.entry.raw == en[i].entry.raw
            &&& x.entry.freq == en[i].entry.freq && x.entry.pct == en[i].entry.pct
            &&& x.entry.pos == en[i].entry.pos && x.entry.kind == en[i].entry.kind
            &&& x.rank == en[i].rank && x.trans_tokens == en[i].trans_tokens
            &&& x.lemma == en[i].lemma
        },
{
}

/// Spellings come by the place that is changed, and at a place in the order of the variants.
pub proof fn law_spellings_stand_in_order(v: Variants, w: Seq<char>, n: nat, alts: Seq<char>, a: char)
    ensures
        spellings_upto(v, w, 0).len() == 0,
        n < w.len() ==> spellings_upto(v, w, n + 1) == spellings_upto(v, w, n) + swapped(
            w,
            n as int,
            v.of(w[n as int]),
        ),
        0 <= n < w.len() ==> swapped(w, n as int, alts.push(a)) == if a == w[n as int] {
            swapped(w, n as int, alts)
        } else {
            swapped(w, n as int, alts).push(w.update(n as int, a))
        },
        swapped(w, n as int, Seq::empty()).len() == 0,
        w.len() <= 4 ==> all_spellings(v, w) == spellings_upto(v, w, w.len()),
{
    assert(alts.push(a).drop_last() =~= alts);
    if n < w.len() {
        if a == w[n as int] {
            assert(w.update(n as int, a) =~= w);
        } else {
            assert(w.update(n as int, a)[n as int] != w[n as int]);
        }
    }
}

/// What is no code point is read as none: without `U+`, or where no character has the number.
pub proof fn law_what_is_no_code_point(s: Seq<char>, hex: Seq<char>)
    ensures
        s.len() < 2 || s[0] != 'U' || s[1] != '+' ==> codepoint(s) is None,
        lacks(hex, '<') && parsed_nat(hex, 16, u32::MAX as nat) is Some && (0xD800 <= parsed_nat(
            hex,
            16,
            u32::MAX as nat,
        )->0 <= 0xDFFF || parsed_nat(hex, 16, u32::MAX as nat)->0 > 0x10_FFFF) ==> codepoint(
            seq!['U', '+'] + hex,
        ) is None,
{
    reveal_strlit("U+");
    let t = s.take(until(s, One('<')) as int);
    crate::text::lemma_until(s, One('<'));
    if starts_with(t, "U+"@) {
        assert("U+"@ =~= seq!['U', '+']);
        assert(t.take(2)[0] == 'U' && t.take(2)[1] == '+');
        assert(t[0] == s[0] && t[1] == s[1]);
    }
    let x = seq!['U', '+'] + hex;
    if lacks(hex, '<') {
        assert forall|i: int| 0 <= i < x.len() implies !One('<').holds(#[trigger] x[i]) by {
            if i >= 2 {
                assert(x[i] == hex[i - 2]);
            }
        }
        lemma_until_is(x, One('<'), x.len() as int);
        assert(x.take(x.len() as int) =~= x);
        assert(x.skip(2) =~= hex);
    }
}

/// A comment, a blank line, a line of fewer than three fields, and one whose variants are the
/// character itself note nothing.
pub proof fn law_lines_without_variants(line: Seq<char>)
    ensures
        line.len() > 0 && line[0] == '#' ==> variant_line(line) is None,
        trimmed(line).len() == 0 ==> variant_line(line) is None,
        split_by(line, One('\t')).len() < 3 ==> variant_line(line) is None,
        variant_line(line) matches Some((c, l)) ==> l.len() > 0 && codepoint(
            split_by(line, One('\t'))[0],
        ) == Some(c) && l == others(words_of(split_by(line, One('\t'))[2]), c),
{
}

/// The words of an English text are listed in order, each once.
pub proof fn law_english_words_rise(s: Seq<char>, i: int, j: int)
    requires
        0 <= i < j < english_words(s).len(),
    ensures
        text_less(english_words(s)[i], english_words(s)[j]),
{
    law_sorted_texts_are_sorted(long_tokens(split_by(s, NotLatin)));
    assert(text_order()(english_words(s)[i], english_words(s)[j]));
}

/// A line without two tabs is no sentence and one without a tab is no link; further fields of a
/// link do not count.
pub proof fn law_lines_that_are_short(line: Seq<char>, a: Seq<char>, b: Seq<char>, rest: Seq<char>)
    requires
        lacks(a, '\t') && lacks(b, '\t'),
    ensures
        sentence_line(a) is None,
        sentence_line(a + seq!['\t'] + b) is None,
        link_line(a) is None,
        link_line(a + seq!['\t'] + b + seq!['\t'] + rest) == link_line(a + seq!['\t'] + b),
{
    lemma_one_part(a, '\t');
    lemma_one_part(b, '\t');
    lemma_until_is(a, One('\t'), a.len() as int);
    lemma_until_is(b, One('\t'), b.len() as int);
    let ab = a + seq!['\t'] + b;
    lemma_until_is(ab, One('\t'), a.len() as int);
    assert(ab.skip(a.len() as int + 1) =~= b);
    lemma_split_cat(a, '\t', b, One('\t'));
    lemma_split_cat(ab, '\t', rest, One('\t'));
    let x = split_by(ab, One('\t'));
    let y = split_by(ab + seq!['\t'] + rest, One('\t'));
    assert(x == seq![a] + seq![b]);
    assert(y[0] == x[0] && y[1] == x[1]);
}

/// Pairs stand in the order of the links that give them.
pub proof fn law_pairs_stand_in_order(
    edges: Seq<(u32, u32)>,
    cmn: Map<u32, Seq<char>>,
    eng: Map<u32, Seq<char>>,
    n: nat,
)
    requires
        n < edges.len(),
    ensures
        pairs_upto(edges, cmn, eng, 0).len() == 0,
        pairs_upto(edges, cmn, eng, n).is_prefix_of(pairs_upto(edges, cmn, eng, n + 1)),
        pairs_upto(edges, cmn, eng, n + 1).len() == pairs_upto(edges, cmn, eng, n).len() + (if {
            let (z, e) = edges[n as int];
            cmn.contains_key(z) && eng.contains_key(e) && forall|j: int|
                0 <= j < n && (#[trigger] edges[j]).0 == z ==> !eng.contains_key(edges[j].1)
        } {
            1int
        } else {
            0int
        }),
{
}

/// Of pairs equally long the one that stood first comes first.
pub proof fn law_equally_long_pairs_keep_their_order(
    p: Seq<(Seq<char>, Seq<char>)>,
    i: int,
    j: int,
)
    requires
        p.len() <= usize::MAX,
        forall|m: int| 0 <= m < p.len() ==> (#[trigger] p[m]).0.len() <= usize::MAX,
        0 <= i < j < p.len(),
    ensures
        exists|a: int, b: int|
            0 <= a < p.len() && 0 <= b < p.len() && shortest_first(p)[i] == #[trigger] p[a]
                && shortest_first(p)[j] == #[trigger] p[b] && (p[a].0.len() < p[b].0.len() || (
            p[a].0.len() == p[b].0.len() && a < b)),
{
    let keys = zh_lengths(p);
    let q = stable_perm(keys);
    law_keys_can_be_ordered(keys);
    assert(stable_order(keys, q));
    let a = q[i] as int;
    let b = q[j] as int;
    assert(keys[a] < keys[b] || (keys[a] == keys[b] && a < b));
    assert(p[a].0.len() <= usize::MAX && p[b].0.len() <= usize::MAX);
    assert(shortest_first(p)[i] == p[a] && shortest_first(p)[j] == p[b]);
}

/// Of headwords spelled alike and equally common the first gets the examples.
pub proof fn law_the_first_of_the_most_common_gets_the_examples(
    zh: Seq<RawZhView>,
    w: Seq<char>,
    j: int,
)
    requires
        0 <= j < zh.len(),
        zh[j].entry.word == w,
        forall|k: int| 0 <= k < zh.len() ==> !(#[trigger] zh[k]).entry.pct.is_nan_spec(),
        forall|k: int|
            0 <= k < j && (#[trigger] zh[k]).entry.word == w ==> zh[k].entry.pct.order()
                < zh[j].entry.pct.order(),
        forall|k: int|
            j < k < zh.len() && (#[trigger] zh[k]).entry.word == w ==> zh[k].entry.pct.order()
                <= zh[j].entry.pct.order(),
    ensures
        zh_slot(zh, w) == Some(j),
    decreases zh.len(),
{
    let u = zh.drop_last();
    assert(forall|k: int| 0 <= k < u.len() ==> u[k] == zh[k]);
    assert(zh[zh.len() - 1] == zh.last());
    lemma_slot_from(u, w);
    if j < u.len() {
        law_the_first_of_the_most_common_gets_the_examples(u, w, j);
    }
}

/// Examples are added at the end: those of the first pairs stand first.
pub proof fn law_examples_are_added_at_the_end(
    zh: Seq<RawZhView>,
    en: Seq<RawEnView>,
    pairs: Seq<(Seq<char>, Seq<char>)>,
    n: nat,
    i: int,
)
    requires
        n < pairs.len(),
    ensures
        0 <= i < zh.len() ==> {
            let a = zh_examples(zh, pairs, n, i);
            let b = zh_examples(zh, pairs, n + 1, i);
            let w = zh[i].entry.word;
            b == if a.len() < 3 && zh_slot(zh, w) == Some(i) && zh_found(
                zh,
                pairs[n as int].0,
            ).contains(w) {
                a.push(ExampleView { a: pairs[n as int].0, b: pairs[n as int].1 })
            } else {
                a
            }
        },
        0 <= i < en.len() ==> {
            let a = en_examples(en, pairs, n, i);
            let b = en_examples(en, pairs, n + 1, i);
            let w = lowercase(en[i].entry.word);
            b == if a.len() < 3 && en_slot(en, w) == Some(i) && english_words(
                pairs[n as int].1,
            ).contains(w) {
                a.push(ExampleView { a: pairs[n as int].1, b: pairs[n as int].0 })
            } else {
                a
            }
        },
        0 <= i < zh.len() ==> zh_examples(zh, pairs, 0, i) == zh[i].entry.examples,
        0 <= i < en.len() ==> en_examples(en, pairs, 0, i) == en[i].entry.examples,
{
}

/// No word of the list that begins where a word was found is longer, within the reach.
pub open spec fn longest_there(s: Seq<char>, vocab: Set<Seq<char>>, max: nat, i: int, k: int) -> bool {
    &&& 0 <= i < k <= s.len()
    &&& k - i <= max
    &&& vocab.contains(s.subrange(i, k))
    &&& forall|m: int|
        k < m <= s.len() && m - i <= max ==> !vocab.contains(#[trigger] s.subrange(i, m))
}

/// A word that is found is the longest one at some place of the sentence.
pub proof fn law_only_the_longest_word_is_found(
    s: Seq<char>,
    vocab: Set<Seq<char>>,
    max: nat,
    n: nat,
    w: Seq<char>,
)
    requires
        n <= s.len(),
        longest_upto(s, vocab, max, n).contains(w),
    ensures
        exists|i: int, k: int| #[trigger]
            longest_there(s, vocab, max, i, k) && w == s.subrange(i, k),
    decreases n,
{
    let b = longest_upto(s, vocab, max, n);
    let j = choose|j: int| 0 <= j < b.len() && b[j] == w;
    let a = longest_upto(s, vocab, max, (n - 1) as nat);
    if j < a.len() {
        assert(a[j] == w);
        law_only_the_longest_word_is_found(s, vocab, max, (n - 1) as nat, w);
    } else {
        let k = lemma_longest_there(s, vocab, max, n - 1, reach(s, max, n - 1));
        assert(longest_there(s, vocab, max, n - 1, k));
    }
}

proof fn lemma_longest_there(s: Seq<char>, vocab: Set<Seq<char>>, max: nat, i: int, j: int) -> (k: int)
    requires
        0 <= i < s.len(),
        longest(s, vocab, i, j) is Some,
        j <= reach(s, max, i),
        forall|m: int|
            j < m <= s.len() && m - i <= max ==> !vocab.contains(#[trigger] s.subrange(i, m)),
    ensures
        longest_there(s, vocab, max, i, k),
        longest(s, vocab, i, j) == Some(s.subrange(i, k)),
    decreases j - i,
{
    if vocab.contains(s.subrange(i, j)) {
        j
    } else {
        lemma_longest_there(s, vocab, max, i, j - 1)
    }
}

/// What is found of the headwords in a sentence is listed in order, each word once, and each is
/// the longest headword at some place.
pub proof fn law_what_is_found_in_a_sentence(zh: Seq<RawZhView>, s: Seq<char>, w: Seq<char>, i: int, j: int)
    ensures
        0 <= i < j < zh_found(zh, s).len() ==> text_less(zh_found(zh, s)[i], zh_found(zh, s)[j]),
        zh_found(zh, s).contains(w) ==> exists|a: int, b: int| #[trigger]
            longest_there(s, zh_vocab(zh), 6, a, b) && w == s.subrange(a, b),
{
    let f = longest_upto(s, zh_vocab(zh), 6, s.len());
    law_sorted_texts_are_sorted(f);
    if 0 <= i < j < zh_found(zh, s).len() {
        assert(text_order()(zh_found(zh, s)[i], zh_found(zh, s)[j]));
    }
    if zh_found(zh, s).contains(w) {
        assert(f.contains(w));
        law_only_the_longest_word_is_found(s, zh_vocab(zh), 6, s.len(), w);
    }
}

/// Attaching examples leaves every other field of a headword as it was.
pub proof fn law_attaching_leaves_every_other_field(
    zh: Seq<RawZhView>,
    en: Seq<RawEnView>,
    pairs: Seq<(Seq<char>, Seq<char>)>,
    n: nat,
    i: int,
)
    ensures
        0 <= i < zh.len() ==> {
            let x = zh_attached(zh, pairs, n)[i];
            zh[i] == (RawZhView {
                entry: EntryView { examples: zh[i].entry.examples, ..x.entry },
                ..x
            })
        },
        0 <= i < en.len() ==> {
            let x = en_attached(en, pairs, n)[i];
            en[i] == (RawEnView {
                entry: EntryView { examples: en[i].entry.examples, ..x.entry },
                ..x
            })
        },
{
}

/// The variants of a character are kept by rising number, each once: all that were noted, and
/// no others.
pub proof fn law_variants_rise(r: Seq<char>, s: Seq<char>, i: int, j: int, c: char)
    requires
        is_sorted_set(char_order(), r, s),
    ensures
        0 <= i < j < r.len() ==> (r[i] as u32) < (r[j] as u32),
        r.contains(c) <==> s.contains(c),
{
    if 0 <= i < j < r.len() {
        assert(char_order()(r[i], r[j]));
    }
}

/// Texts are kept in the order of their bytes and numbers in their own, each once.
pub proof fn law_sorted_lists_rise(
    r: Seq<Seq<char>>,
    s: Seq<Seq<char>>,
    p: Seq<u32>,
    q: Seq<u32>,
    i: int,
    j: int,
    w: Seq<char>,
    n: u32,
)
    requires
        is_sorted_set(text_order(), r, s),
        is_sorted_set(number_order(), p, q),
    ensures
        0 <= i < j < r.len() ==> bytes_less(
            vstd::utf8::encode_utf8(r[i]),
            vstd::utf8::encode_utf8(r[j]),
        ),
        r.contains(w) <==> s.contains(w),
        0 <= i < j < p.len() ==> p[i] < p[j],
        p.contains(n) <==> q.contains(n),
{
    if 0 <= i < j < r.len() {
        assert(text_order()(r[i], r[j]));
    }
    if 0 <= i < j < p.len() {
        assert(number_order()(p[i], p[j]));
    }
}

} // verus!
