//! What a row of ECDICT comes to: its forms, its tags and its senses.
use crate::english::{
    best_pos, cjk_words, form_name, forms_of, kept, lemma_of, lines_of, looks_like_pos, pos_of,
    pos_prefix, rank_of, read_exchange, row_headword, split_pair, stars, tag_name, tag_names,
    tags_of, trans_words, EcRow, RawEnView,
};
use crate::letters::lowercase;
use crate::number::parsed_i32;
use crate::single::Double;
use crate::sorted::{law_sorted_texts_are_sorted, text_less, text_order};
use crate::text::{
    each_trimmed, ends_bare, is_cjk_spec, is_space_spec, join, lacks, lemma_non_empty_cat,
    lemma_split_cat, lemma_trimmed_keeps, lemma_until, lemma_until_is, non_empty, split_by,
    trimmed, words_of, CharClass, NotCjk, One, Space,
};
use vstd::prelude::*;
use vstd::string::*;

verus! {

// ───────────────────────── forms ─────────────────────────

/// The kinds of forms are read one by one, whatever came before.
pub proof fn law_forms_add_up(a: Seq<Seq<char>>, b: Seq<Seq<char>>)
    ensures
        read_exchange(a + b).0 == read_exchange(a).0 + read_exchange(b).0,
        read_exchange(a + b).1 == if read_exchange(b).1 is Some {
            read_exchange(b).1
        } else {
            read_exchange(a).1
        },
    decreases b.len(),
{
    if b.len() == 0 {
        assert(a + b =~= a);
        assert(read_exchange(b).0 =~= Seq::<Seq<char>>::empty());
    } else {
        law_forms_add_up(a, b.drop_last());
        assert((a + b).drop_last() =~= a + b.drop_last());
        assert((a + b).last() == b.last());
    }
    assert(read_exchange(a + b).0 =~= read_exchange(a).0 + read_exchange(b).0);
}

pub proof fn lemma_join_cat(a: Seq<Seq<char>>, b: Seq<Seq<char>>, sep: Seq<char>)
    requires
        a.len() > 0,
        b.len() > 0,
    ensures
        join(a + b, sep) == join(a, sep) + sep + join(b, sep),
    decreases b.len(),
{
    let c = b.drop_last();
    assert((a + b).drop_last() =~= a + c);
    assert((a + b).last() == b.last());
    if c.len() == 0 {
        assert(a + c =~= a);
        assert(join(a + b, sep) =~= join(a, sep) + sep + join(b, sep));
    } else {
        lemma_join_cat(a, c, sep);
        assert(join(a + b, sep) =~= join(a, sep) + sep + join(b, sep));
    }
}

/// The forms of two exchange fields with a slash between them are those of the first and then
/// those of the second, with a dot between.
pub proof fn law_forms_of_a_row_add_up(a: Seq<char>, b: Seq<char>)
    ensures
        read_exchange(split_by(a, One('/'))).0.len() > 0 && read_exchange(
            split_by(b, One('/')),
        ).0.len() > 0 ==> forms_of(a + seq!['/'] + b) == forms_of(a) + seq![' ', '·', ' ']
            + forms_of(b),
        read_exchange(split_by(b, One('/'))).0.len() == 0 ==> forms_of(a + seq!['/'] + b)
            == forms_of(a),
        read_exchange(split_by(a, One('/'))).0.len() == 0 ==> forms_of(a + seq!['/'] + b)
            == forms_of(b),
        lemma_of(a + seq!['/'] + b) == if lemma_of(b) is Some {
            lemma_of(b)
        } else {
            lemma_of(a)
        },
{
    lemma_split_cat(a, '/', b, One('/'));
    let x = split_by(a, One('/'));
    let y = split_by(b, One('/'));
    law_forms_add_up(x, y);
    reveal_strlit(" · ");
    assert(" · "@ =~= seq![' ', '·', ' ']);
    let p = read_exchange(x).0;
    let q = read_exchange(y).0;
    if p.len() > 0 && q.len() > 0 {
        lemma_join_cat(p, q, " · "@);
    }
    if q.len() == 0 {
        assert(p + q =~= p);
    }
    if p.len() == 0 {
        assert(p + q =~= q);
    }
}

proof fn lemma_one_exchange(k: char, x: Seq<char>)
    requires
        k != '/' && k != ':',
        lacks(x, '/'),
    ensures
        split_by(seq![k, ':'] + x, One('/')) == seq![seq![k, ':'] + x],
        split_pair(seq![k, ':'] + x, ':') == Some((seq![k], x)),
        read_exchange(seq![seq![k, ':'] + x].drop_last()) == (
            Seq::<Seq<char>>::empty(),
            None::<Seq<char>>,
        ),
        seq![seq![k, ':'] + x].last() == seq![k, ':'] + x,
{
    let s = seq![k, ':'] + x;
    assert forall|i: int| 0 <= i < s.len() implies !One('/').holds(#[trigger] s[i]) by {
        if i >= 2 {
            assert(s[i] == x[i - 2]);
        }
    }
    lemma_until_is(s, One('/'), s.len() as int);
    assert(s[0] == k && s[1] == ':');
    lemma_until_is(s, One(':'), 1);
    assert(s.take(1) =~= seq![k]);
    assert(s.skip(2) =~= x);
    let g = seq![s];
    assert(g.drop_last() =~= Seq::<Seq<char>>::empty());
    assert(read_exchange(Seq::empty()).0 =~= Seq::<Seq<char>>::empty());
}

proof fn lemma_one_form(k: char, x: Seq<char>, name: Seq<char>)
    requires
        k != '/' && k != ':' && k != '0',
        lacks(x, '/'),
        trimmed(x).len() > 0,
        form_name(seq![k]) == Some(name),
    ensures
        read_exchange(split_by(seq![k, ':'] + x, One('/'))).0.len() == 1,
        forms_of(seq![k, ':'] + x) == name + seq![' '] + trimmed(x),
        lemma_of(seq![k, ':'] + x) is None,
{
    lemma_one_exchange(k, x);
    reveal_strlit("0");
    reveal_strlit(" ");
    assert(" "@ =~= seq![' ']);
    assert("0"@[0] == '0');
    assert(seq![k][0] == k);
    let g = seq![seq![k, ':'] + x];
    let f = read_exchange(g).0;
    assert(f =~= seq![name + " "@ + trimmed(x)]);
    assert(join(f, " · "@) == f[0]);
}

proof fn lemma_key(k: char, key: Seq<char>)
    requires
        key.len() == 1,
    ensures
        seq![k] == key <==> key[0] == k,
{
    assert(seq![k][0] == k);
    if key[0] == k {
        assert(seq![k] =~= key);
    }
}

/// The line of forms names each kind as it is called: `p` is the past tense, `d` the past
/// participle, `i` the present participle, `3` the third person, `r` the comparative, `t` the
/// superlative and `s` the plural.
pub proof fn law_kinds_of_forms_are_named(row: EcRow, k: char, x: Seq<char>)
    requires
        row_headword(row) is Some,
        row.exchange@ == seq![k, ':'] + x,
        lacks(x, '/'),
        trimmed(x).len() > 0,
    ensures
        k == 'p' ==> row_headword(row)->0.entry.forms == seq!['过', '去', '式', ' '] + trimmed(x),
        k == 'd' ==> row_headword(row)->0.entry.forms == seq!['过', '去', '分', '词', ' ']
            + trimmed(x),
        k == 'i' ==> row_headword(row)->0.entry.forms == seq!['现', '在', '分', '词', ' ']
            + trimmed(x),
        k == '3' ==> row_headword(row)->0.entry.forms == seq!['三', '单', ' '] + trimmed(x),
        k == 'r' ==> row_headword(row)->0.entry.forms == seq!['比', '较', '级', ' '] + trimmed(x),
        k == 't' ==> row_headword(row)->0.entry.forms == seq!['最', '高', '级', ' '] + trimmed(x),
        k == 's' ==> row_headword(row)->0.entry.forms == seq!['复', '数', ' '] + trimmed(x),
        "pdi3rts"@.contains(k) ==> row_headword(row)->0.lemma is None,
{
    reveal_strlit("p");
    reveal_strlit("d");
    reveal_strlit("i");
    reveal_strlit("3");
    reveal_strlit("r");
    reveal_strlit("t");
    reveal_strlit("s");
    reveal_strlit("pdi3rts");
    reveal_strlit("过去式");
    reveal_strlit("过去分词");
    reveal_strlit("现在分词");
    reveal_strlit("三单");
    reveal_strlit("比较级");
    reveal_strlit("最高级");
    reveal_strlit("复数");
    lemma_key(k, "p"@);
    lemma_key(k, "d"@);
    lemma_key(k, "i"@);
    lemma_key(k, "3"@);
    lemma_key(k, "r"@);
    lemma_key(k, "t"@);
    lemma_key(k, "s"@);
    let t = trimmed(x);
    if k == 'p' {
        lemma_one_form(k, x, "过去式"@);
        assert("过去式"@ + seq![' '] + t =~= seq!['过', '去', '式', ' '] + t);
    } else if k == 'd' {
        lemma_one_form(k, x, "过去分词"@);
        assert("过去分词"@ + seq![' '] + t =~= seq!['过', '去', '分', '词', ' '] + t);
    } else if k == 'i' {
        lemma_one_form(k, x, "现在分词"@);
        assert("现在分词"@ + seq![' '] + t =~= seq!['现', '在', '分', '词', ' '] + t);
    } else if k == '3' {
        lemma_one_form(k, x, "三单"@);
        assert("三单"@ + seq![' '] + t =~= seq!['三', '单', ' '] + t);
    } else if k == 'r' {
        lemma_one_form(k, x, "比较级"@);
        assert("比较级"@ + seq![' '] + t =~= seq!['比', '较', '级', ' '] + t);
    } else if k == 't' {
        lemma_one_form(k, x, "最高级"@);
        assert("最高级"@ + seq![' '] + t =~= seq!['最', '高', '级', ' '] + t);
    } else if k == 's' {
        lemma_one_form(k, x, "复数"@);
        assert("复数"@ + seq![' '] + t =~= seq!['复', '数', ' '] + t);
    }
}

/// The base form stands under `0`, in lower case, and is no form; any other kind of one
/// character is passed over.
pub proof fn law_the_base_form_stands_under_zero(row: EcRow, k: char, x: Seq<char>)
    requires
        row_headword(row) is Some,
        row.exchange@ == seq![k, ':'] + x,
        k != '/' && k != ':',
        lacks(x, '/'),
        trimmed(x).len() > 0,
    ensures
        k == '0' ==> row_headword(row)->0.lemma == Some(lowercase(trimmed(x))),
        k != '0' ==> row_headword(row)->0.lemma is None,
        k == '0' ==> row_headword(row)->0.entry.forms.len() == 0,
{
    lemma_one_exchange(k, x);
    reveal_strlit("0");
    lemma_key(k, "0"@);
    let g = seq![seq![k, ':'] + x];
    assert(read_exchange(g).0.len() == 0 ==> read_exchange(g).0 =~= Seq::<Seq<char>>::empty());
}

// ───────────────────────── tags ─────────────────────────

proof fn lemma_tag_names_cat(a: Seq<Seq<char>>, b: Seq<Seq<char>>)
    ensures
        tag_names(a + b) == tag_names(a) + tag_names(b),
    decreases b.len(),
{
    if b.len() == 0 {
        assert(a + b =~= a);
    } else {
        lemma_tag_names_cat(a, b.drop_last());
        assert((a + b).drop_last() =~= a + b.drop_last());
        assert((a + b).last() == b.last());
    }
    assert(tag_names(a + b) =~= tag_names(a) + tag_names(b));
}

/// The tags of two lists with a blank between them are those of the first and then those of
/// the second.
pub proof fn law_tags_add_up(a: Seq<char>, b: Seq<char>)
    ensures
        tag_names(words_of(a + seq![' '] + b)) == tag_names(words_of(a)) + tag_names(words_of(b)),
{
    lemma_split_cat(a, ' ', b, Space);
    lemma_non_empty_cat(split_by(a, Space), split_by(b, Space));
    lemma_tag_names_cat(words_of(a), words_of(b));
}

/// A word without blanks is one word.
proof fn lemma_single_word(t: Seq<char>)
    requires
        t.len() > 0,
        forall|i: int| 0 <= i < t.len() ==> !is_space_spec(#[trigger] t[i]),
    ensures
        words_of(t) == seq![t],
{
    assert forall|i: int| 0 <= i < t.len() implies !Space.holds(#[trigger] t[i]) by {}
    lemma_until_is(t, Space, t.len() as int);
    let one = seq![t];
    assert(one.drop_last() =~= Seq::<Seq<char>>::empty() && one.last() == t);
    assert(non_empty(one.drop_last()) =~= Seq::<Seq<char>>::empty());
    assert(non_empty(one) =~= one);
}

/// What each tag is called, and that an unknown one is passed over.
pub proof fn law_tags_are_named(t: Seq<char>)
    requires
        t.len() > 0,
        forall|i: int| 0 <= i < t.len() ==> !is_space_spec(#[trigger] t[i]),
    ensures
        t == seq!['z', 'k'] ==> tag_names(words_of(t)) == seq![seq!['中', '考']],
        t == seq!['g', 'k'] ==> tag_names(words_of(t)) == seq![seq!['高', '考']],
        t == seq!['k', 'y'] ==> tag_names(words_of(t)) == seq![seq!['考', '研']],
        t == seq!['c', 'e', 't', '4'] ==> tag_names(words_of(t)) == seq![seq!['四', '级']],
        t == seq!['c', 'e', 't', '6'] ==> tag_names(words_of(t)) == seq![seq!['六', '级']],
        t == seq!['t', 'o', 'e', 'f', 'l'] ==> tag_names(words_of(t)) == seq![seq!['托', '福']],
        t == seq!['i', 'e', 'l', 't', 's'] ==> tag_names(words_of(t)) == seq![seq!['雅', '思']],
        t == seq!['g', 'r', 'e'] ==> tag_names(words_of(t)) == seq![seq!['G', 'R', 'E']],
        t != seq!['z', 'k'] && t != seq!['g', 'k'] && t != seq!['k', 'y'] && t != seq![
            'c',
            'e',
            't',
            '4',
        ] && t != seq!['c', 'e', 't', '6'] && t != seq!['t', 'o', 'e', 'f', 'l'] && t != seq![
            'i',
            'e',
            'l',
            't',
            's',
        ] && t != seq!['g', 'r', 'e'] ==> tag_names(words_of(t)).len() == 0,
{
    lemma_single_word(t);
    let one = seq![t];
    assert(one.drop_last() =~= Seq::<Seq<char>>::empty() && one.last() == t);
    assert(tag_names(one.drop_last()) =~= Seq::<Seq<char>>::empty());
    lemma_tag_literals();
    if let Some(n) = tag_name(t) {
        assert(tag_names(one) =~= seq![n]);
    }
}

proof fn lemma_tag_literals()
    ensures
        "zk"@ == seq!['z', 'k'] && "中考"@ == seq!['中', '考'],
        "gk"@ == seq!['g', 'k'] && "高考"@ == seq!['高', '考'],
        "ky"@ == seq!['k', 'y'] && "考研"@ == seq!['考', '研'],
        "cet4"@ == seq!['c', 'e', 't', '4'] && "四级"@ == seq!['四', '级'],
        "cet6"@ == seq!['c', 'e', 't', '6'] && "六级"@ == seq!['六', '级'],
        "toefl"@ == seq!['t', 'o', 'e', 'f', 'l'] && "托福"@ == seq!['托', '福'],
        "ielts"@ == seq!['i', 'e', 'l', 't', 's'] && "雅思"@ == seq!['雅', '思'],
        "gre"@ == seq!['g', 'r', 'e'] && "GRE"@ == seq!['G', 'R', 'E'],
        seq!['z', 'k'] != seq!['g', 'k'] && seq!['z', 'k'] != seq!['k', 'y'],
        seq!['g', 'k'] != seq!['k', 'y'],
        seq!['c', 'e', 't', '4'] != seq!['c', 'e', 't', '6'],
        seq!['t', 'o', 'e', 'f', 'l'] != seq!['i', 'e', 'l', 't', 's'],
{
    reveal_strlit("zk");
    reveal_strlit("gk");
    reveal_strlit("ky");
    reveal_strlit("cet4");
    reveal_strlit("cet6");
    reveal_strlit("toefl");
    reveal_strlit("ielts");
    reveal_strlit("gre");
    reveal_strlit("中考");
    reveal_strlit("高考");
    reveal_strlit("考研");
    reveal_strlit("四级");
    reveal_strlit("六级");
    reveal_strlit("托福");
    reveal_strlit("雅思");
    reveal_strlit("GRE");
    assert("zk"@ =~= seq!['z', 'k'] && "中考"@ =~= seq!['中', '考']);
    assert("gk"@ =~= seq!['g', 'k'] && "高考"@ =~= seq!['高', '考']);
    assert("ky"@ =~= seq!['k', 'y'] && "考研"@ =~= seq!['考', '研']);
    assert("cet4"@ =~= seq!['c', 'e', 't', '4'] && "四级"@ =~= seq!['四', '级']);
    assert("cet6"@ =~= seq!['c', 'e', 't', '6'] && "六级"@ =~= seq!['六', '级']);
    assert("toefl"@ =~= seq!['t', 'o', 'e', 'f', 'l'] && "托福"@ =~= seq!['托', '福']);
    assert("ielts"@ =~= seq!['i', 'e', 'l', 't', 's'] && "雅思"@ =~= seq!['雅', '思']);
    assert("gre"@ =~= seq!['g', 'r', 'e'] && "GRE"@ =~= seq!['G', 'R', 'E']);
    assert(seq!['z', 'k'][0] == 'z' && seq!['g', 'k'][0] == 'g' && seq!['k', 'y'][0] == 'k');
    assert(seq!['c', 'e', 't', '4'][3] == '4' && seq!['c', 'e', 't', '6'][3] == '6');
    assert(seq!['t', 'o', 'e', 'f', 'l'][0] == 't' && seq!['i', 'e', 'l', 't', 's'][0] == 'i');
}

/// The stars of Collins follow the tags, at most five, and the mark of Oxford comes last.
pub proof fn law_stars_and_the_core_mark(
    tag: Seq<char>,
    collins: Seq<char>,
    oxford: Seq<char>,
)
    ensures
        ({
            let names = tag_names(words_of(tag));
            let n = parsed_i32(trimmed(collins));
            let starred = if n is Some && n->0 > 0 {
                seq![
                    seq!['柯', '林', '斯', ' '] + Seq::new(
                        if n->0 >= 5 {
                            5nat
                        } else {
                            n->0 as nat
                        },
                        |i: int| '★',
                    ),
                ]
            } else {
                Seq::<Seq<char>>::empty()
            };
            let core = if trimmed(oxford) == seq!['1'] {
                seq![seq!['牛', '津', '核', '心']]
            } else {
                Seq::<Seq<char>>::empty()
            };
            tags_of(tag, collins, oxford) == names + starred + core
        }),
{
    reveal_strlit("柯林斯 ");
    reveal_strlit("牛津核心");
    reveal_strlit("1");
    assert("1"@ =~= seq!['1']);
    assert("柯林斯 "@ =~= seq!['柯', '林', '斯', ' ']);
    assert("牛津核心"@ =~= seq!['牛', '津', '核', '心']);
    let names = tag_names(words_of(tag));
    let e = Seq::<Seq<char>>::empty();
    let n = parsed_i32(trimmed(collins));
    if n is Some && n->0 > 0 {
        let k = if n->0 >= 5 {
            5nat
        } else {
            n->0 as nat
        };
        let x = seq!['柯', '林', '斯', ' '] + Seq::new(k, |i: int| '★');
        assert(stars(k) =~= Seq::new(k, |i: int| '★'));
        assert(names.push(x) =~= names + seq![x]);
        assert(names + seq![x] + e =~= names + seq![x]);
        assert((names + seq![x]).push("牛津核心"@) =~= names + seq![x] + seq![
            seq!['牛', '津', '核', '心'],
        ]);
    } else {
        assert(names + e =~= names);
        assert(names + e + e =~= names);
        assert(names.push("牛津核心"@) =~= names + e + seq![seq!['牛', '津', '核', '心']]);
    }
}

// ───────────────────────── senses ─────────────────────────

/// Every line of the translation is a sense, whatever came before; and where there are as many
/// lines of definitions, each is the note of its sense.
pub proof fn law_every_line_is_a_sense(row: EcRow, i: int)
    requires
        row_headword(row) is Some,
    ensures
        row_headword(row)->0.entry.senses.len() == lines_of(row.translation@).len(),
        0 <= i < lines_of(row.translation@).len() ==> {
            let s = row_headword(row)->0.entry.senses[i];
            &&& (s.pos, s.text) == pos_prefix(lines_of(row.translation@)[i])
            &&& s.reg.len() == 0
            &&& lines_of(row.definition@).len() == lines_of(row.translation@).len() ==> s.note
                == lines_of(row.definition@)[i]
            &&& lines_of(row.definition@).len() != lines_of(row.translation@).len()
                ==> s.note.len() == 0
        },
{
}

/// Two texts with a line break between them have the lines of the first and then those of the
/// second; one without a line break is one line, unless it is blank.
pub proof fn law_lines_add_up(a: Seq<char>, b: Seq<char>)
    ensures
        lines_of(a + seq!['\n'] + b) == lines_of(a) + lines_of(b),
        lacks(a, '\n') && trimmed(a).len() > 0 ==> lines_of(a) == seq![trimmed(a)],
        lacks(a, '\n') && trimmed(a).len() == 0 ==> lines_of(a).len() == 0,
{
    lemma_split_cat(a, '\n', b, One('\n'));
    let x = split_by(a, One('\n'));
    let y = split_by(b, One('\n'));
    assert(each_trimmed(x + y) =~= each_trimmed(x) + each_trimmed(y));
    lemma_non_empty_cat(each_trimmed(x), each_trimmed(y));
    if lacks(a, '\n') {
        assert forall|i: int| 0 <= i < a.len() implies !One('\n').holds(#[trigger] a[i]) by {}
        lemma_until_is(a, One('\n'), a.len() as int);
        let one = each_trimmed(x);
        assert(one =~= seq![trimmed(a)]);
        assert(one.drop_last() =~= Seq::<Seq<char>>::empty() && one.last() == trimmed(a));
        assert(non_empty(one.drop_last()) =~= Seq::<Seq<char>>::empty());
        assert(non_empty(one) =~= if trimmed(a).len() == 0 {
            Seq::<Seq<char>>::empty()
        } else {
            seq![trimmed(a)]
        });
    }
}

/// A part of speech or a domain at the front of a line is taken off: letters and dots that end
/// in a dot, eight at most, or anything in square brackets. Any other line is all text.
pub proof fn law_parts_of_speech_are_taken_off(head: Seq<char>, c: char, x: Seq<char>)
    requires
        head.len() > 0,
        forall|i: int| 0 <= i < head.len() ==> !is_space_spec(#[trigger] head[i]),
        is_space_spec(c),
        x.len() > 0,
        ends_bare(x),
    ensures
        pos_prefix(head + seq![c] + x) == if (head.last() == '.' && head.len() <= 8 && forall|
            i: int,
        |
            0 <= i < head.len() ==> ('a' <= #[trigger] head[i] <= 'z') || ('A' <= head[i] <= 'Z')
                || head[i] == '.') || (head[0] == '[' && head.last() == ']') {
            (head, x)
        } else {
            (Seq::empty(), head + seq![c] + x)
        },
        pos_prefix(head) == (Seq::<char>::empty(), head),
{
    let t = head + seq![c] + x;
    let n = head.len() as int;
    assert(t[0] == head[0] && t.last() == x.last());
    lemma_trimmed_keeps(t);
    assert(head.last() == head[n - 1]);
    lemma_trimmed_keeps(head);
    lemma_trimmed_keeps(x);
    assert forall|i: int| 0 <= i < n implies !Space.holds(#[trigger] t[i]) by {
        assert(t[i] == head[i]);
    }
    assert(t[n] == c);
    lemma_until_is(t, Space, n);
    assert(t.take(n) =~= head);
    assert(t.skip(n + 1) =~= x);
    assert forall|i: int| 0 <= i < n implies !Space.holds(#[trigger] head[i]) by {}
    lemma_until_is(head, Space, n);
    let lit = head.last() == '.' && head.len() <= 8 && forall|i: int|
        0 <= i < head.len() ==> ('a' <= #[trigger] head[i] <= 'z') || ('A' <= head[i] <= 'Z')
            || head[i] == '.';
    assert(looks_like_pos(head) == lit);
}

/// A part `k:n` gives `k` a share of `n`, or of nothing where `n` is no number.
pub open spec fn gives_share(part: Seq<char>, k: Seq<char>, n: int) -> bool {
    exists|a: Seq<char>, b: Seq<char>|
        part == #[trigger] (a + seq![':'] + b) && lacks(a, ':') && trimmed(a) == k && (parsed_i32(
            trimmed(b),
        ) == Some(n) || (parsed_i32(trimmed(b)) is None && n == 0))
}

proof fn lemma_pair_shares(part: Seq<char>)
    ensures
        split_pair(part, ':') is Some ==> {
            let (a, b) = split_pair(part, ':')->0;
            part == a + seq![':'] + b && lacks(a, ':')
        },
        forall|a: Seq<char>, b: Seq<char>|
            part == #[trigger] (a + seq![':'] + b) && lacks(a, ':') ==> split_pair(part, ':')
                == Some((a, b)),
{
    lemma_until(part, One(':'));
    if let Some((a, b)) = split_pair(part, ':') {
        assert(part =~= a + seq![':'] + b);
        assert forall|i: int| 0 <= i < a.len() implies #[trigger] a[i] != ':' by {
            assert(!One(':').holds(part[i]));
        }
    }
    assert forall|a: Seq<char>, b: Seq<char>|
        part == #[trigger] (a + seq![':'] + b) && lacks(a, ':') implies split_pair(part, ':')
        == Some((a, b)) by {
        let n = a.len() as int;
        assert forall|i: int| 0 <= i < n implies !One(':').holds(#[trigger] part[i]) by {
            assert(part[i] == a[i]);
        }
        assert(part[n] == ':');
        lemma_until_is(part, One(':'), n);
        assert(part.take(n) =~= a);
        assert(part.skip(n + 1) =~= b);
    }
}

/// The part of speech with the largest share is the entry's: some part gives it that share, and
/// no part gives any a larger one.
pub proof fn law_the_largest_share_wins(parts: Seq<Seq<char>>, i: int, k: Seq<char>, n: int)
    requires
        0 <= i < parts.len(),
        gives_share(parts[i], k, n),
    ensures
        best_pos(parts) is Some,
        n <= (best_pos(parts)->0).1,
        exists|j: int|
            0 <= j < parts.len() && gives_share(
                #[trigger] parts[j],
                (best_pos(parts)->0).0,
                (best_pos(parts)->0).1,
            ),
    decreases parts.len(),
{
    let u = parts.drop_last();
    let x = parts.last();
    lemma_best_from(parts);
    lemma_pair_shares(parts[i]);
    let (a, b) = choose|a: Seq<char>, b: Seq<char>|
        parts[i] == #[trigger] (a + seq![':'] + b) && lacks(a, ':') && trimmed(a) == k && (
        parsed_i32(trimmed(b)) == Some(n) || (parsed_i32(trimmed(b)) is None && n == 0));
    assert(split_pair(parts[i], ':') == Some((a, b)));
    if i < u.len() {
        assert(u[i] == parts[i]);
        law_the_largest_share_wins(u, i, k, n);
    } else {
        assert(parts[i] == x);
    }
}

proof fn lemma_best_from(parts: Seq<Seq<char>>)
    ensures
        best_pos(parts) is Some ==> exists|j: int|
            0 <= j < parts.len() && gives_share(
                #[trigger] parts[j],
                (best_pos(parts)->0).0,
                (best_pos(parts)->0).1,
            ),
    decreases parts.len(),
{
    if parts.len() > 0 {
        let u = parts.drop_last();
        let x = parts.last();
        lemma_best_from(u);
        lemma_pair_shares(x);
        if best_pos(u) is Some {
            let (k, n) = best_pos(u)->0;
            let j = choose|j: int| 0 <= j < u.len() && gives_share(#[trigger] u[j], k, n);
            assert(gives_share(parts[j], k, n));
        }
        if let Some((a, b)) = split_pair(x, ':') {
            let n = match parsed_i32(trimmed(b)) {
                Some(n) => n,
                None => 0,
            };
            assert(x == a + seq![':'] + b);
            assert(gives_share(parts[parts.len() - 1], trimmed(a), n));
        }
    }
}

/// The simple fields of an English headword, each from the column that it belongs to; the part
/// of speech has its dot.
pub proof fn law_fields_of_a_row(row: EcRow)
    ensures
        row_headword(row) is Some <==> trimmed(row.word@).len() > 0 && lines_of(
            row.translation@,
        ).len() > 0,
        row_headword(row) matches Some(h) ==> {
            &&& h.entry.kind == 1
            &&& h.entry.word == trimmed(row.word@)
            &&& h.entry.trad.len() == 0
            &&& h.entry.tones.len() == 0
            &&& h.entry.reading == if trimmed(row.phonetic@).len() == 0 {
                Seq::empty()
            } else {
                seq!['/'] + trimmed(row.phonetic@) + seq!['/']
            }
            &&& h.entry.tags == join(
                tags_of(row.tag@, row.collins@, row.oxford@),
                seq![' ', '·', ' '],
            )
            &&& h.entry.pos == match best_pos(split_by(row.pos@, One(','))) {
                Some((k, n)) => k + seq!['.'],
                None => Seq::empty(),
            }
            &&& h.entry.raw == if trimmed(row.definition@).len() == 0 {
                trimmed(row.translation@)
            } else {
                trimmed(row.translation@) + seq!['\n', '—', ' ', '—', ' ', '—', '\n'] + trimmed(
                    row.definition@,
                )
            }
            &&& h.entry.xrefs.len() == 0
            &&& h.entry.examples.len() == 0
        },
{
    reveal_strlit("/");
    reveal_strlit(" · ");
    reveal_strlit(".");
    reveal_strlit("\n— — —\n");
    assert("/"@ =~= seq!['/']);
    assert("."@ =~= seq!['.']);
    assert(" · "@ =~= seq![' ', '·', ' ']);
    assert("\n— — —\n"@ =~= seq!['\n', '—', ' ', '—', ' ', '—', '\n']);
}

/// The rank is the smaller of the two that are known, a rank being known where it is above
/// zero.
pub proof fn law_the_better_rank_counts(bnc: Option<Double>, frq: Option<Double>)
    ensures
        rank_of(bnc, frq) is Some <==> (bnc is Some && !bnc->0.is_nan_spec() && bnc->0.order() > 0)
            || (frq is Some && !frq->0.is_nan_spec() && frq->0.order() > 0),
        bnc is Some && !bnc->0.is_nan_spec() && bnc->0.order() > 0 ==> rank_of(
            bnc,
            frq,
        )->0.order() <= bnc->0.order(),
        frq is Some && !frq->0.is_nan_spec() && frq->0.order() > 0 ==> rank_of(
            bnc,
            frq,
        )->0.order() <= frq->0.order(),
        rank_of(bnc, frq) is Some ==> rank_of(bnc, frq) == bnc || rank_of(bnc, frq) == frq,
{
}

/// What is kept of the English headwords: one with a rank, one with a tag, and any single word
/// of two to twenty-four ASCII letters, hyphens and apostrophes.
pub proof fn law_which_headwords_are_kept(r: RawEnView)
    ensures
        kept(r) <==> r.rank is Some || r.entry.tags.len() > 0 || (2 <= r.entry.word.len() <= 24
            && forall|i: int|
            0 <= i < r.entry.word.len() ==> ('a' <= #[trigger] r.entry.word[i] <= 'z') || ('A'
                <= r.entry.word[i] <= 'Z') || r.entry.word[i] == '-' || r.entry.word[i] == '\''),
{
    if kept(r) && r.rank is None && r.entry.tags.len() == 0 {
        assert forall|i: int| 0 <= i < r.entry.word.len() implies ('a' <= #[trigger] r.entry.word[i]
            <= 'z') || ('A' <= r.entry.word[i] <= 'Z') || r.entry.word[i] == '-' || r.entry.word[i]
            == '\'' by {
            assert(crate::english::is_word_char(r.entry.word[i]));
        }
    }
}

/// The runs of Han characters of every sense are indexed, and nothing else.
pub proof fn law_han_runs_are_indexed(cn: Seq<Seq<char>>, line: Seq<char>, a: Seq<char>, c: char, b: Seq<char>)
    requires
        !is_cjk_spec(c),
    ensures
        trans_words(cn.push(line)) == trans_words(cn) + cjk_words(pos_prefix(line).1),
        cjk_words(a + seq![c] + b) == cjk_words(a) + cjk_words(b),
        a.len() > 0 && (forall|i: int| 0 <= i < a.len() ==> is_cjk_spec(#[trigger] a[i]))
            ==> cjk_words(a) == seq![a],
{
    assert(cn.push(line).drop_last() =~= cn);
    lemma_split_cat(a, c, b, NotCjk);
    lemma_non_empty_cat(split_by(a, NotCjk), split_by(b, NotCjk));
    if a.len() > 0 && (forall|i: int| 0 <= i < a.len() ==> is_cjk_spec(#[trigger] a[i])) {
        assert forall|i: int| 0 <= i < a.len() implies !NotCjk.holds(#[trigger] a[i]) by {
            assert(is_cjk_spec(a[i]));
        }
        lemma_until_is(a, NotCjk, a.len() as int);
        let one = seq![a];
        assert(one.drop_last() =~= Seq::<Seq<char>>::empty() && one.last() == a);
        assert(non_empty(one.drop_last()) =~= Seq::<Seq<char>>::empty());
        assert(non_empty(one) =~= one);
    }
}

/// The indexed words of a headword are those of its lines, each once.
pub proof fn law_indexed_words_of_a_row(row: EcRow, w: Seq<char>)
    requires
        row_headword(row) is Some,
    ensures
        row_headword(row)->0.trans_tokens.contains(w) <==> trans_words(
            lines_of(row.translation@),
        ).contains(w),
        row_headword(row)->0.rank == rank_of(row.bnc, row.frq),
{
    law_sorted_texts_are_sorted(trans_words(lines_of(row.translation@)));
}

/// What one more form of a row adds: a form that is listed is named, the base form is taken as
/// such, and what is blank, has no colon or is of no listed kind adds nothing.
pub proof fn law_what_a_form_adds(parts: Seq<Seq<char>>, part: Seq<char>, k: Seq<char>, x: Seq<char>)
    ensures
        lacks(part, ':') ==> read_exchange(parts.push(part)) == read_exchange(parts),
        lacks(k, ':') && trimmed(x).len() == 0 ==> read_exchange(parts.push(k + seq![':'] + x))
            == read_exchange(parts),
        lacks(k, ':') && k.len() != 1 ==> read_exchange(parts.push(k + seq![':'] + x))
            == read_exchange(parts),
        k.len() == 1 && k[0] != ':' && k[0] != '0' && k[0] != 'p' && k[0] != 'd' && k[0] != 'i'
            && k[0] != '3' && k[0] != 'r' && k[0] != 't' && k[0] != 's' ==> read_exchange(
            parts.push(k + seq![':'] + x),
        ) == read_exchange(parts),
        k == seq!['0'] && trimmed(x).len() > 0 ==> read_exchange(parts.push(k + seq![':'] + x)) == (
            read_exchange(parts).0,
            Some(lowercase(trimmed(x))),
        ),
        k == seq!['r'] && trimmed(x).len() > 0 ==> read_exchange(parts.push(k + seq![':'] + x)) == (
            read_exchange(parts).0.push(seq!['比', '较', '级', ' '] + trimmed(x)),
            read_exchange(parts).1,
        ),
        k == seq!['t'] && trimmed(x).len() > 0 ==> read_exchange(parts.push(k + seq![':'] + x)) == (
            read_exchange(parts).0.push(seq!['最', '高', '级', ' '] + trimmed(x)),
            read_exchange(parts).1,
        ),
{
    assert(parts.push(part).drop_last() =~= parts);
    assert(parts.push(k + seq![':'] + x).drop_last() =~= parts);
    lemma_pair_shares(part);
    lemma_pair_shares(k + seq![':'] + x);
    if lacks(part, ':') {
        assert(split_pair(part, ':') is None) by {
            if let Some((a, b)) = split_pair(part, ':') {
                assert(part[a.len() as int] == ':');
            }
        }
    }
    reveal_strlit("0");
    reveal_strlit("p");
    reveal_strlit("d");
    reveal_strlit("i");
    reveal_strlit("3");
    reveal_strlit("r");
    reveal_strlit("t");
    reveal_strlit("s");
    reveal_strlit(" ");
    reveal_strlit("比较级");
    reveal_strlit("最高级");
    assert("0"@ =~= seq!['0'] && "r"@ =~= seq!['r'] && "t"@ =~= seq!['t']);
    assert("比较级"@ + " "@ + trimmed(x) =~= seq!['比', '较', '级', ' '] + trimmed(x));
    assert("最高级"@ + " "@ + trimmed(x) =~= seq!['最', '高', '级', ' '] + trimmed(x));
    if k.len() == 1 && k[0] != ':' {
        assert(lacks(k, ':'));
    }
}

/// A later part of speech with as large a share takes the place of an earlier one; one with a
/// smaller share, or without a share, does not.
pub proof fn law_the_later_of_equal_shares_wins(
    parts: Seq<Seq<char>>,
    x: Seq<char>,
    k: Seq<char>,
    n: int,
)
    ensures
        best_pos(Seq::empty()) is None,
        lacks(x, ':') ==> best_pos(parts.push(x)) == best_pos(parts),
        gives_share(x, k, n) && (best_pos(parts) is None || n >= (best_pos(parts)->0).1)
            ==> best_pos(parts.push(x)) == Some((k, n)),
        gives_share(x, k, n) && best_pos(parts) is Some && n < (best_pos(parts)->0).1 ==> best_pos(
            parts.push(x),
        ) == best_pos(parts),
{
    assert(parts.push(x).drop_last() =~= parts);
    lemma_pair_shares(x);
    if lacks(x, ':') {
        if let Some((a, b)) = split_pair(x, ':') {
            assert(x[a.len() as int] == ':');
        }
    }
    if gives_share(x, k, n) {
        let (a, b) = choose|a: Seq<char>, b: Seq<char>|
            x == #[trigger] (a + seq![':'] + b) && lacks(a, ':') && trimmed(a) == k && (parsed_i32(
                trimmed(b),
            ) == Some(n) || (parsed_i32(trimmed(b)) is None && n == 0));
        assert(split_pair(x, ':') == Some((a, b)));
    }
}

/// The indexed words of a row stand in order, each once, and a row has no frequency before one
/// is worked out for it.
pub proof fn law_indexed_words_of_a_row_rise(row: EcRow, i: int, j: int)
    requires
        row_headword(row) is Some,
    ensures
        ({
            let h = row_headword(row)->0;
            &&& 0 <= i < j < h.trans_tokens.len() ==> text_less(h.trans_tokens[i], h.trans_tokens[j])
            &&& h.entry.freq.bits == 0 && h.entry.pct.bits == 0
        }),
{
    law_sorted_texts_are_sorted(trans_words(lines_of(row.translation@)));
    let h = row_headword(row)->0;
    if 0 <= i < j < h.trans_tokens.len() {
        assert(text_order()(h.trans_tokens[i], h.trans_tokens[j]));
    }
}

/// Parts of speech stand between commas.
pub proof fn law_parts_of_speech_stand_between_commas(a: Seq<char>, b: Seq<char>)
    ensures
        split_by(a + seq![','] + b, One(',')) == split_by(a, One(',')) + split_by(b, One(',')),
        lacks(a, ',') ==> split_by(a, One(',')) == seq![a],
        pos_of(a) == match best_pos(split_by(a, One(','))) {
            Some((k, n)) => k + seq!['.'],
            None => Seq::empty(),
        },
{
    lemma_split_cat(a, ',', b, One(','));
    reveal_strlit(".");
    assert("."@ =~= seq!['.']);
    if lacks(a, ',') {
        assert forall|i: int| 0 <= i < a.len() implies !One(',').holds(#[trigger] a[i]) by {}
        lemma_until_is(a, One(','), a.len() as int);
    }
}

} // verus!
