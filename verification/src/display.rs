//! What the user is shown: candidates, the page of an entry, and what each key does.
use crate::letters::lowercase;
use crate::model::EntryView;
use crate::page::{
    example_lines, first_glosses, listed_rows, live_refs, page_shows, piece_views, pieces_spec,
    row_gloss_spec, sense_row_views, sense_rows_spec, voice_text, CandidateRowView, EntryPage,
    ReadingLine,
};
use crate::panel::{
    at_word, escaped_from, moved, opened_at, pressed, refreshed, Keys, Mode, Opening, PanelView,
};
use crate::lane::Lane;
use crate::search::{newcomers, survivors, Hit};
use crate::single::Single;
use crate::store::{best_id, entry_result, ids_spec, looked_up, with_overlay, StoreView};
use crate::text::{join, starts_with, texts, trimmed, words_of};
use crate::voice::Status;
use vstd::prelude::*;
use vstd::string::*;

verus! {

// ───────────────────────── looking a word up ─────────────────────────

proof fn lemma_best(ids: Seq<u32>, pct: Seq<Single>, i: int)
    requires
        0 <= i < ids.len(),
        forall|k: int| 0 <= k < ids.len() ==> !pct[#[trigger] ids[k] as int].is_nan_spec(),
    ensures
        best_id(ids, pct) matches Some(b) && ids.contains(b) && pct[ids[i] as int].order()
            <= pct[b as int].order(),
    decreases ids.len(),
{
    let u = ids.drop_last();
    assert(!pct[ids[ids.len() - 1] as int].is_nan_spec());
    assert forall|k: int| 0 <= k < u.len() implies !pct[#[trigger] u[k] as int].is_nan_spec() by {
        assert(u[k] == ids[k]);
    }
    if u.len() > 0 {
        let j = if i < u.len() {
            i
        } else {
            0
        };
        lemma_best(u, pct, j);
        let b = best_id(u, pct)->0;
        let k = choose|k: int| 0 <= k < u.len() && u[k] == b;
        assert(ids[k] == b);
        assert(!pct[ids[k] as int].is_nan_spec());
        if i < u.len() {
            assert(u[i] == ids[i]);
        }
        assert(ids[ids.len() - 1] == ids.last());
    } else {
        assert(ids[0] == ids.last());
        assert(best_id(u, pct) is None);
    }
}

/// A word is looked up by its trimmed form in lower case, among the Chinese headwords first and
/// then among the English ones; of several entries the most common one is given.
pub proof fn law_the_most_common_entry_is_looked_up(v: StoreView, word: Seq<char>, lane: Lane, i: int)
    requires
        ({
            let key = lowercase(trimmed(word));
            &&& lane == Lane::Zh || (lane == Lane::Enw && (v.exact(Lane::Zh, key) is None
                || ids_spec(v.exact(Lane::Zh, key)->0).len() == 0))
            &&& v.exact(lane, key) is Some
            &&& 0 <= i < ids_spec(v.exact(lane, key)->0).len()
            &&& forall|k: int|
                0 <= k < ids_spec(v.exact(lane, key)->0).len()
                    ==> !v.pct[#[trigger] ids_spec(v.exact(lane, key)->0)[k] as int].is_nan_spec()
        }),
    ensures
        looked_up(v, word) matches Some(b) && ids_spec(
            v.exact(lane, lowercase(trimmed(word)))->0,
        ).contains(b) && v.pct[ids_spec(
            v.exact(lane, lowercase(trimmed(word)))->0,
        )[i] as int].order() <= v.pct[b as int].order(),
{
    let key = lowercase(trimmed(word));
    lemma_best(ids_spec(v.exact(lane, key)->0), v.pct, i);
}

/// A word that is neither a Chinese nor an English headword is not found.
pub proof fn law_what_is_no_headword_is_not_found(v: StoreView, word: Seq<char>)
    requires
        v.exact(Lane::Zh, lowercase(trimmed(word))) is None,
        v.exact(Lane::Enw, lowercase(trimmed(word))) is None,
    ensures
        looked_up(v, word) is None,
{
}

// ───────────────────────── candidates ─────────────────────────

/// The line of a candidate has the texts of its first three senses, with a semicolon between,
/// a Chinese one for an English word.
pub proof fn law_a_candidate_shows_three_senses(e: EntryView)
    ensures
        ({
            let sep = if e.kind == 0 {
                seq![';', ' ']
            } else {
                seq!['；']
            };
            let s = e.senses;
            &&& s.len() == 0 ==> row_gloss_spec(e).len() == 0
            &&& s.len() == 1 ==> row_gloss_spec(e) == s[0].text
            &&& s.len() == 2 ==> row_gloss_spec(e) == s[0].text + sep + s[1].text
            &&& s.len() >= 3 ==> row_gloss_spec(e) == s[0].text + sep + s[1].text + sep + s[2].text
        }),
{
    reveal_strlit("; ");
    reveal_strlit("；");
    assert("; "@ =~= seq![';', ' ']);
    assert("；"@ =~= seq!['；']);
    let s = e.senses;
    let sep = if e.kind == 0 {
        seq![';', ' ']
    } else {
        seq!['；']
    };
    let f = first_glosses(s, 3);
    assert(row_gloss_spec(e) == join(f, sep));
    if s.len() >= 2 {
        let g = f.drop_last();
        if s.len() >= 3 {
            let h = g.drop_last();
            assert(h.len() == 1);
            assert(join(h, sep) == h[0]);
            assert(join(g, sep) == h[0] + sep + g.last());
        } else {
            assert(join(g, sep) == g[0]);
        }
    }
}

/// Every hit whose entry can be read has its row, at its place, with the rewritten senses where
/// there are any; and there is no other row.
pub proof fn law_every_hit_has_its_row(v: StoreView, hits: Seq<Hit>, n: nat, k: int)
    requires
        n <= hits.len() <= usize::MAX,
    ensures
        0 <= k < n && entry_result(v, hits[k].id) is Ok ==> listed_rows(v, hits, n).contains(
            (CandidateRowView {
                place: k as usize,
                entry: with_overlay(v, hits[k].id, entry_result(v, hits[k].id)->Ok_0),
                gloss: row_gloss_spec(
                    with_overlay(v, hits[k].id, entry_result(v, hits[k].id)->Ok_0),
                ),
            }),
        ),
        0 <= k < listed_rows(v, hits, n).len() ==> {
            let r = listed_rows(v, hits, n)[k];
            &&& r.place < n
            &&& entry_result(v, hits[r.place as int].id) is Ok
            &&& r.entry == with_overlay(
                v,
                hits[r.place as int].id,
                entry_result(v, hits[r.place as int].id)->Ok_0,
            )
        },
    decreases n,
{
    if n > 0 {
        let a = listed_rows(v, hits, (n - 1) as nat);
        let b = listed_rows(v, hits, n);
        law_every_hit_has_its_row(v, hits, (n - 1) as nat, k);
        if 0 <= k < n && entry_result(v, hits[k].id) is Ok {
            let e = with_overlay(v, hits[k].id, entry_result(v, hits[k].id)->Ok_0);
            let x = CandidateRowView { place: k as usize, entry: e, gloss: row_gloss_spec(e) };
            if k < n - 1 {
                let i = choose|i: int| 0 <= i < a.len() && a[i] == x;
                assert(b[i] == x);
            } else {
                assert(b[b.len() - 1] == x);
            }
        }
    }
}

// ───────────────────────── the page of an entry ─────────────────────────

/// A page shows every sense, with numbers from one on where there are several, and with the
/// part of speech of the entry where a sense has none of its own.
pub proof fn law_a_page_shows_every_sense(e: EntryView, i: int)
    ensures
        sense_rows_spec(e).len() == e.senses.len(),
        0 <= i < e.senses.len() <= usize::MAX ==> {
            let r = sense_rows_spec(e)[i];
            &&& r.text == e.senses[i].text
            &&& r.note == e.senses[i].note
            &&& r.reg == e.senses[i].reg
            &&& e.senses[i].pos.len() > 0 ==> r.pos == e.senses[i].pos
            &&& e.senses[i].pos.len() == 0 ==> r.pos == e.pos
            &&& e.senses.len() == 1 ==> r.number is None
            &&& e.senses.len() > 1 ==> r.number == Some((i + 1) as usize)
        },
{
}

/// A page shows both halves of every example, the half in the language of the entry first.
pub proof fn law_a_page_shows_every_example(e: EntryView, n: nat, i: int)
    requires
        n <= e.examples.len(),
        0 <= i < n,
    ensures
        example_lines(e, n).len() == 2 * n,
        example_lines(e, n)[2 * i] == (e.examples[i].a, e.kind == 0),
        example_lines(e, n)[2 * i + 1] == (e.examples[i].b, e.kind != 0),
    decreases n,
{
    if i < n - 1 {
        law_a_page_shows_every_example(e, (n - 1) as nat, i);
    } else if n > 1 {
        law_a_page_shows_every_example(e, (n - 1) as nat, 0);
    } else {
        assert(example_lines(e, 0).len() == 0);
    }
}

/// A page offers exactly the references that lead to an entry, in their order.
pub proof fn law_a_page_offers_what_leads_somewhere(v: StoreView, refs: Seq<Seq<char>>, x: Seq<char>)
    ensures
        live_refs(v, refs.push(x)) == if looked_up(v, x) is Some {
            live_refs(v, refs).push(x)
        } else {
            live_refs(v, refs)
        },
        live_refs(v, Seq::empty()).len() == 0,
{
    assert(refs.push(x).drop_last() =~= refs);
    assert(refs.push(x).last() == x);
}

/// Each syllable of a reading is shown with its own tone, and one beyond the tones with none.
pub proof fn law_syllables_are_shown_with_their_tones(reading: Seq<char>, tones: Seq<u8>, i: int)
    ensures
        pieces_spec(reading, tones).len() == words_of(reading).len(),
        0 <= i < words_of(reading).len() && i < tones.len() ==> pieces_spec(reading, tones)[i] == (
            words_of(reading)[i],
            tones[i],
        ),
        tones.len() <= i < words_of(reading).len() ==> pieces_spec(reading, tones)[i] == (
            words_of(reading)[i],
            0u8,
        ),
{
}

/// The parts of a page: the reading as pinyin for a Chinese entry and as it is for an English
/// one, the traditional form behind its name, the forms, the senses, the examples and the
/// references.
pub proof fn law_parts_of_a_page(p: EntryPage, v: StoreView, e: EntryView)
    requires
        page_shows(p, v, e),
    ensures
        e.kind == 0 ==> (p.reading matches ReadingLine::Pinyin(x) && piece_views(x@) == pieces_spec(
            e.reading,
            e.tones,
        )),
        e.kind != 0 && e.reading.len() > 0 ==> (p.reading matches ReadingLine::Plain(s) && s@
            == e.reading),
        e.kind != 0 && e.reading.len() == 0 ==> p.reading is Nothing,
        e.trad.len() > 0 ==> (p.meta matches Some(s) && s@ == seq!['繁', '体', ' '] + e.trad),
        e.trad.len() == 0 ==> p.meta is None,
        e.forms.len() > 0 ==> (p.forms matches Some(s) && s@ == e.forms),
        e.forms.len() == 0 ==> p.forms is None,
        sense_row_views(p.senses@) == sense_rows_spec(e),
        crate::page::line_views(p.lines@) == example_lines(e, e.examples.len()),
        texts(p.links@) == live_refs(v, e.xrefs),
{
    reveal_strlit("繁体 ");
    assert("繁体 "@ =~= seq!['繁', '体', ' ']);
}

// ───────────────────────── keys ─────────────────────────

/// The arrows move the selection by one and stop at either end; from a page they lead back to
/// the candidates.
pub proof fn law_arrows_move_by_one(v: PanelView, s: StoreView)
    requires
        v.mode == Mode::List,
        v.sel < v.cands.len(),
    ensures
        moved(v, true) == (PanelView {
            sel: if v.sel + 1 < v.cands.len() {
                v.sel + 1
            } else {
                v.sel
            },
            ..v
        }),
        moved(v, false) == (PanelView {
            sel: if v.sel > 0 {
                (v.sel - 1) as nat
            } else {
                0
            },
            ..v
        }),
{
}

/// Opening a candidate shows its entry, with the rewritten senses where there are any, and keeps
/// the query, the candidates and the bar; one that cannot be read changes nothing.
pub proof fn law_opening_shows_the_candidate(v: PanelView, s: StoreView, i: int)
    requires
        0 <= i < v.cands.len(),
    ensures
        entry_result(s, v.cands[i].id) matches Ok(e) ==> {
            let (w, o) = opened_at(v, s, i);
            &&& o == Opening::Shown
            &&& w.mode == Mode::Entry
            &&& w.entry == Some(with_overlay(s, v.cands[i].id, e))
            &&& w.entry_id == Some(v.cands[i].id)
            &&& w.query == v.query && w.cands == v.cands && w.sel == v.sel
            &&& w.last_query == v.last_query && w.show_bar == v.show_bar
        },
        entry_result(s, v.cands[i].id) matches Err(x) ==> opened_at(v, s, i) == (
            v,
            Opening::Failed(x),
        ),
{
}

/// What each key does by itself.
pub proof fn law_what_each_key_does(v: PanelView, s: StoreView)
    ensures
        pressed(v, s, Keys { down: true, up: false, enter: false, f1: false, esc: false }) == (
            moved(v, true),
            Opening::Nothing,
        ),
        pressed(v, s, Keys { down: false, up: true, enter: false, f1: false, esc: false }) == (
            moved(v, false),
            Opening::Nothing,
        ),
        pressed(v, s, Keys { down: false, up: false, enter: true, f1: false, esc: false })
            == opened_at(v, s, v.sel as int),
        pressed(v, s, Keys { down: false, up: false, enter: false, f1: true, esc: false }) == (
            PanelView { show_bar: !v.show_bar, ..v },
            Opening::Nothing,
        ),
        pressed(v, s, Keys { down: false, up: false, enter: false, f1: false, esc: true }) == (
            escaped_from(v),
            Opening::Nothing,
        ),
        pressed(v, s, Keys { down: false, up: false, enter: false, f1: false, esc: false }) == (
            v,
            Opening::Nothing,
        ),
        v.mode == Mode::List ==> escaped_from(v).query.len() == 0 && escaped_from(v).cands.len()
            == 0 && escaped_from(v).show_bar == v.show_bar,
{
}

/// New hits are shown as they are, unless the order is to be kept and the query went on from the
/// one before: then entries that were shown stay ahead, and the same entries are shown either
/// way.
pub proof fn law_new_hits_are_shown(v: PanelView, hits: Seq<Hit>, stable: bool)
    ensures
        !stable ==> refreshed(v, hits, stable).cands == hits,
        v.last_query.len() == 0 ==> refreshed(v, hits, stable).cands == hits,
        !lowercase(v.last_query).is_prefix_of(lowercase(v.query)) ==> refreshed(
            v,
            hits,
            stable,
        ).cands == hits,
        refreshed(v, hits, stable).cands == hits || refreshed(v, hits, stable).cands == survivors(
            v.cands,
            hits,
        ) + newcomers(v.cands, hits),
        refreshed(v, hits, stable).last_query == v.query,
        refreshed(v, hits, stable).query == v.query,
        refreshed(v, hits, stable).show_bar == v.show_bar,
{
    if starts_with(lowercase(v.query), lowercase(v.last_query)) {
        assert(lowercase(v.last_query) =~= lowercase(v.query).subrange(
            0,
            lowercase(v.last_query).len() as int,
        ));
    }
}

/// A query that was typed on keeps the order: what was shown and is still found comes first.
pub proof fn law_typing_on_keeps_the_order(v: PanelView, hits: Seq<Hit>)
    requires
        v.last_query.len() > 0,
        vstd::utf8::encode_utf8(v.query).len() > vstd::utf8::encode_utf8(v.last_query).len(),
        lowercase(v.last_query).is_prefix_of(lowercase(v.query)),
    ensures
        refreshed(v, hits, true).cands == survivors(v.cands, hits) + newcomers(v.cands, hits),
{
    assert(lowercase(v.query).take(lowercase(v.last_query).len() as int) =~= lowercase(
        v.last_query,
    ));
}

/// A word that is followed is shown like a candidate.
pub proof fn law_a_reference_is_followed(p: PanelView, v: StoreView, word: Seq<char>)
    ensures
        looked_up(v, word) is None ==> at_word(p, v, word) == p,
        looked_up(v, word) matches Some(id) ==> match entry_result(v, id) {
            Ok(e) => {
                let w = at_word(p, v, word);
                w.mode == Mode::Entry && w.entry == Some(with_overlay(v, id, e)) && w.entry_id
                    == Some(id) && w.query == p.query && w.cands == p.cands && w.sel == p.sel
            },
            Err(_) => at_word(p, v, word) == p,
        },
{
}

/// What is said of the voice.
pub proof fn law_what_is_said_of_the_voice(s: Status, e: String)
    ensures
        voice_text(None) == seq!['不', '可', '用'],
        voice_text(Some(Status::Loading)) == seq!['加', '载', '中', '…'],
        voice_text(Some(Status::Failed(e))) == seq!['加', '载', '失', '败', '：'] + e@,
        s matches Status::Ready { sample_rate, model } ==> voice_text(Some(s)) == model@ + seq![
            ' ',
            '·',
            ' ',
        ] + crate::number::decimal(sample_rate as nat) + seq![' ', 'H', 'z'],
{
    reveal_strlit("不可用");
    reveal_strlit("加载中…");
    reveal_strlit("加载失败：");
    reveal_strlit(" · ");
    reveal_strlit(" Hz");
    assert("不可用"@ =~= seq!['不', '可', '用']);
    assert("加载中…"@ =~= seq!['加', '载', '中', '…']);
    assert("加载失败："@ =~= seq!['加', '载', '失', '败', '：']);
    assert(" · "@ =~= seq![' ', '·', ' ']);
    assert(" Hz"@ =~= seq![' ', 'H', 'z']);
}

/// Of entries equally common, the one that stands last under the word is shown.
pub proof fn law_the_last_of_the_most_common_is_looked_up(ids: Seq<u32>, pct: Seq<Single>, i: int)
    requires
        0 <= i < ids.len(),
        forall|k: int| 0 <= k < ids.len() ==> !pct[#[trigger] ids[k] as int].is_nan_spec(),
        forall|k: int|
            0 <= k < i ==> pct[#[trigger] ids[k] as int].order() <= pct[ids[i] as int].order(),
        forall|k: int|
            i < k < ids.len() ==> pct[#[trigger] ids[k] as int].order() < pct[ids[i] as int].order(),
    ensures
        best_id(ids, pct) == Some(ids[i]),
    decreases ids.len(),
{
    let u = ids.drop_last();
    if i == ids.len() - 1 {
        if u.len() > 0 {
            lemma_best(u, pct, 0);
            let b = best_id(u, pct)->0;
            let k = choose|k: int| 0 <= k < u.len() && u[k] == b;
            assert(ids[k] == b);
        }
    } else {
        law_the_last_of_the_most_common_is_looked_up(u, pct, i);
        assert(ids[ids.len() - 1] == ids.last());
    }
}

/// What stands under a word in the Chinese lane is taken before the English one.
pub proof fn law_chinese_before_english(v: StoreView, word: Seq<char>)
    ensures
        ({
            let key = lowercase(trimmed(word));
            let zh = v.exact(Lane::Zh, key);
            let en = v.exact(Lane::Enw, key);
            &&& zh is Some && ids_spec(zh->0).len() > 0 ==> looked_up(v, word) == best_id(
                ids_spec(zh->0),
                v.pct,
            ) && looked_up(v, word) is Some
            &&& (zh is None || ids_spec(zh->0).len() == 0) && en is Some ==> looked_up(v, word)
                == best_id(ids_spec(en->0), v.pct)
            &&& looked_up(v, word) is None <==> (zh is None || ids_spec(zh->0).len() == 0) && (en
                is None || ids_spec(en->0).len() == 0)
        }),
{
    let key = lowercase(trimmed(word));
    lemma_some_is_best(v, Lane::Zh, key);
    lemma_some_is_best(v, Lane::Enw, key);
}

proof fn lemma_some_is_best(v: StoreView, lane: Lane, key: Seq<char>)
    ensures
        v.exact(lane, key) matches Some(raw) ==> (best_id(ids_spec(raw), v.pct) is Some <==> ids_spec(
            raw,
        ).len() > 0),
{
    if v.exact(lane, key) is Some {
        let ids = ids_spec(v.exact(lane, key)->0);
        if ids.len() > 0 {
            assert(best_id(ids, v.pct) is Some);
        }
    }
}

/// The rows stand in the order of the hits, and a hit whose entry cannot be read has none.
pub proof fn law_rows_stand_in_order(v: StoreView, hits: Seq<Hit>, n: nat)
    requires
        n < hits.len(),
    ensures
        entry_result(v, hits[n as int].id) is Err ==> listed_rows(v, hits, n + 1) == listed_rows(
            v,
            hits,
            n,
        ),
        entry_result(v, hits[n as int].id) matches Ok(e) ==> {
            let a = listed_rows(v, hits, n);
            let b = listed_rows(v, hits, n + 1);
            &&& b.len() == a.len() + 1
            &&& b.drop_last() == a
            &&& b.last().place == n as usize
            &&& b.last().entry == with_overlay(v, hits[n as int].id, e)
            &&& b.last().gloss == row_gloss_spec(b.last().entry)
        },
        listed_rows(v, hits, 0).len() == 0,
{
    if entry_result(v, hits[n as int].id) is Ok {
        assert(listed_rows(v, hits, n + 1).drop_last() =~= listed_rows(v, hits, n));
    }
}

/// With a page open an arrow goes back to the list; over an empty list it does nothing.
pub proof fn law_arrows_leave_a_page(v: PanelView, down: bool)
    ensures
        v.mode == Mode::Entry ==> moved(v, down).mode == Mode::List && moved(v, down).sel == v.sel
            && moved(v, down).cands == v.cands && moved(v, down).query == v.query && moved(
            v,
            down,
        ).entry == v.entry && moved(v, down).entry_id == v.entry_id && moved(v, down).show_bar
            == v.show_bar && moved(v, down).last_query == v.last_query,
        v.mode == Mode::List && v.cands.len() == 0 ==> moved(v, down) == v,
{
}

/// Escape leaves a page for the list, and leaves the list by clearing all that was typed.
pub proof fn law_escape_goes_one_step_back(v: PanelView)
    ensures
        v.mode == Mode::Entry ==> escaped_from(v).mode == Mode::List && escaped_from(v).query
            == v.query && escaped_from(v).cands == v.cands && escaped_from(v).sel == v.sel
            && escaped_from(v).last_query == v.last_query,
        v.mode == Mode::List ==> escaped_from(v).mode == Mode::List && escaped_from(v).query.len()
            == 0 && escaped_from(v).last_query.len() == 0 && escaped_from(v).cands.len() == 0
            && escaped_from(v).sel == 0,
        escaped_from(v).show_bar == v.show_bar && escaped_from(v).entry == v.entry && escaped_from(
            v,
        ).entry_id == v.entry_id,
{
}

/// Keys pressed together act one after the other: the arrows, Enter, F1, Escape; Down goes
/// before Up.
pub proof fn law_keys_act_in_turn(v: PanelView, s: StoreView, k: Keys)
    ensures
        ({
            let no = Keys { down: false, up: false, enter: false, f1: false, esc: false };
            let a = pressed(v, s, Keys { down: k.down, up: k.up && !k.down, ..no });
            let b = pressed(a.0, s, Keys { enter: k.enter, ..no });
            let c = pressed(b.0, s, Keys { f1: k.f1, ..no });
            let d = pressed(c.0, s, Keys { esc: k.esc, ..no });
            pressed(v, s, k) == (d.0, b.1)
        }),
{
}

/// Where there is no candidate at a place, nothing opens.
pub proof fn law_no_candidate_no_page(v: PanelView, s: StoreView, i: int)
    requires
        i < 0 || i >= v.cands.len(),
    ensures
        opened_at(v, s, i) == (v, Opening::Nothing),
{
}

/// New hits bring the list up, at its first row.
pub proof fn law_new_hits_start_at_the_top(v: PanelView, hits: Seq<Hit>, stable: bool)
    ensures
        refreshed(v, hits, stable).sel == 0,
        refreshed(v, hits, stable).mode == Mode::List,
        refreshed(v, hits, stable).entry == v.entry,
        refreshed(v, hits, stable).entry_id == v.entry_id,
        vstd::utf8::encode_utf8(v.query).len() <= vstd::utf8::encode_utf8(v.last_query).len()
            ==> refreshed(v, hits, stable).cands == hits,
{
}

/// Following a reference leaves what was typed and the rest of the panel as they are.
pub proof fn law_following_keeps_the_rest(p: PanelView, v: StoreView, word: Seq<char>)
    ensures
        at_word(p, v, word).last_query == p.last_query,
        at_word(p, v, word).show_bar == p.show_bar,
        at_word(p, v, word).query == p.query,
        at_word(p, v, word).cands == p.cands,
        at_word(p, v, word).sel == p.sel,
{
}

} // verus!
