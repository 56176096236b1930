//! What the rewriting of senses keeps and turns down, and what is sent for it.
use crate::formats::law_fences_are_taken_off;
use crate::json::{escaped, number_field, numbers_field, objects_in, string_field};
use crate::llm::{
    batch, batch_count, by_id, covers, deduped, eligible, eligible_upto, entry_task, example_texts,
    export_order, falling, grounded, id_keys, ids_in, import_line, import_lines, json_list,
    replies_among, replies_in, senses_among, senses_in, senses_within, source_texts, stored_senses,
    tasks_in, tasks_upto, undone, verdict, ImportView, OutSenseView, OutView, Verdict,
};
use crate::model::{EntryView, SenseView};
use crate::order::{
    law_keys_can_be_ordered, lemma_perm_reaches, permuted, stable_order, stable_perm,
};
use crate::store::{entry_result, StoreError, StoreView};
use crate::number::decimal;
use crate::text::{ends_bare, find, trimmed};
use vstd::prelude::*;
use vstd::string::*;

verus! {

// ───────────────────────── the verdict ─────────────────────────

/// Some rewritten sense names sense `k` of the source.
pub open spec fn is_named(s: Seq<OutSenseView>, k: int) -> bool {
    exists|i: int, j: int|
        0 <= i < s.len() && 0 <= j < s[i].from.len() && #[trigger] s[i].from[j] as int == k
}

/// Senses are kept exactly where there is one and there are no more than the source has, each
/// names at least one sense of the source and none that it lacks, and every sense of the source
/// is named by some of them.
pub proof fn law_what_is_kept_accounts_for_every_sense(n: nat, s: Seq<OutSenseView>)
    ensures
        verdict(n, s) == Verdict::Kept <==> {
            &&& 1 <= s.len() <= n
            &&& forall|i: int| 0 <= i < s.len() ==> (#[trigger] s[i]).from.len() >= 1
            &&& forall|i: int, j: int|
                0 <= i < s.len() && 0 <= j < s[i].from.len() ==> #[trigger] s[i].from[j] < n
            &&& forall|k: int|
                0 <= k < n ==> #[trigger] is_named(s, k)
        },
{
    if verdict(n, s) == Verdict::Kept {
        assert forall|i: int| 0 <= i < s.len() implies (#[trigger] s[i]).from.len() >= 1 by {
            assert(grounded(s[i], n));
        }
        assert forall|i: int, j: int|
            0 <= i < s.len() && 0 <= j < s[i].from.len() implies #[trigger] s[i].from[j] < n by {
            assert(grounded(s[i], n));
        }
        assert forall|k: int| 0 <= k < n implies #[trigger] is_named(s, k) by {
            assert(covers(s, k));
            let (i, j) = choose|i: int, j: int|
                0 <= i < s.len() && 0 <= j < s[i].from.len() && #[trigger] s[i].from[j] == k;
            assert(s[i].from[j] as int == k);
        }
    }
    if 1 <= s.len() <= n && (forall|i: int| 0 <= i < s.len() ==> (#[trigger] s[i]).from.len() >= 1)
        && (forall|i: int, j: int|
        0 <= i < s.len() && 0 <= j < s[i].from.len() ==> #[trigger] s[i].from[j] < n) && (forall|
        k: int,
    |
        0 <= k < n ==> #[trigger] is_named(s, k)) {
        assert forall|i: int| 0 <= i < s.len() implies grounded(#[trigger] s[i], n) by {}
        assert forall|k: int| 0 <= k < n implies #[trigger] covers(s, k) by {
            assert(is_named(s, k));
            let (i, j) = choose|i: int, j: int|
                0 <= i < s.len() && 0 <= j < s[i].from.len() && #[trigger] s[i].from[j] as int == k;
            assert(s[i].from[j] == k);
        }
    }
}

/// Why senses are turned down: there are none; there are more than the source has; else some
/// sense names nothing or what the source lacks; else some sense of the source is named by none.
pub proof fn law_why_senses_are_turned_down(n: nat, s: Seq<OutSenseView>)
    ensures
        s.len() == 0 <==> verdict(n, s) == Verdict::Missing,
        s.len() > n && s.len() > 0 <==> verdict(n, s) == Verdict::TooMany,
        verdict(n, s) == Verdict::BadFrom ==> exists|i: int|
            0 <= i < s.len() && ((#[trigger] s[i]).from.len() == 0 || exists|j: int|
                0 <= j < s[i].from.len() && #[trigger] s[i].from[j] >= n),
        verdict(n, s) == Verdict::Uncovered ==> exists|k: int|
            0 <= k < n && !#[trigger] is_named(s, k),
{
    if verdict(n, s) == Verdict::BadFrom {
        let i = choose|i: int| 0 <= i < s.len() && !grounded(#[trigger] s[i], n);
        if s[i].from.len() > 0 {
            let j = choose|j: int| 0 <= j < s[i].from.len() && (#[trigger] s[i].from[j]) >= n;
            assert(s[i].from[j] >= n);
        }
    }
    if verdict(n, s) == Verdict::Uncovered {
        let k = choose|k: int| 0 <= k < n && !#[trigger] covers(s, k);
        if is_named(s, k) {
            let (i, j) = choose|i: int, j: int|
                0 <= i < s.len() && 0 <= j < s[i].from.len() && #[trigger] s[i].from[j] as int == k;
            assert(s[i].from[j] == k);
        }
    }
}

// ───────────────────────── import ─────────────────────────

/// Senses as they are stored: each with the part of speech of the entry and its own text and
/// register, and its collocations as a note.
pub proof fn law_stored_senses(pos: Seq<char>, s: Seq<OutSenseView>, i: int)
    requires
        0 <= i < s.len(),
    ensures
        stored_senses(pos, s).len() == s.len(),
        stored_senses(pos, s)[i].pos == pos,
        stored_senses(pos, s)[i].text == s[i].text,
        stored_senses(pos, s)[i].reg == s[i].reg,
        trimmed(s[i].col).len() == 0 ==> stored_senses(pos, s)[i].note.len() == 0,
        trimmed(s[i].col).len() > 0 ==> stored_senses(pos, s)[i].note == seq!['搭', '配', ' ']
            + trimmed(s[i].col),
{
    reveal_strlit("搭配 ");
    assert("搭配 "@ =~= seq!['搭', '配', ' ']);
}

/// An item that came of a result line whose senses account for every sense of the entry.
pub open spec fn accounted(v: StoreView, line: Seq<char>, item: (u32, Seq<SenseView>)) -> bool {
    let s = senses_in(line);
    &&& number_field(line, "id"@) == Some(item.0)
    &&& entry_result(v, item.0) is Ok
    &&& item.1 == stored_senses(entry_result(v, item.0)->Ok_0.pos, s)
    &&& 1 <= s.len() <= entry_result(v, item.0)->Ok_0.senses.len()
    &&& forall|i: int| 0 <= i < s.len() ==> (#[trigger] s[i]).from.len() >= 1
    &&& forall|i: int, j: int|
        0 <= i < s.len() && 0 <= j < s[i].from.len() ==> #[trigger] s[i].from[j]
            < entry_result(v, item.0)->Ok_0.senses.len()
    &&& forall|k: int|
        0 <= k < entry_result(v, item.0)->Ok_0.senses.len() ==> #[trigger] is_named(s, k)
}

/// Every item that an import keeps came of a line whose senses account for every sense of the
/// source, and every such line is kept; and each line that names an entry is counted once, as
/// kept or for the reason it was turned down.
pub proof fn law_an_import_keeps_what_accounts_for_the_source(v: StoreView, lines: Seq<Seq<char>>)
    ensures
        forall|m: int|
            0 <= m < import_lines(v, lines).kept.len() ==> exists|l: int|
                0 <= l < lines.len() && accounted(
                    v,
                    #[trigger] lines[l],
                    #[trigger] import_lines(v, lines).kept[m],
                ),
        ({
            let a = import_lines(v, lines);
            a.total == a.kept.len() + a.missing + a.too_many + a.bad_from + a.uncovered
        }),
    decreases lines.len(),
{
    if lines.len() > 0 {
        let u = lines.drop_last();
        let x = lines.last();
        law_an_import_keeps_what_accounts_for_the_source(v, u);
        let a = import_lines(v, u);
        let b = import_lines(v, lines);
        lemma_line_accounted(v, a, x);
        assert forall|m: int| 0 <= m < b.kept.len() implies exists|l: int|
            0 <= l < lines.len() && accounted(v, #[trigger] lines[l], #[trigger] b.kept[m]) by {
            if m < a.kept.len() {
                assert(b.kept[m] == a.kept[m]);
                let l = choose|l: int| 0 <= l < u.len() && accounted(v, #[trigger] u[l], a.kept[m]);
                assert(lines[l] == u[l]);
            } else {
                assert(lines[lines.len() - 1] == x);
            }
        }
    }
}

proof fn lemma_line_accounted(v: StoreView, a: ImportView, line: Seq<char>)
    ensures
        ({
            let b = import_line(v, a, line);
            &&& b.kept.len() >= a.kept.len()
            &&& b.kept.len() <= a.kept.len() + 1
            &&& forall|m: int| 0 <= m < a.kept.len() ==> b.kept[m] == a.kept[m]
            &&& b.kept.len() > a.kept.len() ==> accounted(v, line, b.kept[a.kept.len() as int])
            &&& a.total == a.kept.len() + a.missing + a.too_many + a.bad_from + a.uncovered
                ==> b.total == b.kept.len() + b.missing + b.too_many + b.bad_from + b.uncovered
        }),
{
    if let Some(id) = number_field(line, "id"@) {
        if let Ok(e) = entry_result(v, id) {
            law_what_is_kept_accounts_for_every_sense(e.senses.len(), senses_in(line));
        }
    }
}

/// A line whose senses account for every sense of its entry is kept, whatever came before it.
pub proof fn law_a_sound_line_is_kept(v: StoreView, a: ImportView, line: Seq<char>, id: u32)
    requires
        trimmed(line).len() > 0,
        accounted(v, line, (id, stored_senses(entry_result(v, id)->Ok_0.pos, senses_in(line)))),
    ensures
        import_line(v, a, line).kept == a.kept.push(
            (id, stored_senses(entry_result(v, id)->Ok_0.pos, senses_in(line))),
        ),
        import_line(v, a, line).total == a.total + 1,
{
    let e = entry_result(v, id)->Ok_0;
    law_what_is_kept_accounts_for_every_sense(e.senses.len(), senses_in(line));
}

/// Items rise by entry.
spec fn rises(s: Seq<(u32, Seq<SenseView>)>) -> bool {
    forall|i: int, j: int| 0 <= i < j < s.len() ==> (#[trigger] s[i]).0 <= (#[trigger] s[j]).0
}

proof fn lemma_rises_shorter(s: Seq<(u32, Seq<SenseView>)>)
    requires
        rises(s),
        s.len() > 0,
    ensures
        rises(s.drop_last()),
{
    let u = s.drop_last();
    assert forall|i: int, j: int| 0 <= i < j < u.len() implies (#[trigger] u[i]).0 <= (
    #[trigger] u[j]).0 by {
        assert(s[i].0 <= s[j].0);
    }
}

proof fn lemma_deduped_last(s: Seq<(u32, Seq<SenseView>)>)
    requires
        rises(s),
    ensures
        s.len() > 0 ==> deduped(s).len() > 0 && deduped(s).last().0 == s.last().0,
{
}

proof fn lemma_deduped_rises(s: Seq<(u32, Seq<SenseView>)>, i: int, j: int)
    requires
        rises(s),
        0 <= i < j < deduped(s).len(),
    ensures
        deduped(s)[i].0 < deduped(s)[j].0,
    decreases s.len(),
{
    let u = s.drop_last();
    lemma_rises_shorter(s);
    let a = deduped(u);
    if j < a.len() {
        lemma_deduped_rises(u, i, j);
    } else {
        lemma_deduped_last(u);
        if i < a.len() - 1 {
            lemma_deduped_rises(u, i, a.len() - 1);
        }
        assert(u.len() > 0);
        assert(u.last() == s[s.len() - 2]);
        assert(s[s.len() - 2].0 <= s[s.len() - 1].0);
    }
}

proof fn lemma_deduped_from(s: Seq<(u32, Seq<SenseView>)>, i: int) -> (k: int)
    requires
        rises(s),
        0 <= i < deduped(s).len(),
    ensures
        0 <= k < s.len(),
        s[k] == deduped(s)[i],
        forall|m: int| 0 <= m < k ==> (#[trigger] s[m]).0 != s[k].0,
    decreases s.len(),
{
    let u = s.drop_last();
    lemma_rises_shorter(s);
    let a = deduped(u);
    if i < a.len() {
        let k = lemma_deduped_from(u, i);
        assert forall|m: int| 0 <= m < k implies (#[trigger] s[m]).0 != s[k].0 by {
            assert(u[m].0 != u[k].0);
        }
        k
    } else {
        let k = s.len() - 1;
        lemma_deduped_last(u);
        assert forall|m: int| 0 <= m < k implies (#[trigger] s[m]).0 != s[k].0 by {
            assert(u.last() == s[k - 1]);
            assert(s[k - 1].0 <= s[k].0);
            if m < k - 1 {
                assert(s[m].0 <= s[k - 1].0);
            }
        }
        k
    }
}

proof fn lemma_deduped_has(s: Seq<(u32, Seq<SenseView>)>, k: int) -> (i: int)
    requires
        rises(s),
        0 <= k < s.len(),
    ensures
        0 <= i < deduped(s).len(),
        deduped(s)[i].0 == s[k].0,
    decreases s.len(),
{
    let u = s.drop_last();
    lemma_rises_shorter(s);
    if k < u.len() {
        let i = lemma_deduped_has(u, k);
        assert(deduped(s)[i] == deduped(u)[i]);
        i
    } else {
        lemma_deduped_last(s);
        deduped(s).len() - 1
    }
}

proof fn lemma_sorted_items(s: Seq<(u32, Seq<SenseView>)>)
    requires
        s.len() <= usize::MAX,
    ensures
        stable_order(id_keys(s), stable_perm(id_keys(s))),
        rises(permuted(s, stable_perm(id_keys(s)))),
{
    let keys = id_keys(s);
    let p = stable_perm(keys);
    law_keys_can_be_ordered(keys);
    let t = permuted(s, p);
    assert forall|i: int, j: int| 0 <= i < j < t.len() implies (#[trigger] t[i]).0 <= (
    #[trigger] t[j]).0 by {
        assert(keys[p[i] as int] <= keys[p[j] as int]);
    }
}

/// What an import writes rises by entry, so no entry is written twice.
pub proof fn law_written_items_rise(s: Seq<(u32, Seq<SenseView>)>, i: int, j: int)
    requires
        s.len() <= usize::MAX,
        0 <= i < j < by_id(s).len(),
    ensures
        by_id(s)[i].0 < by_id(s)[j].0,
{
    lemma_sorted_items(s);
    lemma_deduped_rises(permuted(s, stable_perm(id_keys(s))), i, j);
}

/// What an import writes of an entry is the item that was kept of it first.
pub proof fn law_the_first_of_an_entry_is_written(s: Seq<(u32, Seq<SenseView>)>, i: int)
    requires
        s.len() <= usize::MAX,
        0 <= i < by_id(s).len(),
    ensures
        exists|k: int|
            0 <= k < s.len() && #[trigger] s[k] == by_id(s)[i] && forall|m: int|
                0 <= m < k ==> (#[trigger] s[m]).0 != s[k].0,
{
    let keys = id_keys(s);
    let p = stable_perm(keys);
    let t = permuted(s, p);
    lemma_sorted_items(s);
    let q = lemma_deduped_from(t, i);
    let k = p[q] as int;
    assert(s[k] == by_id(s)[i]);
    assert forall|m: int| 0 <= m < k implies (#[trigger] s[m]).0 != s[k].0 by {
        if s[m].0 == s[k].0 {
            let z = lemma_perm_reaches(keys, p, m);
            assert(keys[m] == keys[k]);
            if z > q {
                assert(keys[p[q] as int] < keys[p[z] as int] || p[q] < p[z]);
            } else if z < q {
                assert(t[z].0 != t[q].0);
            }
        }
    }
}

/// Every entry of which something was kept is written.
pub proof fn law_every_kept_entry_is_written(s: Seq<(u32, Seq<SenseView>)>, k: int)
    requires
        s.len() <= usize::MAX,
        0 <= k < s.len(),
    ensures
        exists|i: int| 0 <= i < by_id(s).len() && (#[trigger] by_id(s)[i]).0 == s[k].0,
{
    let keys = id_keys(s);
    let p = stable_perm(keys);
    let t = permuted(s, p);
    lemma_sorted_items(s);
    let z = lemma_perm_reaches(keys, p, k);
    assert(t[z] == s[k]);
    let i = lemma_deduped_has(t, z);
    assert(by_id(s)[i].0 == s[k].0);
}

// ───────────────────────── replies ─────────────────────────

/// Objects of a reply are read one by one, whatever came before.
pub proof fn law_replies_add_up(a: Seq<Seq<char>>, b: Seq<Seq<char>>, sent: Map<u32, usize>)
    ensures
        replies_among(a + b, sent) == replies_among(a, sent) + replies_among(b, sent),
        senses_among(a + b) == senses_among(a) + senses_among(b),
    decreases b.len(),
{
    if b.len() == 0 {
        assert(a + b =~= a);
    } else {
        law_replies_add_up(a, b.drop_last(), sent);
        assert((a + b).drop_last() =~= a + b.drop_last());
        assert((a + b).last() == b.last());
    }
    assert(replies_among(a + b, sent) =~= replies_among(a, sent) + replies_among(b, sent));
    assert(senses_among(a + b) =~= senses_among(a) + senses_among(b));
}

/// Of the senses of a reply exactly those are dropped that name a sense which was not sent.
pub proof fn law_senses_out_of_range_are_dropped(v: Seq<OutSenseView>, x: OutSenseView, n: nat)
    ensures
        senses_within(v.push(x), n) == if forall|j: int|
            0 <= j < x.from.len() ==> (#[trigger] x.from[j]) < n {
            senses_within(v, n).push(x)
        } else {
            senses_within(v, n)
        },
        senses_within(Seq::empty(), n).len() == 0,
{
    assert(v.push(x).drop_last() =~= v);
}

/// One object is a reply exactly where its entry was sent and some sense of it is left.
pub proof fn law_one_object_one_reply(obj: Seq<char>, sent: Map<u32, usize>, id: u32)
    requires
        number_field(obj, "id"@) == Some(id),
    ensures
        sent.contains_key(id) && senses_within(senses_in(obj), sent[id] as nat).len() > 0
            ==> replies_among(seq![obj], sent) == seq![
            OutView { id, senses: senses_within(senses_in(obj), sent[id] as nat) },
        ],
        !sent.contains_key(id) || senses_within(senses_in(obj), sent[id] as nat).len() == 0
            ==> replies_among(seq![obj], sent).len() == 0,
{
    let g = seq![obj];
    assert(g.drop_last() =~= Seq::<Seq<char>>::empty() && g.last() == obj);
    assert(replies_among(g.drop_last(), sent) =~= Seq::<OutView>::empty());
    if sent.contains_key(id) && senses_within(senses_in(obj), sent[id] as nat).len() > 0 {
        assert(replies_among(g, sent) =~= seq![
            OutView { id, senses: senses_within(senses_in(obj), sent[id] as nat) },
        ]);
    }
}

// ───────────────────────── export ─────────────────────────

proof fn lemma_eligible_upto(v: StoreView, n: nat, id: u32)
    requires
        n <= u32::MAX,
    ensures
        eligible_upto(v, n).len() <= n,
        eligible_upto(v, n).contains(id) <==> id < n && eligible(v, id as int),
    decreases n,
{
    if n > 0 {
        let a = eligible_upto(v, (n - 1) as nat);
        let b = eligible_upto(v, n);
        lemma_eligible_upto(v, (n - 1) as nat, id);
        if a.contains(id) {
            let i = choose|i: int| 0 <= i < a.len() && a[i] == id;
            assert(b[i] == id);
        }
        if b.contains(id) && !a.contains(id) {
            let i = choose|i: int| 0 <= i < b.len() && b[i] == id;
            if i < a.len() {
                assert(a[i] == id);
            }
        }
        if id == n - 1 && eligible(v, n - 1) {
            assert(b[b.len() - 1] == id);
        }
    }
}

/// What may be sent: Chinese headwords with a percentile of at least 0.55, which has the bits
/// `3F0CCCCD`, the most common first.
pub proof fn law_which_entries_are_sent(v: StoreView, id: u32)
    requires
        v.n <= u32::MAX,
    ensures
        export_order(v).contains(id) <==> id < v.n && v.kind[id as int] == 0
            && !v.pct[id as int].is_nan_spec() && v.pct[id as int].order() >= 0x3F0C_CCCD,
        forall|i: int, j: int|
            0 <= i < j < export_order(v).len() ==> v.pct[#[trigger] export_order(
                v,
            )[i] as int].order() >= v.pct[#[trigger] export_order(v)[j] as int].order(),
{
    let ids = eligible_upto(v, v.n);
    let keys = falling(v, ids);
    let p = stable_perm(keys);
    lemma_eligible_upto(v, v.n, id);
    law_keys_can_be_ordered(keys);
    assert(stable_order(keys, p));
    let o = export_order(v);
    if ids.contains(id) {
        let k = choose|k: int| 0 <= k < ids.len() && ids[k] == id;
        let z = lemma_perm_reaches(keys, p, k);
        assert(o[z] == id);
    }
    if o.contains(id) {
        let z = choose|z: int| 0 <= z < o.len() && o[z] == id;
        assert(ids[p[z] as int] == id);
    }
    assert forall|i: int, j: int| 0 <= i < j < o.len() implies v.pct[#[trigger] o[i] as int].order()
        >= v.pct[#[trigger] o[j] as int].order() by {
        assert(keys[p[i] as int] <= keys[p[j] as int]);
        lemma_order_small(v.pct[o[i] as int]);
        lemma_order_small(v.pct[o[j] as int]);
    }
}

proof fn lemma_order_small(s: crate::single::Single)
    ensures
        -0x8000_0000 <= s.order() <= 0x8000_0000,
{
}

/// Of the entries that may be sent those with three senses or more are sent, in order, until
/// the limit is reached.
pub proof fn law_entries_with_three_senses_are_sent(
    v: StoreView,
    ids: Seq<u32>,
    limit: nat,
    k: nat,
)
    requires
        k <= ids.len(),
        tasks_upto(v, ids, limit, k) is Ok,
    ensures
        tasks_upto(v, ids, limit, k)->Ok_0.len() < limit ==> forall|j: int|
            0 <= j < k && entry_result(v, #[trigger] ids[j])->Ok_0.senses.len() >= 3
                ==> tasks_upto(v, ids, limit, k)->Ok_0.contains(
                entry_task(ids[j], entry_result(v, ids[j])->Ok_0),
            ),
        forall|i: int|
            0 <= i < tasks_upto(v, ids, limit, k)->Ok_0.len() ==> exists|j: int|
                0 <= j < k && entry_result(v, #[trigger] ids[j]) is Ok && entry_result(
                    v,
                    ids[j],
                )->Ok_0.senses.len() >= 3 && (#[trigger] tasks_upto(v, ids, limit, k)->Ok_0[i])
                    == entry_task(ids[j], entry_result(v, ids[j])->Ok_0),
        limit >= 1 ==> tasks_upto(v, ids, limit, k)->Ok_0.len() <= limit,
    decreases k,
{
    if k > 0 {
        let a = tasks_upto(v, ids, limit, (k - 1) as nat)->Ok_0;
        let b = tasks_upto(v, ids, limit, k)->Ok_0;
        law_entries_with_three_senses_are_sent(v, ids, limit, (k - 1) as nat);
        assert forall|i: int| 0 <= i < b.len() implies exists|j: int|
            0 <= j < k && entry_result(v, #[trigger] ids[j]) is Ok && entry_result(
                v,
                ids[j],
            )->Ok_0.senses.len() >= 3 && (#[trigger] b[i]) == entry_task(
                ids[j],
                entry_result(v, ids[j])->Ok_0,
            ) by {
            if i < a.len() {
                assert(b[i] == a[i]);
                let j = choose|j: int|
                    0 <= j < k - 1 && entry_result(v, #[trigger] ids[j]) is Ok && entry_result(
                        v,
                        ids[j],
                    )->Ok_0.senses.len() >= 3 && a[i] == entry_task(
                        ids[j],
                        entry_result(v, ids[j])->Ok_0,
                    );
                assert(0 <= j < k);
            } else {
                assert(0 <= k - 1 < k && entry_result(v, ids[k - 1]) is Ok);
            }
        }
        if b.len() < limit {
            assert forall|j: int|
                0 <= j < k && entry_result(v, #[trigger] ids[j])->Ok_0.senses.len() >= 3 implies b.contains(
            entry_task(ids[j], entry_result(v, ids[j])->Ok_0)) by {
                let x = entry_task(ids[j], entry_result(v, ids[j])->Ok_0);
                if j < k - 1 {
                    assert(a.contains(x));
                    let i = choose|i: int| 0 <= i < a.len() && a[i] == x;
                    assert(b[i] == x);
                } else {
                    assert(b[b.len() - 1] == x);
                }
            }
        }
    }
}

/// What is sent of an entry: its number, word and part of speech, all its senses, each behind
/// its register where it has one, and the first two examples in its own language.
pub proof fn law_what_is_sent_of_an_entry(e: EntryView, i: int)
    ensures
        source_texts(e.senses).len() == e.senses.len(),
        0 <= i < e.senses.len() && e.senses[i].reg.len() == 0 ==> source_texts(e.senses)[i]
            == e.senses[i].text,
        0 <= i < e.senses.len() && e.senses[i].reg.len() > 0 ==> source_texts(e.senses)[i] == seq![
            '(',
        ] + e.senses[i].reg + seq![')', ' '] + e.senses[i].text,
        e.examples.len() >= 2 ==> example_texts(e) == seq![e.examples[0].a, e.examples[1].a],
        e.examples.len() == 1 ==> example_texts(e) == seq![e.examples[0].a],
        e.examples.len() == 0 ==> example_texts(e).len() == 0,
{
    reveal_strlit("(");
    reveal_strlit(") ");
    assert("("@ =~= seq!['(']);
    assert(") "@ =~= seq![')', ' ']);
    if e.examples.len() >= 2 {
        assert(example_texts(e) =~= seq![e.examples[0].a, e.examples[1].a]);
    } else if e.examples.len() == 1 {
        assert(example_texts(e) =~= seq![e.examples[0].a]);
    }
}

// ───────────────────────── batches ─────────────────────────

/// The tasks of a file, and which of them are left: lines that name an entry, in order, without
/// those whose entry has a result already.
pub proof fn law_what_is_left_to_do(lines: Seq<Seq<char>>, line: Seq<char>, done: Set<u32>)
    ensures
        undone(tasks_in(lines.push(line)), done) == if trimmed(line).len() > 0 && number_field(
            line,
            "id"@,
        ) is Some && !done.contains(number_field(line, "id"@)->0) {
            undone(tasks_in(lines), done).push((number_field(line, "id"@)->0, line))
        } else {
            undone(tasks_in(lines), done)
        },
        undone(tasks_in(Seq::empty()), done).len() == 0,
{
    assert(lines.push(line).drop_last() =~= lines);
    assert(lines.push(line).last() == line);
    if trimmed(line).len() > 0 && number_field(line, "id"@) is Some {
        let x = (number_field(line, "id"@)->0, line);
        assert(tasks_in(lines).push(x).drop_last() =~= tasks_in(lines));
        assert(tasks_in(lines).push(x).last() == x);
    }
    assert(tasks_in(Seq::empty()).len() == 0);
}

/// An entry has a result exactly where some line names it.
pub proof fn law_which_entries_are_done(lines: Seq<Seq<char>>, id: u32)
    ensures
        ids_in(lines).contains(id) <==> exists|l: int|
            0 <= l < lines.len() && number_field(#[trigger] lines[l], "id"@) == Some(id),
    decreases lines.len(),
{
    if lines.len() > 0 {
        let u = lines.drop_last();
        law_which_entries_are_done(u, id);
        if exists|l: int| 0 <= l < u.len() && number_field(#[trigger] u[l], "id"@) == Some(id) {
            let l = choose|l: int| 0 <= l < u.len() && number_field(#[trigger] u[l], "id"@) == Some(id);
            assert(number_field(lines[l], "id"@) == Some(id));
        }
        if exists|l: int|
            0 <= l < lines.len() && number_field(#[trigger] lines[l], "id"@) == Some(id) {
            let l = choose|l: int|
                0 <= l < lines.len() && number_field(#[trigger] lines[l], "id"@) == Some(id);
            if l < u.len() {
                assert(u[l] == lines[l]);
            }
        }
        if number_field(lines.last(), "id"@) == Some(id) {
            assert(number_field(lines[lines.len() - 1], "id"@) == Some(id));
        }
    }
}

/// Every task is in one batch, at its place: batches are full but for the last, and together
/// they are what was to be done.
pub proof fn law_every_task_is_in_a_batch<T>(s: Seq<T>, size: nat, i: int)
    requires
        size > 0,
        0 <= i < s.len(),
    ensures
        0 <= i / (size as int) < batch_count(s.len(), size),
        0 <= i % (size as int) < batch(s, size, i / size as int).len(),
        batch(s, size, i / size as int)[i % size as int] == s[i],
        batch(s, size, i / size as int).len() <= size,
        i / (size as int) + 1 < batch_count(s.len(), size) ==> batch(
            s,
            size,
            i / size as int,
        ).len() == size,
{
    let z = size as int;
    let k = i / z;
    let n = s.len() as int;
    let c = (n + z - 1) / z;
    vstd::arithmetic::div_mod::lemma_fundamental_div_mod(i, z);
    vstd::arithmetic::div_mod::lemma_fundamental_div_mod(n + z - 1, z);
    vstd::arithmetic::div_mod::lemma_mod_bound(i, z);
    vstd::arithmetic::div_mod::lemma_mod_bound(n + z - 1, z);
    assert(k >= 0) by (nonlinear_arith)
        requires
            i == z * k + i % z,
            0 <= i % z < z,
            i >= 0,
            z > 0,
    ;
    assert(k < c) by (nonlinear_arith)
        requires
            i == z * k + i % z,
            0 <= i % z < z,
            n + z - 1 == z * c + (n + z - 1) % z,
            0 <= (n + z - 1) % z < z,
            i < n,
            z > 0,
    ;
    assert(k * z == z * k && (k + 1) * z == z * k + z) by (nonlinear_arith);
    if k + 1 < c {
        assert((k + 1) * z < n) by (nonlinear_arith)
            requires
                k + 1 <= c - 1,
                n + z - 1 == z * c + (n + z - 1) % z,
                0 <= (n + z - 1) % z < z,
                z > 0,
        ;
    }
}

/// Which fault is told where there are several: too few senses or too many before any other,
/// and a sense that names nothing, or what the source lacks, before a sense left unnamed.
pub proof fn law_which_fault_is_told(n: nat, s: Seq<OutSenseView>)
    ensures
        ({
            let astray = exists|i: int| 0 <= i < s.len() && #[trigger] names_astray(s[i], n);
            let left = exists|k: int| 0 <= k < n && !#[trigger] is_named(s, k);
            &&& verdict(n, s) == Verdict::BadFrom <==> 1 <= s.len() <= n && astray
            &&& verdict(n, s) == Verdict::Uncovered <==> 1 <= s.len() <= n && !astray && left
        }),
{
    assert forall|i: int| 0 <= i < s.len() implies #[trigger] names_astray(s[i], n) == !grounded(
        s[i],
        n,
    ) by {}
    assert forall|k: int| #[trigger] is_named(s, k) == covers(s, k) by {
        if covers(s, k) {
            let (i, j) = choose|i: int, j: int|
                0 <= i < s.len() && 0 <= j < s[i].from.len() && #[trigger] s[i].from[j] == k;
            assert(s[i].from[j] as int == k);
        }
        if is_named(s, k) {
            let (i, j) = choose|i: int, j: int|
                0 <= i < s.len() && 0 <= j < s[i].from.len() && #[trigger] s[i].from[j] as int == k;
            assert(s[i].from[j] == k);
        }
    }
    if exists|i: int| 0 <= i < s.len() && !grounded(#[trigger] s[i], n) {
        let i = choose|i: int| 0 <= i < s.len() && !grounded(#[trigger] s[i], n);
        assert(names_astray(s[i], n));
    }
    if exists|k: int| 0 <= k < n && !#[trigger] covers(s, k) {
        let k = choose|k: int| 0 <= k < n && !#[trigger] covers(s, k);
        assert(!is_named(s, k));
    }
}

/// A sense names no sense of the source, or one that a source of `n` senses lacks.
pub open spec fn names_astray(s: OutSenseView, n: nat) -> bool {
    s.from.len() == 0 || exists|j: int| 0 <= j < s.from.len() && #[trigger] s.from[j] >= n
}

/// A line that is blank or names no entry is passed over; any other adds one to the total and
/// to one count, that of its fault or that of what is kept.
pub proof fn law_each_line_is_counted_once(v: StoreView, a: ImportView, line: Seq<char>)
    ensures
        ({
            let b = import_line(v, a, line);
            let id = number_field(line, "id"@);
            let s = senses_in(line);
            let e = entry_result(v, id->0);
            let n = e->Ok_0.senses.len();
            let over = trimmed(line).len() == 0 || id is None;
            let gone = !over && (e is Err || s.len() == 0);
            let many = !over && e is Ok && s.len() > n && s.len() > 0;
            let rest = !over && e is Ok && 1 <= s.len() <= n;
            let astray = exists|i: int| 0 <= i < s.len() && #[trigger] names_astray(s[i], n);
            let left = exists|k: int| 0 <= k < n && !#[trigger] is_named(s, k);
            &&& over ==> b == a
            &&& !over ==> b.total == a.total + 1
            &&& b.missing == a.missing + (if gone {
                1int
            } else {
                0
            })
            &&& b.too_many == a.too_many + (if many {
                1int
            } else {
                0
            })
            &&& b.bad_from == a.bad_from + (if rest && astray {
                1int
            } else {
                0
            })
            &&& b.uncovered == a.uncovered + (if rest && !astray && left {
                1int
            } else {
                0
            })
            &&& b.kept.len() == a.kept.len() + (if rest && !astray && !left {
                1int
            } else {
                0
            })
            &&& a.kept.is_prefix_of(b.kept)
        }),
{
    let id = number_field(line, "id"@);
    if trimmed(line).len() > 0 && id is Some && entry_result(v, id->0) is Ok {
        let n = entry_result(v, id->0)->Ok_0.senses.len();
        law_which_fault_is_told(n, senses_in(line));
        law_why_senses_are_turned_down(n, senses_in(line));
    }
}

/// Lines are imported one after the other.
pub proof fn law_lines_are_imported_in_turn(v: StoreView, lines: Seq<Seq<char>>, line: Seq<char>)
    ensures
        import_lines(v, lines.push(line)) == import_line(v, import_lines(v, lines), line),
        import_lines(v, Seq::empty()).total == 0,
        import_lines(v, Seq::empty()).kept.len() == 0,
{
    assert(lines.push(line).drop_last() =~= lines);
}

/// Tasks stand in the order of the entries: going on adds at the end, one task at most, and
/// stops at the limit.
pub proof fn law_tasks_stand_in_order(v: StoreView, ids: Seq<u32>, limit: nat, k: nat)
    requires
        k < ids.len(),
        tasks_upto(v, ids, limit, k) is Ok,
    ensures
        ({
            let a = tasks_upto(v, ids, limit, k)->Ok_0;
            let b = tasks_upto(v, ids, limit, k + 1);
            let e = entry_result(v, ids[k as int]);
            let full = a.len() >= limit && a.len() > 0;
            &&& full ==> b == Ok::<Seq<Seq<char>>, StoreError>(a)
            &&& !full && e is Err ==> b == Err::<Seq<Seq<char>>, StoreError>(e->Err_0)
            &&& !full && e is Ok && e->Ok_0.senses.len() < 3 ==> b
                == Ok::<Seq<Seq<char>>, StoreError>(a)
            &&& !full && e is Ok && e->Ok_0.senses.len() >= 3 ==> b
                == Ok::<Seq<Seq<char>>, StoreError>(
                a.push(entry_task(ids[k as int], e->Ok_0)),
            )
            &&& tasks_upto(v, ids, limit, 0) == Ok::<Seq<Seq<char>>, StoreError>(Seq::empty())
        }),
{
}

proof fn lemma_eligible_rises(v: StoreView, n: nat)
    requires
        n <= u32::MAX,
    ensures
        forall|i: int, j: int|
            0 <= i < j < eligible_upto(v, n).len() ==> #[trigger] eligible_upto(v, n)[i]
                < #[trigger] eligible_upto(v, n)[j],
        forall|i: int| 0 <= i < eligible_upto(v, n).len() ==> #[trigger] eligible_upto(v, n)[i] < n,
    decreases n,
{
    if n > 0 {
        lemma_eligible_rises(v, (n - 1) as nat);
        let a = eligible_upto(v, (n - 1) as nat);
        let b = eligible_upto(v, n);
        assert forall|i: int, j: int| 0 <= i < j < b.len() implies #[trigger] b[i]
            < #[trigger] b[j] by {
            if j < a.len() {
                assert(a[i] < a[j]);
            } else {
                assert(a[i] < n - 1);
            }
        }
        assert forall|i: int| 0 <= i < b.len() implies #[trigger] b[i] < n by {
            if i < a.len() {
                assert(a[i] < n - 1);
            }
        }
    }
}

/// Of entries equally common the one of the smaller number is sent first, and none is sent
/// twice.
pub proof fn law_equally_common_entries_are_sent_by_number(v: StoreView, i: int, j: int)
    requires
        v.n <= u32::MAX,
        0 <= i < j < export_order(v).len(),
    ensures
        v.pct[export_order(v)[i] as int].order() == v.pct[export_order(v)[j] as int].order()
            ==> export_order(v)[i] < export_order(v)[j],
        export_order(v)[i] != export_order(v)[j],
{
    let ids = eligible_upto(v, v.n);
    let keys = falling(v, ids);
    let p = stable_perm(keys);
    lemma_eligible_upto(v, v.n, 0);
    law_keys_can_be_ordered(keys);
    lemma_eligible_rises(v, v.n);
    lemma_order_small(v.pct[export_order(v)[i] as int]);
    lemma_order_small(v.pct[export_order(v)[j] as int]);
    assert(keys[p[i] as int] < keys[p[j] as int] || (keys[p[i] as int] == keys[p[j] as int]
        && p[i] < p[j]));
    assert(ids[p[i] as int] == export_order(v)[i]);
    assert(ids[p[j] as int] == export_order(v)[j]);
}

/// An object that names no entry is no reply.
pub proof fn law_a_reply_names_its_entry(obj: Seq<char>, sent: Map<u32, usize>)
    ensures
        number_field(obj, "id"@) is None ==> replies_among(seq![obj], sent).len() == 0,
{
    assert(seq![obj].drop_last() =~= Seq::<Seq<char>>::empty());
    assert(replies_among(seq![obj].drop_last(), sent) =~= Seq::<OutView>::empty());
    assert(seq![obj].last() == obj);
}

/// An object with a text that is not blank is a sense, with what it names under `from`, its
/// register and its collocations; one without is none.
pub proof fn law_one_object_one_sense(obj: Seq<char>)
    ensures
        ({
            let t = string_field(obj, "text"@);
            let s = senses_among(seq![obj]);
            &&& t is None || trimmed(t->0).len() == 0 ==> s.len() == 0
            &&& t is Some && trimmed(t->0).len() > 0 ==> {
                &&& s.len() == 1
                &&& s[0].text == t->0
                &&& s[0].from == numbers_field(obj, "from"@)
                &&& string_field(obj, "reg"@) is None ==> s[0].reg.len() == 0
                &&& string_field(obj, "reg"@) matches Some(r) ==> s[0].reg == r
                &&& string_field(obj, "col"@) is None ==> s[0].col.len() == 0
                &&& string_field(obj, "col"@) matches Some(c) ==> s[0].col == c
            }
        }),
{
    assert(seq![obj].drop_last() =~= Seq::<Seq<char>>::empty());
    assert(senses_among(seq![obj].drop_last()) =~= Seq::<OutSenseView>::empty());
    assert(seq![obj].last() == obj);
}

/// The senses of a reply are the objects behind the word `senses`; without it there are none.
pub proof fn law_where_the_senses_stand(obj: Seq<char>, i: int)
    ensures
        find(obj, "\"senses\""@) is None ==> senses_in(obj).len() == 0,
        find(obj, "\"senses\""@) == Some(i) ==> senses_in(obj) == senses_among(
            objects_in(obj.skip(i)),
        ),
{
}

/// What a reply brings is what its objects bring, the fences round it taken off.
pub proof fn law_replies_of_a_text(x: Seq<char>, sent: Map<u32, usize>)
    requires
        x.len() > 0,
        ends_bare(x),
        x[0] != '`',
        x.last() != '`',
    ensures
        replies_in(x, sent) == replies_among(objects_in(x), sent),
        replies_in(
            seq!['`', '`', '`', 'j', 's', 'o', 'n', '\n'] + x + seq!['\n', '`', '`', '`'],
            sent,
        ) == replies_in(x, sent),
{
    law_fences_are_taken_off(x);
}

/// How a task is written: one object with the number of the entry, its word, its part of speech,
/// the senses and the examples.
pub proof fn law_how_a_task_is_written(id: u32, e: EntryView)
    ensures
        entry_task(id, e) == seq!['{', '"', 'i', 'd', '"', ':'] + decimal(id as nat) + seq![
            ',',
            '"',
            'w',
            '"',
            ':',
            '"',
        ] + escaped(e.word) + seq!['"', ',', '"', 'p', 'o', 's', '"', ':', '"'] + escaped(e.pos)
            + seq!['"', ',', '"', 's', 'r', 'c', '"', ':', '['] + json_list(source_texts(e.senses))
            + seq![']', ',', '"', 'e', 'x', '"', ':', '['] + json_list(example_texts(e)) + seq![
            ']',
            '}',
        ],
{
    reveal_strlit("{\"id\":");
    reveal_strlit(",\"w\":\"");
    reveal_strlit("\",\"pos\":\"");
    reveal_strlit("\",\"src\":[");
    reveal_strlit("],\"ex\":[");
    reveal_strlit("]}");
    assert("{\"id\":"@ =~= seq!['{', '"', 'i', 'd', '"', ':']);
    assert(",\"w\":\""@ =~= seq![',', '"', 'w', '"', ':', '"']);
    assert("\",\"pos\":\""@ =~= seq!['"', ',', '"', 'p', 'o', 's', '"', ':', '"']);
    assert("\",\"src\":["@ =~= seq!['"', ',', '"', 's', 'r', 'c', '"', ':', '[']);
    assert("],\"ex\":["@ =~= seq![']', ',', '"', 'e', 'x', '"', ':', '[']);
    assert("]}"@ =~= seq![']', '}']);
}

/// A list is written with its texts in quotes, a comma between them.
pub proof fn law_how_a_list_is_written(v: Seq<Seq<char>>, x: Seq<char>)
    ensures
        json_list(Seq::empty()).len() == 0,
        v.len() == 0 ==> json_list(v.push(x)) == seq!['"'] + escaped(x) + seq!['"'],
        v.len() > 0 ==> json_list(v.push(x)) == json_list(v) + seq![',', '"'] + escaped(x) + seq![
            '"',
        ],
{
    let q = |w: Seq<Seq<char>>| Seq::new(w.len(), |i: int| seq!['"'] + escaped(w[i]) + seq!['"']);
    assert(q(v.push(x)).drop_last() =~= q(v));
    assert(q(v.push(x)).last() == seq!['"'] + escaped(x) + seq!['"']);
    assert(json_list(v) == crate::text::join(q(v), seq![',']));
    assert(json_list(v.push(x)) == crate::text::join(q(v.push(x)), seq![',']));
    if v.len() > 0 {
        assert(json_list(v.push(x)) =~= json_list(v) + seq![',', '"'] + escaped(x) + seq!['"']);
    } else {
        assert(q(v.push(x)).len() == 1);
        assert(q(v.push(x))[0] == seq!['"'] + escaped(x) + seq!['"']);
    }
}

} // verus!
