//! Senses rewritten by a language model.
//!
//! The model orders, merges and labels senses that are there; it invents none. Each sense it
//! returns names by `from` the senses it was made of, so that a machine can check it.
//! Readings, word forms and frequencies never go through it. The results are kept beside the
//! store, which can be built anew without losing them.
use crate::fasthash::{IdMap, IdSet};
use crate::json::{
    escaped, json_str, json_strings, json_u32_of, json_usizes, number_field, numbers_field,
    objects_in, push_escaped, split_objects_of, string_field, strings_under, strip_fence_of,
};
pub use crate::json::{fence_stripped, json_u32, split_objects, strip_fence};
use crate::model::{sense_views, Entry, EntryView, Sense, SenseView, KIND_ZH};
use crate::number::{decimal, push_decimal};
use crate::order::{permuted, stable_order, stable_perm, stable_sort};
use crate::single::Single;
use crate::store::{
    entry_result, law_entry_raw_never_sees_the_overlay, records_readable, Store, StoreError,
    StoreView,
};
use crate::text::{
    chars_of, extend, extend_str, find, find_sub, join, join_strs, lemma_join_step,
    lemma_texts_push, rows, string_of, texts, trim, trimmed,
};
use crate::writer::ids_ascend;
use vstd::prelude::*;
use vstd::slice::*;
use vstd::std_specs::hash::*;
use vstd::string::*;

verus! {

/// Entries with fewer senses are not sent: most have one, and there is nothing to gain.
pub const MIN_SENSES: usize = 3;

/// Entries of a lower percentile are not sent: 0.55.
pub const MIN_PCT_BITS: u32 = 0x3F0C_CCCD;

// ───────────────────────── writing ─────────────────────────

/// What goes to the model for one entry. The names in the JSON are short: they are paid for
/// thousands of times.
pub struct Task {
    pub id: u32,
    pub word: String,
    pub pos: String,
    /// The senses of the source; `from` refers to them by place.
    pub src: Vec<String>,
    /// Up to two examples, the Chinese half alone.
    pub ex: Vec<String>,
}

/// Texts as JSON strings with commas between.
pub open spec fn json_list(v: Seq<Seq<char>>) -> Seq<char> {
    join(Seq::new(v.len(), |i: int| seq!['"'] + escaped(v[i]) + seq!['"']), seq![','])
}

/// A task as one line of JSON.
pub open spec fn task_json(
    id: u32,
    word: Seq<char>,
    pos: Seq<char>,
    src: Seq<Seq<char>>,
    ex: Seq<Seq<char>>,
) -> Seq<char> {
    "{\"id\":"@ + decimal(id as nat) + ",\"w\":\""@ + escaped(word) + "\",\"pos\":\""@ + escaped(
        pos,
    ) + "\",\"src\":["@ + json_list(src) + "],\"ex\":["@ + json_list(ex) + "]}"@
}

fn push_json_list(out: &mut Vec<char>, v: &Vec<String>)
    ensures
        final(out)@ == old(out)@ + json_list(texts(v@)),
{
    let ghost before = out@;
    let ghost parts = Seq::new(
        texts(v@).len(),
        |i: int| seq!['"'] + escaped(texts(v@)[i]) + seq!['"'],
    );
    let mut i: usize = 0;
    assert(parts.take(0) =~= Seq::<Seq<char>>::empty());
    assert(out@ =~= before + join(parts.take(0), seq![',']));
    while i < v.len()
        invariant
            i <= v.len(),
            parts == Seq::new(
                texts(v@).len(),
                |i: int| seq!['"'] + escaped(texts(v@)[i]) + seq!['"'],
            ),
            out@ == before + join(parts.take(i as int), seq![',']),
        decreases v.len() - i,
    {
        proof {
            lemma_join_step(parts, seq![','], i as int);
            assert(parts[i as int] == seq!['"'] + escaped(v@[i as int]@) + seq!['"']);
        }
        if i > 0 {
            out.push(',');
        }
        out.push('"');
        push_escaped(out, v[i].as_str());
        out.push('"');
        assert(out@ =~= before + join(parts.take(i as int + 1), seq![',']));
        i = i + 1;
    }
    assert(parts.take(i as int) =~= parts);
}

impl Task {
    pub fn to_json(&self) -> (r: String)
        ensures
            r@ == task_json(self.id, self.word@, self.pos@, texts(self.src@), texts(self.ex@)),
    {
        let mut o = chars_of("{\"id\":");
        push_decimal(&mut o, self.id as u64);
        extend_str(&mut o, ",\"w\":\"");
        push_escaped(&mut o, self.word.as_str());
        extend_str(&mut o, "\",\"pos\":\"");
        push_escaped(&mut o, self.pos.as_str());
        extend_str(&mut o, "\",\"src\":[");
        push_json_list(&mut o, &self.src);
        extend_str(&mut o, "],\"ex\":[");
        push_json_list(&mut o, &self.ex);
        extend_str(&mut o, "]}");
        string_of(&o)
    }
}

/// A sense as it is shown to the model: with its register, so that it knows what is labelled.
pub open spec fn source_text(s: SenseView) -> Seq<char> {
    if s.reg.len() == 0 {
        s.text
    } else {
        "("@ + s.reg + ") "@ + s.text
    }
}

/// The senses of an entry as they are shown to the model.
pub open spec fn source_texts(s: Seq<SenseView>) -> Seq<Seq<char>> {
    Seq::new(s.len(), |i: int| source_text(s[i]))
}

/// The first examples of an entry, up to two.
pub open spec fn example_texts(e: EntryView) -> Seq<Seq<char>> {
    Seq::new(
        if e.examples.len() < 2 {
            e.examples.len()
        } else {
            2
        },
        |i: int| e.examples[i].a,
    )
}

/// The task of an entry as one line of JSON.
pub open spec fn entry_task(id: u32, e: EntryView) -> Seq<char> {
    task_json(id, e.word, e.pos, source_texts(e.senses), example_texts(e))
}

pub fn build_task(id: u32, e: &Entry) -> (r: Task)
    ensures
        r.id == id,
        r.word@ == e@.word,
        r.pos@ == e@.pos,
        texts(r.src@) == source_texts(e@.senses),
        texts(r.ex@) == example_texts(e@),
{
    let mut src: Vec<String> = Vec::new();
    let mut i: usize = 0;
    while i < e.senses.len()
        invariant
            i <= e.senses.len(),
            src.len() == i,
            forall|j: int| 0 <= j < i ==> (#[trigger] src@[j])@ == source_text(e.senses@[j]@),
        decreases e.senses.len() - i,
    {
        let s = &e.senses[i];
        if s.reg.as_str().unicode_len() == 0 {
            src.push(s.text.clone());
        } else {
            let mut o = chars_of("(");
            extend_str(&mut o, s.reg.as_str());
            extend_str(&mut o, ") ");
            extend_str(&mut o, s.text.as_str());
            src.push(string_of(&o));
        }
        i = i + 1;
    }
    assert(texts(src@) =~= source_texts(e@.senses));
    let mut ex: Vec<String> = Vec::new();
    let mut k: usize = 0;
    while k < e.examples.len() && k < 2
        invariant
            k <= e.examples.len(),
            k <= 2,
            ex.len() == k,
            forall|j: int| 0 <= j < k ==> (#[trigger] ex@[j])@ == e.examples@[j].a@,
        decreases e.examples.len() - k,
    {
        ex.push(e.examples[k].a.clone());
        k = k + 1;
    }
    assert(texts(ex@) =~= example_texts(e@));
    Task { id, word: e.word.clone(), pos: e.pos.clone(), src, ex }
}

// ───────────────────────── choosing what to send ─────────────────────────

/// Whether an entry may be sent: a Chinese one of a high enough percentile.
pub open spec fn eligible(v: StoreView, i: int) -> bool {
    v.kind[i] == KIND_ZH && !v.pct[i].is_nan_spec() && v.pct[i].order() >= MIN_PCT_BITS
}

/// The eligible among the first `n` entries.
pub open spec fn eligible_upto(v: StoreView, n: nat) -> Seq<u32>
    decreases n,
{
    if n == 0 {
        Seq::empty()
    } else if eligible(v, n - 1) {
        eligible_upto(v, (n - 1) as nat).push((n - 1) as u32)
    } else {
        eligible_upto(v, (n - 1) as nat)
    }
}

/// Keys that sort by falling percentile.
pub open spec fn falling(v: StoreView, ids: Seq<u32>) -> Seq<i128> {
    Seq::new(ids.len(), |i: int| (-v.pct[ids[i] as int].order()) as i128)
}

/// The eligible entries, the most common first, so that stopping halfway leaves out the rare.
pub open spec fn export_order(v: StoreView) -> Seq<u32> {
    let ids = eligible_upto(v, v.n);
    permuted(ids, stable_perm(falling(v, ids)))
}

/// The tasks of the first `k` entries in order, with the senses of the source whatever was
/// rewritten before, those with too few senses left out, cut off
/// once `limit` are made; or the first entry that cannot be read.
pub open spec fn tasks_upto(v: StoreView, ids: Seq<u32>, limit: nat, k: nat) -> Result<
    Seq<Seq<char>>,
    StoreError,
>
    decreases k,
{
    if k == 0 {
        Ok(Seq::empty())
    } else {
        match tasks_upto(v, ids, limit, (k - 1) as nat) {
            Err(e) => Err(e),
            Ok(a) => if a.len() > 0 && a.len() >= limit {
                Ok(a)
            } else {
                match entry_result(v, ids[k - 1]) {
                    Err(e) => Err(e),
                    Ok(e) => {
                        if e.senses.len() < MIN_SENSES {
                            Ok(a)
                        } else {
                            Ok(a.push(entry_task(ids[k - 1], e)))
                        }
                    },
                }
            },
        }
    }
}

fn eligible_ids(store: &Store) -> (r: Vec<u32>)
    requires
        store@.pct.len() == store@.n,
        store@.kind.len() == store@.n,
        store@.n <= u32::MAX,
    ensures
        r@ == eligible_upto(store@, store@.n),
        forall|i: int| 0 <= i < r@.len() ==> (#[trigger] r@[i]) < store@.n,
        forall|i: int| 0 <= i < r@.len() ==> !store@.pct[(#[trigger] r@[i]) as int].is_nan_spec(),
{
    let floor = Single { bits: MIN_PCT_BITS };
    let mut r: Vec<u32> = Vec::new();
    let mut i: usize = 0;
    while i < store.n
        invariant
            store@.pct.len() == store@.n,
            store@.kind.len() == store@.n,
            store@.n <= u32::MAX,
            floor.bits == MIN_PCT_BITS,
            i <= store.n,
            r@ == eligible_upto(store@, i as nat),
            forall|j: int| 0 <= j < r@.len() ==> (#[trigger] r@[j]) < i,
            forall|j: int|
                0 <= j < r@.len() ==> !store@.pct[(#[trigger] r@[j]) as int].is_nan_spec(),
        decreases store.n - i,
    {
        let p = store.pct[i];
        if store.kind[i] == KIND_ZH && !p.is_nan() && !p.less(floor) {
            r.push(i as u32);
        }
        i = i + 1;
    }
    r
}

/// The tasks to send, one line each, at most `limit` of them but never fewer than the first.
pub fn export(store: &Store, limit: usize) -> (r: Result<Vec<String>, StoreError>)
    requires
        store@.pct.len() == store@.n,
        store@.kind.len() == store@.n,
        store@.n <= u32::MAX,
        records_readable(store@),
    ensures
        match r {
            Ok(lines) => tasks_upto(
                store@,
                export_order(store@),
                limit as nat,
                export_order(store@).len(),
            ) == Ok::<Seq<Seq<char>>, StoreError>(texts(lines@)),
            Err(e) => tasks_upto(
                store@,
                export_order(store@),
                limit as nat,
                export_order(store@).len(),
            ) == Err::<Seq<Seq<char>>, StoreError>(e),
        },
{
    let ids = eligible_ids(store);
    let mut keys: Vec<i128> = Vec::new();
    let mut i: usize = 0;
    while i < ids.len()
        invariant
            i <= ids.len(),
            store@.pct.len() == store@.n,
            keys.len() == i,
            forall|j: int| 0 <= j < ids@.len() ==> (#[trigger] ids@[j]) < store@.n,
            forall|j: int| 0 <= j < i ==> #[trigger] keys@[j] == falling(store@, ids@)[j],
        decreases ids.len() - i,
    {
        let p = store.pct[ids[i] as usize];
        let k: i128 = 0 - order_of(p);
        keys.push(k);
        i = i + 1;
    }
    assert(keys@ =~= falling(store@, ids@));
    let p = stable_sort(keys);
    let ghost order = export_order(store@);
    assert(order =~= permuted(ids@, p@));
    let mut lines: Vec<String> = Vec::new();
    let mut k: usize = 0;
    assert(texts(lines@) =~= Seq::<Seq<char>>::empty());
    while k < p.len()
        invariant
            k <= p.len(),
            records_readable(store@),
            order == export_order(store@),
            order == permuted(ids@, p@),
            forall|j: int| 0 <= j < p@.len() ==> (#[trigger] p@[j]) < ids@.len(),
            tasks_upto(store@, order, limit as nat, k as nat) == Ok::<Seq<Seq<char>>, StoreError>(
                texts(lines@),
            ),
        decreases p.len() - k,
    {
        if lines.len() == 0 || lines.len() < limit {
            let id: u32 = ids[p[k]];
            assert(order[k as int] == id);
            match store.entry_raw(id) {
                Ok(e) => {
                    if e.senses.len() >= MIN_SENSES {
                        let line = build_task(id, &e).to_json();
                        proof {
                            lemma_texts_push(lines@, line);
                        }
                        lines.push(line);
                    }
                },
                Err(x) => {
                    proof {
                        lemma_tasks_err(store@, order, limit as nat, (k + 1) as nat, order.len(), x);
                    }
                    return Err(x);
                },
            }
        }
        k = k + 1;
    }
    Ok(lines)
}

proof fn lemma_tasks_err(
    v: StoreView,
    ids: Seq<u32>,
    limit: nat,
    k: nat,
    n: nat,
    e: StoreError,
)
    requires
        k <= n,
        tasks_upto(v, ids, limit, k) == Err::<Seq<Seq<char>>, StoreError>(e),
    ensures
        tasks_upto(v, ids, limit, n) == Err::<Seq<Seq<char>>, StoreError>(e),
    decreases n - k,
{
    if k < n {
        lemma_tasks_err(v, ids, limit, (k + 1) as nat, n, e);
    }
}

fn order_of(p: Single) -> (r: i128)
    ensures
        r == p.order(),
{
    if p.bits < 0x8000_0000 {
        p.bits as i128
    } else {
        0 - ((p.bits - 0x8000_0000) as i128)
    }
}

// ───────────────────────── replies ─────────────────────────

/// One rewritten sense.
pub struct OutSense {
    /// The senses of the source it was made of, by place.
    pub from: Vec<usize>,
    pub text: String,
    pub reg: String,
    pub col: String,
}

/// The rewritten senses of one entry.
pub struct Out {
    pub id: u32,
    pub senses: Vec<OutSense>,
}

#[verifier::ext_equal]
pub struct OutSenseView {
    pub from: Seq<usize>,
    pub text: Seq<char>,
    pub reg: Seq<char>,
    pub col: Seq<char>,
}

#[verifier::ext_equal]
pub struct OutView {
    pub id: u32,
    pub senses: Seq<OutSenseView>,
}

impl View for OutSense {
    type V = OutSenseView;

    open spec fn view(&self) -> OutSenseView {
        OutSenseView { from: self.from@, text: self.text@, reg: self.reg@, col: self.col@ }
    }
}

pub open spec fn out_sense_views(v: Seq<OutSense>) -> Seq<OutSenseView> {
    Seq::new(v.len(), |i: int| v[i]@)
}

impl View for Out {
    type V = OutView;

    open spec fn view(&self) -> OutView {
        OutView { id: self.id, senses: out_sense_views(self.senses@) }
    }
}

pub open spec fn out_views(v: Seq<Out>) -> Seq<OutView> {
    Seq::new(v.len(), |i: int| v[i]@)
}

/// The sense that an object describes; none without a text that is not blank.
pub open spec fn sense_in(s: Seq<char>) -> Option<OutSenseView> {
    match string_field(s, "text"@) {
        Some(t) => if trimmed(t).len() == 0 {
            None
        } else {
            Some(
                OutSenseView {
                    from: numbers_field(s, "from"@),
                    text: t,
                    reg: string_field(s, "reg"@).unwrap_or(Seq::empty()),
                    col: string_field(s, "col"@).unwrap_or(Seq::empty()),
                },
            )
        },
        None => None,
    }
}

/// The senses that objects describe.
pub open spec fn senses_among(objs: Seq<Seq<char>>) -> Seq<OutSenseView>
    decreases objs.len(),
{
    if objs.len() == 0 {
        Seq::empty()
    } else {
        match sense_in(objs.last()) {
            Some(x) => senses_among(objs.drop_last()).push(x),
            None => senses_among(objs.drop_last()),
        }
    }
}

/// The senses of a reply for one entry: the objects after its `"senses"`.
pub open spec fn senses_in(obj: Seq<char>) -> Seq<OutSenseView> {
    match find(obj, "\"senses\""@) {
        Some(i) => senses_among(objects_in(obj.skip(i))),
        None => Seq::empty(),
    }
}

/// A sense that names none but the first `n` senses of the source.
pub open spec fn within(s: OutSenseView, n: nat) -> bool {
    forall|i: int| 0 <= i < s.from.len() ==> (#[trigger] s.from[i]) < n
}

/// The senses that name none but the first `n` of the source.
pub open spec fn senses_within(v: Seq<OutSenseView>, n: nat) -> Seq<OutSenseView>
    decreases v.len(),
{
    if v.len() == 0 {
        v
    } else if within(v.last(), n) {
        senses_within(v.drop_last(), n).push(v.last())
    } else {
        senses_within(v.drop_last(), n)
    }
}

/// The replies among objects: those for an entry that was sent, with the senses that name
/// only senses that were sent of it, where there is at least one. `sent` says how many senses
/// each entry was sent with.
pub open spec fn replies_among(objs: Seq<Seq<char>>, sent: Map<u32, usize>) -> Seq<OutView>
    decreases objs.len(),
{
    if objs.len() == 0 {
        Seq::empty()
    } else {
        let a = replies_among(objs.drop_last(), sent);
        let x = objs.last();
        match number_field(x, "id"@) {
            Some(id) => {
                let senses = senses_within(senses_in(x), sent[id] as nat);
                if sent.contains_key(id) && senses.len() > 0 {
                    a.push(OutView { id, senses })
                } else {
                    a
                }
            },
            None => a,
        }
    }
}

/// The replies of the model to a batch.
pub open spec fn replies_in(reply: Seq<char>, sent: Map<u32, usize>) -> Seq<OutView> {
    replies_among(objects_in(fence_stripped(reply)), sent)
}

fn opt_string(s: Option<Vec<char>>) -> (r: String)
    ensures
        r@ == match s {
            Some(t) => t@,
            None => Seq::empty(),
        },
{
    match s {
        Some(t) => string_of(&t),
        None => String::new(),
    }
}

fn parse_sense(s: &[char]) -> (r: Option<OutSense>)
    ensures
        match r {
            Some(x) => sense_in(s@) == Some(x@),
            None => sense_in(s@) is None,
        },
{
    let text = match json_str(s, "text") {
        Some(t) => t,
        None => {
            return None;
        },
    };
    if trim(&text).len() == 0 {
        return None;
    }
    let reg = json_str(s, "reg");
    let col = json_str(s, "col");
    let x = OutSense {
        from: json_usizes(s, "from"),
        text: string_of(&text),
        reg: opt_string(reg),
        col: opt_string(col),
    };
    assert(x@ =~= sense_in(s@)->0);
    Some(x)
}

fn parse_senses(obj: &[char]) -> (r: Vec<OutSense>)
    ensures
        out_sense_views(r@) == senses_in(obj@),
{
    let mut r: Vec<OutSense> = Vec::new();
    assert(out_sense_views(r@) =~= Seq::<OutSenseView>::empty());
    let pat = chars_of("\"senses\"");
    let at: usize = match find_sub(obj, &pat) {
        Some(i) => i,
        None => {
            return r;
        },
    };
    let body = slice_subrange(obj, at, obj.len());
    assert(body@ =~= obj@.skip(at as int));
    let objs = split_objects_of(body);
    let mut i: usize = 0;
    assert(rows(objs@).take(0) =~= Seq::<Seq<char>>::empty());
    while i < objs.len()
        invariant
            i <= objs.len(),
            out_sense_views(r@) == senses_among(rows(objs@).take(i as int)),
        decreases objs.len() - i,
    {
        proof {
            let t = rows(objs@).take(i as int + 1);
            assert(t.drop_last() =~= rows(objs@).take(i as int));
            assert(t.last() == objs@[i as int]@);
        }
        match parse_sense(&objs[i]) {
            Some(x) => {
                assert(out_sense_views(r@.push(x)) =~= out_sense_views(r@).push(x@));
                r.push(x);
            },
            None => {},
        }
        i = i + 1;
    }
    assert(rows(objs@).take(i as int) =~= rows(objs@));
    r
}

fn is_within(s: &OutSense, n: usize) -> (r: bool)
    ensures
        r == within(s@, n as nat),
{
    let mut i: usize = 0;
    while i < s.from.len()
        invariant
            i <= s.from.len(),
            forall|j: int| 0 <= j < i ==> (#[trigger] s@.from[j]) < n,
        decreases s.from.len() - i,
    {
        if s.from[i] >= n {
            assert(s@.from[i as int] >= n);
            return false;
        }
        i = i + 1;
    }
    true
}

/// What stands behind a sense does not change which of those before it are kept.
proof fn lemma_within_step(v: Seq<OutSenseView>, n: nat, i: int)
    requires
        0 <= i < v.len(),
    ensures
        senses_within(v.take(i + 1), n) == if within(v[i], n) {
            senses_within(v.take(i), n).push(v[i])
        } else {
            senses_within(v.take(i), n)
        },
{
    assert(v.take(i + 1).drop_last() =~= v.take(i));
    assert(v.take(i + 1).last() == v[i]);
}

fn keep_within(v: &mut Vec<OutSense>, n: usize)
    ensures
        out_sense_views(final(v)@) == senses_within(out_sense_views(old(v)@), n as nat),
{
    let ghost all = out_sense_views(v@);
    let ghost mut k: int = 0;
    let mut i: usize = 0;
    assert(all.skip(0) =~= all);
    assert(all.take(0) =~= Seq::<OutSenseView>::empty());
    while i < v.len()
        invariant
            i <= v.len(),
            0 <= k <= all.len(),
            v.len() - i == all.len() - k,
            out_sense_views(v@).take(i as int) == senses_within(all.take(k), n as nat),
            out_sense_views(v@).skip(i as int) == all.skip(k),
        decreases v.len() - i,
    {
        let ghost was = out_sense_views(v@);
        proof {
            assert(was.skip(i as int)[0] == all.skip(k)[0]);
            assert(v@[i as int]@ == all[k]);
            lemma_within_step(all, n as nat, k);
            assert(was.skip(i as int + 1) =~= was.skip(i as int).drop_first());
            assert(all.skip(k + 1) =~= all.skip(k).drop_first());
        }
        if is_within(&v[i], n) {
            assert(was.take(i as int + 1) =~= was.take(i as int).push(all[k]));
            i = i + 1;
        } else {
            v.remove(i);
            assert(out_sense_views(v@).take(i as int) =~= was.take(i as int));
            assert(out_sense_views(v@).skip(i as int) =~= was.skip(i as int + 1));
        }
        proof {
            k = k + 1;
        }
    }
    assert(all.take(k) =~= all);
    assert(out_sense_views(v@).take(i as int) =~= out_sense_views(v@));
}

/// Reads the replies to a batch, where `sent` says how many senses each entry was sent with.
/// A reply for an entry that was not sent, senses without a text or with a number that is no
/// sense of the entry, and a reply that is left without a sense are dropped: rather the senses
/// of the source than some that nobody can account for.
pub fn parse_outs(reply: &str, sent: &IdMap<usize>) -> (r: Vec<Out>)
    ensures
        out_views(r@) == replies_in(reply@, sent@),
{
    broadcast use group_hash_axioms;

    let c = chars_of(reply);
    let body = strip_fence_of(&c);
    let objs = split_objects_of(&body);
    let mut r: Vec<Out> = Vec::new();
    let mut i: usize = 0;
    assert(out_views(r@) =~= Seq::<OutView>::empty());
    assert(rows(objs@).take(0) =~= Seq::<Seq<char>>::empty());
    while i < objs.len()
        invariant
            i <= objs.len(),
            out_views(r@) == replies_among(rows(objs@).take(i as int), sent@),
        decreases objs.len() - i,
    {
        proof {
            let t = rows(objs@).take(i as int + 1);
            assert(t.drop_last() =~= rows(objs@).take(i as int));
            assert(t.last() == objs@[i as int]@);
        }
        match json_u32_of(&objs[i], "id") {
            Some(id) => {
                match sent.get(&id) {
                    Some(n) => {
                        let mut senses = parse_senses(&objs[i]);
                        keep_within(&mut senses, *n);
                        assert(out_sense_views(senses@).len() == senses@.len());
                        if senses.len() > 0 {
                            let x = Out { id, senses };
                            assert(out_views(r@.push(x)) =~= out_views(r@).push(x@));
                            r.push(x);
                        }
                    },
                    None => {},
                }
            },
            None => {},
        }
        i = i + 1;
    }
    assert(rows(objs@).take(i as int) =~= rows(objs@));
    r
}

proof fn lemma_senses_within(v: Seq<OutSenseView>, n: nat)
    ensures
        forall|j: int|
            0 <= j < senses_within(v, n).len() ==> within(#[trigger] senses_within(v, n)[j], n),
    decreases v.len(),
{
    if v.len() > 0 {
        let a = senses_within(v.drop_last(), n);
        lemma_senses_within(v.drop_last(), n);
        assert forall|j: int| 0 <= j < senses_within(v, n).len() implies within(
            #[trigger] senses_within(v, n)[j],
            n,
        ) by {
            if j < a.len() {
                assert(senses_within(v, n)[j] == a[j]);
            }
        }
    }
}

proof fn lemma_replies_among(objs: Seq<Seq<char>>, sent: Map<u32, usize>)
    ensures
        forall|i: int|
            0 <= i < replies_among(objs, sent).len() ==> {
                let x = #[trigger] replies_among(objs, sent)[i];
                &&& sent.contains_key(x.id)
                &&& x.senses.len() > 0
                &&& forall|j: int|
                    0 <= j < x.senses.len() ==> within(#[trigger] x.senses[j], sent[x.id] as nat)
            },
    decreases objs.len(),
{
    if objs.len() > 0 {
        let a = replies_among(objs.drop_last(), sent);
        let r = replies_among(objs, sent);
        lemma_replies_among(objs.drop_last(), sent);
        if let Some(id) = number_field(objs.last(), "id"@) {
            lemma_senses_within(senses_in(objs.last()), sent[id] as nat);
        }
        assert forall|i: int| 0 <= i < r.len() implies {
            let x = #[trigger] r[i];
            &&& sent.contains_key(x.id)
            &&& x.senses.len() > 0
            &&& forall|j: int|
                0 <= j < x.senses.len() ==> within(#[trigger] x.senses[j], sent[x.id] as nat)
        } by {
            if i < a.len() {
                assert(r[i] == a[i]);
            }
        }
    }
}

/// What is kept of the replies was asked for: every reply is for an entry that was sent, has
/// a sense, and names only senses that the entry was sent with.
pub proof fn law_replies_name_what_was_sent(reply: Seq<char>, sent: Map<u32, usize>, i: int)
    requires
        0 <= i < replies_in(reply, sent).len(),
    ensures
        sent.contains_key(replies_in(reply, sent)[i].id),
        replies_in(reply, sent)[i].senses.len() > 0,
        forall|j: int|
            0 <= j < replies_in(reply, sent)[i].senses.len() ==> within(
                #[trigger] replies_in(reply, sent)[i].senses[j],
                sent[replies_in(reply, sent)[i].id] as nat,
            ),
{
    lemma_replies_among(objects_in(fence_stripped(reply)), sent);
}

/// Numbers with commas between.
pub open spec fn number_list(v: Seq<usize>) -> Seq<char> {
    join(Seq::new(v.len(), |i: int| decimal(v[i] as nat)), seq![','])
}

/// A rewritten sense as JSON.
pub open spec fn sense_json(s: OutSenseView) -> Seq<char> {
    "{\"from\":["@ + number_list(s.from) + "],\"text\":\""@ + escaped(s.text) + "\",\"reg\":\""@
        + escaped(s.reg) + "\",\"col\":\""@ + escaped(s.col) + "\"}"@
}

/// The rewritten senses of an entry as one line of JSON.
pub open spec fn reply_json(o: OutView) -> Seq<char> {
    "{\"id\":"@ + decimal(o.id as nat) + ",\"senses\":["@ + join(
        Seq::new(o.senses.len(), |i: int| sense_json(o.senses[i])),
        seq![','],
    ) + "]}"@
}

fn push_number_list(out: &mut Vec<char>, v: &Vec<usize>)
    ensures
        final(out)@ == old(out)@ + number_list(v@),
{
    let ghost before = out@;
    let ghost parts = Seq::new(v@.len(), |i: int| decimal(v@[i] as nat));
    let mut i: usize = 0;
    assert(parts.take(0) =~= Seq::<Seq<char>>::empty());
    assert(out@ =~= before + join(parts.take(0), seq![',']));
    while i < v.len()
        invariant
            i <= v.len(),
            parts == Seq::new(v@.len(), |i: int| decimal(v@[i] as nat)),
            out@ == before + join(parts.take(i as int), seq![',']),
        decreases v.len() - i,
    {
        proof {
            lemma_join_step(parts, seq![','], i as int);
        }
        if i > 0 {
            out.push(',');
        }
        push_decimal(out, v[i] as u64);
        assert(out@ =~= before + join(parts.take(i as int + 1), seq![',']));
        i = i + 1;
    }
    assert(parts.take(i as int) =~= parts);
}

fn push_sense_json(out: &mut Vec<char>, s: &OutSense)
    ensures
        final(out)@ == old(out)@ + sense_json(s@),
{
    let ghost before = out@;
    extend_str(out, "{\"from\":[");
    push_number_list(out, &s.from);
    extend_str(out, "],\"text\":\"");
    push_escaped(out, s.text.as_str());
    extend_str(out, "\",\"reg\":\"");
    push_escaped(out, s.reg.as_str());
    extend_str(out, "\",\"col\":\"");
    push_escaped(out, s.col.as_str());
    extend_str(out, "\"}");
    assert(out@ =~= before + sense_json(s@));
}

/// One reply as a line of the result file.
pub fn out_json(o: &Out) -> (r: String)
    ensures
        r@ == reply_json(o@),
{
    let mut out = chars_of("{\"id\":");
    push_decimal(&mut out, o.id as u64);
    extend_str(&mut out, ",\"senses\":[");
    let ghost before = out@;
    let ghost parts = Seq::new(o@.senses.len(), |i: int| sense_json(o@.senses[i]));
    let mut i: usize = 0;
    assert(parts.take(0) =~= Seq::<Seq<char>>::empty());
    assert(out@ =~= before + join(parts.take(0), seq![',']));
    while i < o.senses.len()
        invariant
            i <= o.senses.len(),
            parts == Seq::new(o@.senses.len(), |i: int| sense_json(o@.senses[i])),
            out@ == before + join(parts.take(i as int), seq![',']),
        decreases o.senses.len() - i,
    {
        proof {
            lemma_join_step(parts, seq![','], i as int);
            assert(parts[i as int] == sense_json(o.senses@[i as int]@));
        }
        if i > 0 {
            out.push(',');
        }
        push_sense_json(&mut out, &o.senses[i]);
        assert(out@ =~= before + join(parts.take(i as int + 1), seq![',']));
        i = i + 1;
    }
    assert(parts.take(i as int) =~= parts);
    extend_str(&mut out, "]}");
    string_of(&out)
}

// ───────────────────────── accepting replies ─────────────────────────

/// What becomes of the rewritten senses of one entry.
#[derive(Clone, Copy, Debug, PartialEq, Eq, Structural)]
pub enum Verdict {
    /// There are none to be had.
    Missing,
    /// There are more than the source has.
    TooMany,
    /// Some sense does not say what it was made of, or names a sense that the source lacks.
    BadFrom,
    /// Some sense of the source went missing.
    Uncovered,
    Kept,
}

/// A sense that names what it was made of, within the `n` senses of the source.
pub open spec fn grounded(s: OutSenseView, n: nat) -> bool {
    s.from.len() > 0 && within(s, n)
}

/// Some rewritten sense was made of sense `k` of the source.
pub open spec fn covers(s: Seq<OutSenseView>, k: int) -> bool {
    exists|i: int, j: int|
        0 <= i < s.len() && 0 <= j < s[i].from.len() && #[trigger] s[i].from[j] == k
}

/// The verdict on the rewritten senses of an entry with `n` senses.
pub open spec fn verdict(n: nat, s: Seq<OutSenseView>) -> Verdict {
    if s.len() == 0 {
        Verdict::Missing
    } else if s.len() > n {
        Verdict::TooMany
    } else if exists|i: int| 0 <= i < s.len() && !grounded(#[trigger] s[i], n) {
        Verdict::BadFrom
    } else if exists|k: int| 0 <= k < n && !#[trigger] covers(s, k) {
        Verdict::Uncovered
    } else {
        Verdict::Kept
    }
}

fn is_grounded(s: &OutSense, n: usize) -> (r: bool)
    ensures
        r == grounded(s@, n as nat),
{
    s.from.len() > 0 && is_within(s, n)
}

fn all_grounded(s: &Vec<OutSense>, n: usize) -> (r: bool)
    ensures
        r == (forall|i: int|
            0 <= i < s@.len() ==> grounded(#[trigger] out_sense_views(s@)[i], n as nat)),
{
    let mut i: usize = 0;
    while i < s.len()
        invariant
            i <= s.len(),
            forall|j: int|
                0 <= j < i ==> grounded(#[trigger] out_sense_views(s@)[j], n as nat),
        decreases s.len() - i,
    {
        if !is_grounded(&s[i], n) {
            assert(!grounded(out_sense_views(s@)[i as int], n as nat));
            return false;
        }
        i = i + 1;
    }
    true
}

/// Marks the senses of the source that rewritten ones were made of.
fn marks(s: &Vec<OutSense>, n: usize) -> (r: Vec<bool>)
    requires
        forall|i: int| 0 <= i < s@.len() ==> grounded(#[trigger] out_sense_views(s@)[i], n as nat),
    ensures
        r.len() == n,
        forall|k: int| 0 <= k < n ==> #[trigger] r@[k] == covers(out_sense_views(s@), k),
{
    let ghost v = out_sense_views(s@);
    let mut r: Vec<bool> = Vec::new();
    let mut m: usize = 0;
    while m < n
        invariant
            m <= n,
            r.len() == m,
            forall|k: int| 0 <= k < m ==> !#[trigger] r@[k],
        decreases n - m,
    {
        r.push(false);
        m = m + 1;
    }
    let mut i: usize = 0;
    while i < s.len()
        invariant
            i <= s.len(),
            r.len() == n,
            v == out_sense_views(s@),
            forall|i: int| 0 <= i < s@.len() ==> grounded(#[trigger] v[i], n as nat),
            forall|k: int| 0 <= k < n ==> (#[trigger] r@[k] ==> covers(v, k)),
            forall|a: int, b: int|
                0 <= a < i && 0 <= b < v[a].from.len() ==> r@[#[trigger] v[a].from[b] as int],
        decreases s.len() - i,
    {
        let mut j: usize = 0;
        assert(grounded(v[i as int], n as nat));
        while j < s[i].from.len()
            invariant
                i < s.len(),
                j <= s@[i as int].from@.len(),
                r.len() == n,
                v == out_sense_views(s@),
                grounded(v[i as int], n as nat),
                forall|i: int| 0 <= i < s@.len() ==> grounded(#[trigger] v[i], n as nat),
                forall|k: int| 0 <= k < n ==> (#[trigger] r@[k] ==> covers(v, k)),
                forall|a: int, b: int|
                    0 <= a < i && 0 <= b < v[a].from.len() ==> r@[#[trigger] v[a].from[b] as int],
                forall|b: int| 0 <= b < j ==> r@[#[trigger] v[i as int].from[b] as int],
            decreases s@[i as int].from@.len() - j,
        {
            let k: usize = s[i].from[j];
            assert(v[i as int].from[j as int] == k);
            r.set(k, true);
            assert forall|a: int, b: int|
                0 <= a < i && 0 <= b < v[a].from.len() implies r@[#[trigger] v[a].from[b] as int] by {
                assert(grounded(v[a], n as nat));
            }
            j = j + 1;
        }
        i = i + 1;
    }
    r
}

/// Judges the rewritten senses of an entry with `n` senses. A sense
/// made up by the model cannot name what it was made of.
pub fn judge(n: usize, s: &Vec<OutSense>) -> (r: Verdict)
    ensures
        r == verdict(n as nat, out_sense_views(s@)),
{
    let ghost v = out_sense_views(s@);
    if s.len() == 0 {
        return Verdict::Missing;
    }
    if s.len() > n {
        return Verdict::TooMany;
    }
    if !all_grounded(s, n) {
        return Verdict::BadFrom;
    }
    let m = marks(s, n);
    let mut k: usize = 0;
    while k < n
        invariant
            k <= n,
            m.len() == n,
            forall|j: int| 0 <= j < n ==> #[trigger] m@[j] == covers(v, j),
            forall|j: int| 0 <= j < k ==> #[trigger] covers(v, j),
            v.len() > 0,
            v.len() <= n,
            v == out_sense_views(s@),
            forall|i: int| 0 <= i < s@.len() ==> grounded(#[trigger] v[i], n as nat),
        decreases n - k,
    {
        if !m[k] {
            assert(!covers(v, k as int));
            return Verdict::Uncovered;
        }
        k = k + 1;
    }
    Verdict::Kept
}

/// A rewritten sense as it is stored: with the part of speech of the entry, and the
/// collocations as a note.
pub open spec fn stored_sense(pos: Seq<char>, s: OutSenseView) -> SenseView {
    SenseView {
        pos,
        text: s.text,
        note: if trimmed(s.col).len() == 0 {
            Seq::empty()
        } else {
            "搭配 "@ + trimmed(s.col)
        },
        reg: s.reg,
    }
}

pub open spec fn stored_senses(pos: Seq<char>, s: Seq<OutSenseView>) -> Seq<SenseView> {
    Seq::new(s.len(), |i: int| stored_sense(pos, s[i]))
}

fn store_senses(pos: &String, s: &Vec<OutSense>) -> (r: Vec<Sense>)
    ensures
        sense_views(r@) == stored_senses(pos@, out_sense_views(s@)),
{
    let ghost want = stored_senses(pos@, out_sense_views(s@));
    let mut r: Vec<Sense> = Vec::new();
    let mut i: usize = 0;
    while i < s.len()
        invariant
            i <= s.len(),
            want == stored_senses(pos@, out_sense_views(s@)),
            r.len() == i,
            forall|j: int| 0 <= j < i ==> (#[trigger] r@[j])@ == want[j],
        decreases s.len() - i,
    {
        let col = chars_of(s[i].col.as_str());
        let t = trim(&col);
        let note = if t.len() == 0 {
            String::new()
        } else {
            let mut o = chars_of("搭配 ");
            extend(&mut o, t);
            string_of(&o)
        };
        let x = Sense { pos: pos.clone(), text: s[i].text.clone(), note, reg: s[i].reg.clone() };
        assert(x@ =~= want[i as int]);
        r.push(x);
        i = i + 1;
    }
    assert(sense_views(r@) =~= want);
    r
}

/// What reading result lines has come to.
#[verifier::ext_equal]
pub struct ImportView {
    pub kept: Seq<(u32, Seq<SenseView>)>,
    pub total: nat,
    pub missing: nat,
    pub too_many: nat,
    pub bad_from: nat,
    pub uncovered: nat,
}

/// Reads one more line, and holds it against the senses of the source, whatever was rewritten
/// before. A blank line and one without an id do not count. An entry that the
/// store cannot give counts as missing.
pub open spec fn import_line(v: StoreView, a: ImportView, line: Seq<char>) -> ImportView {
    if trimmed(line).len() == 0 {
        a
    } else {
        match number_field(line, "id"@) {
            None => a,
            Some(id) => {
                let a = ImportView { total: a.total + 1, ..a };
                match entry_result(v, id) {
                    Err(_) => ImportView { missing: a.missing + 1, ..a },
                    Ok(e) => {
                        let s = senses_in(line);
                        match verdict(e.senses.len(), s) {
                            Verdict::Missing => ImportView { missing: a.missing + 1, ..a },
                            Verdict::TooMany => ImportView { too_many: a.too_many + 1, ..a },
                            Verdict::BadFrom => ImportView { bad_from: a.bad_from + 1, ..a },
                            Verdict::Uncovered => ImportView { uncovered: a.uncovered + 1, ..a },
                            Verdict::Kept => ImportView {
                                kept: a.kept.push((id, stored_senses(e.pos, s))),
                                ..a
                            },
                        }
                    },
                }
            },
        }
    }
}

/// Reads lines in order.
pub open spec fn import_lines(v: StoreView, lines: Seq<Seq<char>>) -> ImportView
    decreases lines.len(),
{
    if lines.len() == 0 {
        ImportView {
            kept: Seq::empty(),
            total: 0,
            missing: 0,
            too_many: 0,
            bad_from: 0,
            uncovered: 0,
        }
    } else {
        import_line(v, import_lines(v, lines.drop_last()), lines.last())
    }
}

/// The ids of items as sort keys.
pub open spec fn id_keys(s: Seq<(u32, Seq<SenseView>)>) -> Seq<i128> {
    Seq::new(s.len(), |i: int| s[i].0 as i128)
}

/// The first of neighbours with one id.
pub open spec fn deduped(s: Seq<(u32, Seq<SenseView>)>) -> Seq<(u32, Seq<SenseView>)>
    decreases s.len(),
{
    if s.len() == 0 {
        Seq::empty()
    } else {
        let a = deduped(s.drop_last());
        if a.len() > 0 && a.last().0 == s.last().0 {
            a
        } else {
            a.push(s.last())
        }
    }
}

/// The items by rising id, of several with one id the first.
pub open spec fn by_id(s: Seq<(u32, Seq<SenseView>)>) -> Seq<(u32, Seq<SenseView>)> {
    deduped(permuted(s, stable_perm(id_keys(s))))
}

/// What an import keeps, and how many lines it turned down for what.
pub struct ImportReport {
    pub kept: Vec<(u32, Vec<Sense>)>,
    pub total: usize,
    pub missing: usize,
    pub too_many: usize,
    pub bad_from: usize,
    pub uncovered: usize,
}

/// What the items of a table hold.
pub open spec fn item_views(v: Seq<(u32, Vec<Sense>)>) -> Seq<(u32, Seq<SenseView>)> {
    Seq::new(v.len(), |i: int| (v[i].0, sense_views(v[i].1@)))
}

pub open spec fn report_view(r: ImportReport) -> ImportView {
    ImportView {
        kept: item_views(r.kept@),
        total: r.total as nat,
        missing: r.missing as nat,
        too_many: r.too_many as nat,
        bad_from: r.bad_from as nat,
        uncovered: r.uncovered as nat,
    }
}

fn read_line(store: &Store, a: &mut ImportReport, line: &str)
    requires
        records_readable(store@),
        old(a).total < usize::MAX,
        old(a).missing <= old(a).total,
        old(a).too_many <= old(a).total,
        old(a).bad_from <= old(a).total,
        old(a).uncovered <= old(a).total,
        forall|i: int|
            0 <= i < report_view(*old(a)).kept.len() ==> (#[trigger] report_view(
                *old(a),
            ).kept[i]).0 < store@.n,
    ensures
        report_view(*final(a)) == import_line(store@, report_view(*old(a)), line@),
        final(a).total <= old(a).total + 1,
        final(a).missing <= final(a).total,
        final(a).too_many <= final(a).total,
        final(a).bad_from <= final(a).total,
        final(a).uncovered <= final(a).total,
        forall|i: int|
            0 <= i < report_view(*final(a)).kept.len() ==> (#[trigger] report_view(
                *final(a),
            ).kept[i]).0 < store@.n,
{
    let ghost was = report_view(*a);
    let ghost next = import_line(store@, was, line@);
    let c = chars_of(line);
    if trim(&c).len() == 0 {
        return ;
    }
    let id: u32 = match json_u32_of(&c, "id") {
        Some(id) => id,
        None => {
            return ;
        },
    };
    a.total = a.total + 1;
    let e = match store.entry_raw(id) {
        Ok(e) => e,
        Err(_) => {
            a.missing = a.missing + 1;
            assert(report_view(*a) =~= next);
            return ;
        },
    };
    let s = parse_senses(&c);
    match judge(e.senses.len(), &s) {
        Verdict::Missing => {
            a.missing = a.missing + 1;
        },
        Verdict::TooMany => {
            a.too_many = a.too_many + 1;
        },
        Verdict::BadFrom => {
            a.bad_from = a.bad_from + 1;
        },
        Verdict::Uncovered => {
            a.uncovered = a.uncovered + 1;
        },
        Verdict::Kept => {
            let senses = store_senses(&e.pos, &s);
            let ghost k = a.kept@;
            let x = (id, senses);
            a.kept.push(x);
            assert(item_views(a.kept@) =~= item_views(k).push((id, sense_views(senses@))));
        },
    }
    assert(report_view(*a) =~= next);
}

proof fn lemma_deduped(s: Seq<(u32, Seq<SenseView>)>, n: nat)
    requires
        forall|i: int, j: int| 0 <= i < j < s.len() ==> (#[trigger] s[i]).0 <= (#[trigger] s[j]).0,
        forall|i: int| 0 <= i < s.len() ==> (#[trigger] s[i]).0 < n,
    ensures
        ids_ascend(deduped(s), n),
        s.len() > 0 ==> deduped(s).len() > 0 && deduped(s).last().0 == s.last().0,
    decreases s.len(),
{
    if s.len() > 0 {
        let m = s.drop_last();
        lemma_deduped(m, n);
        let a = deduped(m);
        let b = deduped(s);
        assert(s[s.len() - 1].0 < n);
        if m.len() > 0 {
            assert(s[s.len() - 2].0 <= s[s.len() - 1].0);
            assert(m.last() == s[s.len() - 2]);
        }
        assert forall|i: int, j: int| 0 <= i < j < b.len() implies b[i].0 < b[j].0 by {
            if j == a.len() {
                assert(b == a.push(s.last()));
                if i < a.len() - 1 {
                    assert(a[i].0 < a[a.len() - 1].0);
                }
            } else {
                assert(a[i].0 < a[j].0);
            }
        }
        assert forall|i: int| 0 <= i < b.len() implies (#[trigger] b[i]).0 < n by {
            if i < a.len() {
                assert(a[i].0 < n);
            }
        }
    }
}

fn sort_items(v: Vec<(u32, Vec<Sense>)>) -> (r: Vec<(u32, Vec<Sense>)>)
    ensures
        item_views(r@) == by_id(item_views(v@)),
        stable_order(id_keys(item_views(v@)), stable_perm(id_keys(item_views(v@)))),
{
    let ghost s = item_views(v@);
    let mut keys: Vec<i128> = Vec::new();
    let mut i: usize = 0;
    while i < v.len()
        invariant
            i <= v.len(),
            s == item_views(v@),
            keys.len() == i,
            forall|j: int| 0 <= j < i ==> #[trigger] keys@[j] == id_keys(s)[j],
        decreases v.len() - i,
    {
        keys.push(v[i].0 as i128);
        i = i + 1;
    }
    assert(keys@ =~= id_keys(s));
    let p = stable_sort(keys);
    let ghost t = permuted(s, p@);
    let mut r: Vec<(u32, Vec<Sense>)> = Vec::new();
    let mut k: usize = 0;
    assert(t.take(0) =~= Seq::<(u32, Seq<SenseView>)>::empty());
    assert(item_views(r@) =~= Seq::<(u32, Seq<SenseView>)>::empty());
    while k < p.len()
        invariant
            k <= p.len(),
            s == item_views(v@),
            t == permuted(s, p@),
            forall|j: int| 0 <= j < p@.len() ==> (#[trigger] p@[j]) < v.len(),
            item_views(r@) == deduped(t.take(k as int)),
        decreases p.len() - k,
    {
        let at: usize = p[k];
        let n: usize = r.len();
        proof {
            let u = t.take(k as int + 1);
            assert(u.drop_last() =~= t.take(k as int));
            assert(u.last() == (v@[at as int].0, sense_views(v@[at as int].1@)));
            if n > 0 {
                assert(item_views(r@).last().0 == r@[n as int - 1].0);
            }
        }
        if n == 0 || r[n - 1].0 != v[at].0 {
            let x = (v[at].0, copy_senses(&v[at].1));
            assert(item_views(r@.push(x)) =~= item_views(r@).push((x.0, sense_views(x.1@))));
            r.push(x);
        }
        k = k + 1;
    }
    assert(t.take(k as int) =~= t);
    r
}

fn copy_senses(s: &Vec<Sense>) -> (r: Vec<Sense>)
    ensures
        sense_views(r@) == sense_views(s@),
{
    let mut r: Vec<Sense> = Vec::new();
    let mut i: usize = 0;
    while i < s.len()
        invariant
            i <= s.len(),
            r.len() == i,
            forall|j: int| 0 <= j < i ==> (#[trigger] r@[j])@ == s@[j]@,
        decreases s.len() - i,
    {
        let x = &s[i];
        r.push(
            Sense {
                pos: x.pos.clone(),
                text: x.text.clone(),
                note: x.note.clone(),
                reg: x.reg.clone(),
            },
        );
        i = i + 1;
    }
    assert(sense_views(r@) =~= sense_views(s@));
    r
}

/// Reads the result lines and keeps what is sound, by rising id and each id once, as
/// the overlay is written.
pub fn import(store: &Store, lines: &Vec<String>) -> (r: ImportReport)
    requires
        records_readable(store@),
    ensures
        ({
            let all = import_lines(store@, texts(lines@));
            report_view(r) == (ImportView { kept: by_id(all.kept), ..all })
        }),
        ids_ascend(item_views(r.kept@), store@.n),
{
    let mut a = ImportReport {
        kept: Vec::new(),
        total: 0,
        missing: 0,
        too_many: 0,
        bad_from: 0,
        uncovered: 0,
    };
    let ghost all = texts(lines@);
    let mut i: usize = 0;
    assert(all.take(0) =~= Seq::<Seq<char>>::empty());
    assert(report_view(a) =~= import_lines(store@, all.take(0)));
    while i < lines.len()
        invariant
            records_readable(store@),
            i <= lines.len(),
            all == texts(lines@),
            report_view(a) == import_lines(store@, all.take(i as int)),
            a.total <= i,
            a.missing <= a.total,
            a.too_many <= a.total,
            a.bad_from <= a.total,
            a.uncovered <= a.total,
            forall|j: int|
                0 <= j < report_view(a).kept.len() ==> (#[trigger] report_view(a).kept[j]).0
                    < store@.n,
        decreases lines.len() - i,
    {
        read_line(store, &mut a, lines[i].as_str());
        proof {
            let t = all.take(i as int + 1);
            assert(t.drop_last() =~= all.take(i as int));
            assert(t.last() == lines@[i as int]@);
        }
        i = i + 1;
    }
    assert(all.take(i as int) =~= all);
    let ghost k = report_view(a).kept;
    assert(forall|j: int| 0 <= j < k.len() ==> (#[trigger] k[j]).0 < store@.n);
    let ImportReport { kept, total, missing, too_many, bad_from, uncovered } = a;
    let kept = sort_items(kept);
    proof {
        let keys = id_keys(k);
        let p = stable_perm(keys);
        let t = permuted(k, p);
        assert forall|i: int, j: int| 0 <= i < j < t.len() implies (#[trigger] t[i]).0 <= (
        #[trigger] t[j]).0 by {
            assert(keys[p[i] as int] <= keys[p[j] as int]);
        }
        assert forall|i: int| 0 <= i < t.len() implies (#[trigger] t[i]).0 < store@.n by {
            assert(k[p[i] as int].0 < store@.n);
        }
        lemma_deduped(t, store@.n);
    }
    ImportReport { kept, total, missing, too_many, bad_from, uncovered }
}

proof fn lemma_eligible(v: StoreView, w: Option<(Seq<u8>, Seq<u8>)>, n: nat)
    ensures
        eligible_upto(StoreView { overlay: w, ..v }, n) == eligible_upto(v, n),
    decreases n,
{
    if n > 0 {
        lemma_eligible(v, w, (n - 1) as nat);
    }
}

proof fn lemma_tasks(
    v: StoreView,
    w: Option<(Seq<u8>, Seq<u8>)>,
    ids: Seq<u32>,
    limit: nat,
    k: nat,
)
    ensures
        tasks_upto(StoreView { overlay: w, ..v }, ids, limit, k) == tasks_upto(v, ids, limit, k),
    decreases k,
{
    if k > 0 {
        lemma_tasks(v, w, ids, limit, (k - 1) as nat);
        law_entry_raw_never_sees_the_overlay(v, w, ids[k - 1]);
    }
}

/// Rewriting starts from the source: neither what is sent nor what is kept depends on senses
/// that were rewritten before, which would drift a little further each time.
pub proof fn law_rewriting_starts_from_the_source(
    v: StoreView,
    w: Option<(Seq<u8>, Seq<u8>)>,
    limit: nat,
    lines: Seq<Seq<char>>,
)
    ensures
        ({
            let u = StoreView { overlay: w, ..v };
            &&& export_order(u) == export_order(v)
            &&& tasks_upto(u, export_order(u), limit, export_order(u).len()) == tasks_upto(
                v,
                export_order(v),
                limit,
                export_order(v).len(),
            )
            &&& import_lines(u, lines) == import_lines(v, lines)
        }),
    decreases lines.len(),
{
    let u = StoreView { overlay: w, ..v };
    lemma_eligible(v, w, v.n);
    assert(falling(u, eligible_upto(u, u.n)) =~= falling(v, eligible_upto(v, v.n)));
    lemma_tasks(v, w, export_order(v), limit, export_order(v).len());
    if lines.len() > 0 {
        law_rewriting_starts_from_the_source(v, w, limit, lines.drop_last());
        if let Some(id) = number_field(lines.last(), "id"@) {
            law_entry_raw_never_sees_the_overlay(v, w, id);
        }
    }
}

// ───────────────────────── batches ─────────────────────────

/// The lines that hold a task, with its id.
pub open spec fn tasks_in(lines: Seq<Seq<char>>) -> Seq<(u32, Seq<char>)>
    decreases lines.len(),
{
    if lines.len() == 0 {
        Seq::empty()
    } else {
        let a = tasks_in(lines.drop_last());
        match number_field(lines.last(), "id"@) {
            Some(id) => if trimmed(lines.last()).len() > 0 {
                a.push((id, lines.last()))
            } else {
                a
            },
            None => a,
        }
    }
}

/// The ids that occur in result lines.
pub open spec fn ids_in(lines: Seq<Seq<char>>) -> Set<u32>
    decreases lines.len(),
{
    if lines.len() == 0 {
        Set::empty()
    } else {
        match number_field(lines.last(), "id"@) {
            Some(id) => ids_in(lines.drop_last()).insert(id),
            None => ids_in(lines.drop_last()),
        }
    }
}

/// The tasks that have no result yet.
pub open spec fn undone(tasks: Seq<(u32, Seq<char>)>, done: Set<u32>) -> Seq<(u32, Seq<char>)>
    decreases tasks.len(),
{
    if tasks.len() == 0 {
        Seq::empty()
    } else if done.contains(tasks.last().0) {
        undone(tasks.drop_last(), done)
    } else {
        undone(tasks.drop_last(), done).push(tasks.last())
    }
}

pub open spec fn task_views(v: Seq<(u32, String)>) -> Seq<(u32, Seq<char>)> {
    Seq::new(v.len(), |i: int| (v[i].0, v[i].1@))
}

/// The ids that already have a result.
pub fn done_ids(lines: &Vec<String>) -> (r: IdSet)
    ensures
        r@ == ids_in(texts(lines@)),
{
    broadcast use group_hash_axioms;

    let mut r: IdSet = IdSet::new();
    let ghost all = texts(lines@);
    let mut i: usize = 0;
    assert(all.take(0) =~= Seq::<Seq<char>>::empty());
    while i < lines.len()
        invariant
            i <= lines.len(),
            all == texts(lines@),
            r@ == ids_in(all.take(i as int)),
        decreases lines.len() - i,
    {
        proof {
            let t = all.take(i as int + 1);
            assert(t.drop_last() =~= all.take(i as int));
            assert(t.last() == lines@[i as int]@);
        }
        match json_u32(lines[i].as_str(), "id") {
            Some(id) => {
                r.insert(id);
            },
            None => {},
        }
        i = i + 1;
    }
    assert(all.take(i as int) =~= all);
    r
}

/// What is left to do: the tasks of the work file without a result. A run that was broken
/// off goes on where it stopped.
pub fn remaining(work: &Vec<String>, done: &IdSet) -> (r: Vec<(u32, String)>)
    ensures
        task_views(r@) == undone(tasks_in(texts(work@)), done@),
{
    broadcast use group_hash_axioms;

    let mut r: Vec<(u32, String)> = Vec::new();
    let ghost all = texts(work@);
    let mut i: usize = 0;
    assert(all.take(0) =~= Seq::<Seq<char>>::empty());
    assert(task_views(r@) =~= Seq::<(u32, Seq<char>)>::empty());
    while i < work.len()
        invariant
            i <= work.len(),
            all == texts(work@),
            task_views(r@) == undone(tasks_in(all.take(i as int)), done@),
        decreases work.len() - i,
    {
        let line = work[i].as_str();
        let c = chars_of(line);
        proof {
            let t = all.take(i as int + 1);
            assert(t.drop_last() =~= all.take(i as int));
            assert(t.last() == work@[i as int]@);
            let a = tasks_in(all.take(i as int));
            if let Some(id) = number_field(line@, "id"@) {
                assert(a.push((id, line@)).drop_last() =~= a);
            }
        }
        if trim(&c).len() > 0 {
            match json_u32_of(&c, "id") {
                Some(id) => {
                    if !done.contains(&id) {
                        let x = (id, work[i].clone());
                        assert(task_views(r@.push(x)) =~= task_views(r@).push((x.0, x.1@)));
                        r.push(x);
                    }
                },
                None => {},
            }
        }
        i = i + 1;
    }
    assert(all.take(i as int) =~= all);
    r
}

/// How many batches of `size` hold `n` items.
pub open spec fn batch_count(n: nat, size: nat) -> nat
    recommends
        size > 0,
{
    ((n + size - 1) / size as int) as nat
}

/// Batch `k` of `size` items, the last one shorter.
pub open spec fn batch<T>(s: Seq<T>, size: nat, k: int) -> Seq<T> {
    s.subrange(
        k * size,
        if (k + 1) * size < s.len() {
            (k + 1) * size
        } else {
            s.len() as int
        },
    )
}

/// Cuts what is left to do into batches.
pub fn batches(todo: &Vec<(u32, String)>, size: usize) -> (r: Vec<Vec<(u32, String)>>)
    requires
        size > 0,
    ensures
        r.len() == batch_count(todo@.len(), size as nat),
        forall|k: int|
            0 <= k < r.len() ==> task_views((#[trigger] r@[k])@) == batch(
                task_views(todo@),
                size as nat,
                k,
            ),
{
    let ghost all = task_views(todo@);
    let n: usize = todo.len();
    let mut r: Vec<Vec<(u32, String)>> = Vec::new();
    let mut at: usize = 0;
    proof {
        let z = size as int;
        assert(0 * z == 0);
        assert((0 + z - 1) / z == 0) by (nonlinear_arith)
            requires
                z > 0,
        ;
    }
    while at < n
        invariant
            size > 0,
            n == todo.len(),
            all == task_views(todo@),
            at <= n,
            at == r.len() * size || at == n,
            at == n ==> r.len() == batch_count(n as nat, size as nat),
            at < n ==> at == r.len() * size,
            forall|k: int|
                0 <= k < r.len() ==> task_views((#[trigger] r@[k])@) == batch(all, size as nat, k),
        decreases n - at,
    {
        let end: usize = if size < n - at {
            at + size
        } else {
            n
        };
        let mut b: Vec<(u32, String)> = Vec::new();
        let mut j: usize = at;
        while j < end
            invariant
                at <= j <= end <= n,
                n == todo.len(),
                all == task_views(todo@),
                b.len() == j - at,
                forall|q: int|
                    0 <= q < b.len() ==> ((#[trigger] b@[q]).0, b@[q].1@) == all[at + q],
            decreases end - j,
        {
            b.push((todo[j].0, todo[j].1.clone()));
            j = j + 1;
        }
        proof {
            let k = r.len() as int;
            let z = size as int;
            assert((k + 1) * z == k * z + z) by (nonlinear_arith);
            assert(task_views(b@) =~= batch(all, size as nat, k));
            if end == n {
                assert((n + z - 1) / z == k + 1) by (nonlinear_arith)
                    requires
                        z > 0,
                        k * z < n,
                        n <= k * z + z,
                ;
            }
        }
        r.push(b);
        at = end;
    }
    r
}

/// The lines of a batch, as the model gets them.
pub fn payload(b: &Vec<(u32, String)>) -> (r: String)
    ensures
        r@ == join(Seq::new(b@.len(), |i: int| b@[i].1@), "\n"@),
{
    let mut lines: Vec<String> = Vec::new();
    let mut i: usize = 0;
    while i < b.len()
        invariant
            i <= b.len(),
            lines.len() == i,
            forall|j: int| 0 <= j < i ==> (#[trigger] lines@[j])@ == b@[j].1@,
        decreases b.len() - i,
    {
        lines.push(b[i].1.clone());
        i = i + 1;
    }
    assert(texts(lines@) =~= Seq::new(b@.len(), |i: int| b@[i].1@));
    join_strs(&lines, "\n")
}

/// How many senses each entry of a batch is sent with.
pub open spec fn batch_counts(b: Seq<(u32, Seq<char>)>) -> Map<u32, usize>
    decreases b.len(),
{
    if b.len() == 0 {
        Map::empty()
    } else {
        batch_counts(b.drop_last()).insert(
            b.last().0,
            strings_under(b.last().1, "src"@) as usize,
        )
    }
}

/// How many senses each entry of a batch is sent with: what the replies are held against.
pub fn sent_in_batch(b: &Vec<(u32, String)>) -> (r: IdMap<usize>)
    ensures
        r@ == batch_counts(task_views(b@)),
{
    broadcast use group_hash_axioms;

    let mut r: IdMap<usize> = IdMap::new();
    let ghost all = task_views(b@);
    let mut i: usize = 0;
    assert(all.take(0) =~= Seq::<(u32, Seq<char>)>::empty());
    assert(r@ =~= batch_counts(all.take(0)));
    while i < b.len()
        invariant
            i <= b.len(),
            all == task_views(b@),
            r@ == batch_counts(all.take(i as int)),
        decreases b.len() - i,
    {
        assert(all.take(i as int + 1).drop_last() =~= all.take(i as int));
        assert(all.take(i as int + 1).last() == (b@[i as int].0, b@[i as int].1@));
        let line = chars_of(b[i].1.as_str());
        r.insert(b[i].0, json_strings(&line, "src"));
        i = i + 1;
    }
    assert(all.take(i as int) =~= all);
    r
}

} // verus!
