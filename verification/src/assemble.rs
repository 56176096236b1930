//! Putting the store together: examples, records and the keys of all lanes.
use crate::cedict::{at_most, RawZh, RawZhView};
use crate::corpus::{all_spellings, Variants};
use crate::english::{RawEn, RawEnView};
use crate::lane::Lane;
use crate::lanekeys::LaneKeys;
use crate::letters::{lower, lower_str, lowercase};
use crate::model::EntryView;
use crate::text::{chars_of, string_of, texts};
use crate::writer::StoreWriter;
use vstd::hash_map::StringHashMap;
use vstd::prelude::*;
use vstd::slice::*;
use vstd::string::*;

verus! {

// ───────────────────────── keys ─────────────────────────

/// A key of a lane that leads to an entry.
pub type Posting = (Lane, Seq<char>, u32);

/// The ids that postings give a key of a lane. An empty key leads nowhere.
pub open spec fn posted(p: Seq<Posting>, lane: Lane, key: Seq<char>) -> Seq<u32>
    decreases p.len(),
{
    if p.len() == 0 {
        Seq::empty()
    } else {
        let a = posted(p.drop_last(), lane, key);
        let x = p.last();
        if x.0 == lane && x.1 == key && key.len() > 0 {
            a.push(x.2)
        } else {
            a
        }
    }
}

proof fn lemma_posted_add(a: Seq<Posting>, b: Seq<Posting>, lane: Lane, key: Seq<char>)
    ensures
        posted(a + b, lane, key) == posted(a, lane, key) + posted(b, lane, key),
    decreases b.len(),
{
    if b.len() == 0 {
        assert(a + b =~= a);
        assert(posted(a, lane, key) + Seq::<u32>::empty() =~= posted(a, lane, key));
    } else {
        lemma_posted_add(a, b.drop_last(), lane, key);
        assert((a + b).drop_last() =~= a + b.drop_last());
        assert((a + b).last() == b.last());
        let x = posted(a, lane, key);
        let y = posted(b.drop_last(), lane, key);
        assert(posted(a + b, lane, key) =~= x + posted(b, lane, key));
    }
}

/// The keys of all lanes.
pub struct IndexKeys {
    /// By the number of the lane.
    pub lanes: Vec<LaneKeys>,
}

impl IndexKeys {
    pub open spec fn wf(self) -> bool {
        &&& self.lanes@.len() == 7
        &&& forall|i: int| 0 <= i < 7 ==> (#[trigger] self.lanes@[i]).wf()
    }

    /// The ids noted for a key of a lane.
    pub open spec fn of(self, lane: Lane, key: Seq<char>) -> Seq<u32> {
        self.lanes@[lane.idx_spec() as int].of(key)
    }

    /// The keys hold what postings say.
    pub open spec fn holds(self, p: Seq<Posting>) -> bool {
        &&& self.wf()
        &&& forall|lane: Lane, key: Seq<char>| #[trigger]
            self.of(lane, key) == posted(p, lane, key)
    }

    pub fn new() -> (r: Self)
        ensures
            r.holds(Seq::empty()),
    {
        let mut lanes: Vec<LaneKeys> = Vec::new();
        let mut i: usize = 0;
        while i < 7
            invariant
                i <= 7,
                lanes.len() == i,
                forall|j: int| 0 <= j < i ==> (#[trigger] lanes@[j]).wf(),
                forall|j: int, k: Seq<char>|
                    0 <= j < i ==> #[trigger] lanes@[j].of(k) == Seq::<u32>::empty(),
            decreases 7 - i,
        {
            lanes.push(LaneKeys::new());
            i = i + 1;
        }
        IndexKeys { lanes }
    }

    /// Notes a key.
    fn note(&mut self, lane: Lane, key: &str, id: u32, Ghost(p): Ghost<Seq<Posting>>)
        requires
            old(self).holds(p),
        ensures
            final(self).holds(p.push((lane, key@, id))),
    {
        let ghost was = *self;
        let at: usize = lane.idx();
        let mut l = LaneKeys::new();
        std::mem::swap(&mut l, &mut self.lanes[at]);
        l.add(key, id);
        self.lanes.set(at, l);
        proof {
            let q = p.push((lane, key@, id));
            assert(q.drop_last() =~= p);
            assert forall|n: Lane, k: Seq<char>| #[trigger] self.of(n, k) == posted(q, n, k) by {
                assert(was.of(n, k) == posted(p, n, k));
                if n.idx_spec() == lane.idx_spec() {
                    assert(n == lane);
                }
            }
        }
    }

    /// Notes several keys for one entry.
    fn note_all(&mut self, lane: Lane, list: &Vec<String>, id: u32, Ghost(p): Ghost<Seq<Posting>>)
        requires
            old(self).holds(p),
        ensures
            final(self).holds(p + same_id(lane, texts(list@), id)),
    {
        let ghost q = same_id(lane, texts(list@), id);
        let mut i: usize = 0;
        assert(p + q.take(0) =~= p);
        while i < list.len()
            invariant
                i <= list.len(),
                q == same_id(lane, texts(list@), id),
                self.holds(p + q.take(i as int)),
            decreases list.len() - i,
        {
            self.note(lane, list[i].as_str(), id, Ghost(p + q.take(i as int)));
            assert((p + q.take(i as int)).push((lane, list@[i as int]@, id)) =~= p + q.take(
                i as int + 1,
            ));
            i = i + 1;
        }
        assert(q.take(i as int) =~= q);
    }

    /// Takes the keys of a lane out.
    pub fn take(&mut self, lane: Lane) -> (r: LaneKeys)
        requires
            old(self).wf(),
        ensures
            final(self).wf(),
            r.wf(),
            forall|k: Seq<char>| #[trigger] r.of(k) == old(self).of(lane, k),
            forall|n: Lane, k: Seq<char>|
                n != lane ==> #[trigger] final(self).of(n, k) == old(self).of(n, k),
    {
        let ghost was = *self;
        let at: usize = lane.idx();
        let mut l = LaneKeys::new();
        std::mem::swap(&mut l, &mut self.lanes[at]);
        proof {
            assert forall|n: Lane, k: Seq<char>| n != lane implies #[trigger] self.of(n, k)
                == was.of(n, k) by {
                assert(n.idx_spec() != lane.idx_spec());
            }
        }
        l
    }
}

/// Several keys of one lane for one entry.
pub open spec fn same_id(lane: Lane, keys: Seq<Seq<char>>, id: u32) -> Seq<Posting> {
    Seq::new(keys.len(), |i: int| (lane, keys[i], id))
}

/// Texts in lower case.
pub open spec fn each_lower(s: Seq<Seq<char>>) -> Seq<Seq<char>> {
    Seq::new(s.len(), |i: int| lowercase(s[i]))
}

/// The proper suffixes of a word, in lower case, the longest first. Looked up by prefix they
/// find what stands inside a word.
pub open spec fn suffixes(w: Seq<char>) -> Seq<Seq<char>> {
    Seq::new(
        if w.len() == 0 {
            0
        } else {
            (w.len() - 1) as nat
        },
        |i: int| lowercase(w.skip(i + 1)),
    )
}

/// The spellings of a Chinese headword: simplified, traditional where it differs, and up to
/// six with a variant character.
pub open spec fn zh_spellings(r: RawZhView, v: Variants) -> Seq<Seq<char>> {
    let e = r.entry;
    seq![lowercase(e.word)] + (if e.trad.len() > 0 {
        seq![lowercase(e.trad)]
    } else {
        Seq::empty()
    }) + each_lower(at_most(all_spellings(v, e.word), 6))
}

/// The keys of a Chinese headword.
pub open spec fn zh_postings(r: RawZhView, v: Variants, id: u32) -> Seq<Posting> {
    same_id(Lane::Zh, zh_spellings(r, v), id) + same_id(Lane::ZhSub, suffixes(r.entry.word), id)
        + same_id(Lane::Py, r.pinyin_keys, id) + same_id(Lane::Ini, seq![r.initials], id) + same_id(
        Lane::Gloss,
        r.gloss_tokens,
        id,
    )
}

/// The keys of an English headword: its spelling, which also leads to its base form where that
/// is another entry, and the words of its Chinese glosses.
pub open spec fn en_postings(r: RawEnView, id: u32, base: Option<u32>) -> Seq<Posting> {
    let w = lowercase(r.entry.word);
    seq![(Lane::Enw, w, id)] + (match base {
        Some(b) => if b != id {
            seq![(Lane::Enw, w, b)]
        } else {
            Seq::empty()
        },
        None => Seq::empty(),
    }) + same_id(Lane::Trans, r.trans_tokens, id)
}

fn lower_all(s: &Vec<String>) -> (r: Vec<String>)
    ensures
        texts(r@) == each_lower(texts(s@)),
{
    let mut r: Vec<String> = Vec::new();
    let mut i: usize = 0;
    while i < s.len()
        invariant
            i <= s.len(),
            r.len() == i,
            forall|j: int| 0 <= j < i ==> (#[trigger] r@[j])@ == lowercase(s@[j]@),
        decreases s.len() - i,
    {
        r.push(lower_str(s[i].as_str()));
        i = i + 1;
    }
    assert(texts(r@) =~= each_lower(texts(s@)));
    r
}

fn list_spellings(r: &RawZh, v: &Variants) -> (s: Vec<String>)
    requires
        v.wf(),
    ensures
        texts(s@) == zh_spellings(r@, *v),
{
    let mut s: Vec<String> = Vec::new();
    s.push(lower_str(r.entry.word.as_str()));
    if r.entry.trad.as_str().unicode_len() > 0 {
        s.push(lower_str(r.entry.trad.as_str()));
    }
    let mut more = lower_all(&v.spellings(r.entry.word.as_str(), 6));
    let ghost a = texts(s@);
    let ghost b = texts(more@);
    s.append(&mut more);
    assert(texts(s@) =~= a + b);
    assert(a =~= seq![lowercase(r@.entry.word)] + (if r@.entry.trad.len() > 0 {
        seq![lowercase(r@.entry.trad)]
    } else {
        Seq::empty()
    }));
    s
}

fn list_suffixes(w: &str) -> (r: Vec<String>)
    ensures
        texts(r@) == suffixes(w@),
{
    let c = chars_of(w);
    let mut r: Vec<String> = Vec::new();
    let mut i: usize = 1;
    while i < c.len()
        invariant
            c@ == w@,
            1 <= i,
            i <= c.len() || c.len() == 0,
            c.len() == 0 ==> i == 1,
            r.len() == i - 1,
            forall|j: int| 0 <= j < i - 1 ==> (#[trigger] r@[j])@ == lowercase(w@.skip(j + 1)),
        decreases c.len() - i,
    {
        let t = slice_subrange(&c, i, c.len());
        assert(t@ =~= w@.skip(i as int));
        let l = lower(t);
        r.push(string_of(&l));
        i = i + 1;
    }
    assert(texts(r@) =~= suffixes(w@));
    r
}

/// Notes the keys of a Chinese headword.
fn index_zh(keys: &mut IndexKeys, r: &RawZh, v: &Variants, id: u32, Ghost(p): Ghost<
    Seq<Posting>,
>)
    requires
        old(keys).holds(p),
        v.wf(),
    ensures
        final(keys).holds(p + zh_postings(r@, *v, id)),
{
    let s = list_spellings(r, v);
    keys.note_all(Lane::Zh, &s, id, Ghost(p));
    let ghost p1 = p + same_id(Lane::Zh, texts(s@), id);
    let t = list_suffixes(r.entry.word.as_str());
    keys.note_all(Lane::ZhSub, &t, id, Ghost(p1));
    let ghost p2 = p1 + same_id(Lane::ZhSub, texts(t@), id);
    keys.note_all(Lane::Py, &r.pinyin_keys, id, Ghost(p2));
    let ghost p3 = p2 + same_id(Lane::Py, texts(r.pinyin_keys@), id);
    keys.note(Lane::Ini, r.initials.as_str(), id, Ghost(p3));
    let ghost p4 = p3.push((Lane::Ini, r.initials@, id));
    keys.note_all(Lane::Gloss, &r.gloss_tokens, id, Ghost(p4));
    proof {
        assert(p4 + same_id(Lane::Gloss, texts(r.gloss_tokens@), id) =~= p + zh_postings(
            r@,
            *v,
            id,
        ));
    }
}

/// Notes the keys of an English headword.
fn index_en(keys: &mut IndexKeys, r: &RawEn, id: u32, base: Option<u32>, Ghost(p): Ghost<
    Seq<Posting>,
>)
    requires
        old(keys).holds(p),
    ensures
        final(keys).holds(p + en_postings(r@, id, base)),
{
    let w = lower_str(r.entry.word.as_str());
    keys.note(Lane::Enw, w.as_str(), id, Ghost(p));
    let ghost p1 = p.push((Lane::Enw, w@, id));
    let ghost mut p2 = p1;
    match base {
        Some(b) => {
            if b != id {
                keys.note(Lane::Enw, w.as_str(), b, Ghost(p1));
                proof {
                    p2 = p1.push((Lane::Enw, w@, b));
                }
            }
        },
        None => {},
    }
    keys.note_all(Lane::Trans, &r.trans_tokens, id, Ghost(p2));
    proof {
        assert(p2 + same_id(Lane::Trans, texts(r.trans_tokens@), id) =~= p + en_postings(
            r@,
            id,
            base,
        ));
    }
}

// ───────────────────────── records and keys ─────────────────────────

pub open spec fn zh_views(v: Seq<RawZh>) -> Seq<RawZhView> {
    Seq::new(v.len(), |i: int| v[i]@)
}

pub open spec fn en_views(v: Seq<RawEn>) -> Seq<RawEnView> {
    Seq::new(v.len(), |i: int| v[i]@)
}

/// The entries in the order of their ids: the Chinese ones, then the English ones.
pub open spec fn all_entries(zh: Seq<RawZhView>, en: Seq<RawEnView>) -> Seq<EntryView> {
    zh_entries(zh) + en_entries(en)
}

pub open spec fn zh_entries(zh: Seq<RawZhView>) -> Seq<EntryView> {
    Seq::new(zh.len(), |i: int| zh[i].entry)
}

pub open spec fn en_entries(en: Seq<RawEnView>) -> Seq<EntryView> {
    Seq::new(en.len(), |i: int| en[i].entry)
}

/// The id of the English headword spelt so, the last of several; ids begin at `first`.
pub open spec fn en_id(en: Seq<RawEnView>, first: nat, w: Seq<char>) -> Option<u32>
    decreases en.len(),
{
    if en.len() == 0 {
        None
    } else if lowercase(en.last().entry.word) == w {
        Some((first + en.len() - 1) as u32)
    } else {
        en_id(en.drop_last(), first, w)
    }
}

/// The id of the base form of a headword.
pub open spec fn base_id(en: Seq<RawEnView>, first: nat, r: RawEnView) -> Option<u32> {
    match r.lemma {
        Some(l) => en_id(en, first, l),
        None => None,
    }
}

/// The keys of the first `n` Chinese headwords.
pub open spec fn zh_postings_upto(zh: Seq<RawZhView>, v: Variants, n: nat) -> Seq<Posting>
    decreases n,
{
    if n == 0 {
        Seq::empty()
    } else {
        zh_postings_upto(zh, v, (n - 1) as nat) + zh_postings(zh[n - 1], v, (n - 1) as u32)
    }
}

/// The keys of the first `n` English headwords, whose ids begin at `first`.
pub open spec fn en_postings_upto(en: Seq<RawEnView>, first: nat, n: nat) -> Seq<Posting>
    decreases n,
{
    if n == 0 {
        Seq::empty()
    } else {
        en_postings_upto(en, first, (n - 1) as nat) + en_postings(
            en[n - 1],
            (first + n - 1) as u32,
            base_id(en, first, en[n - 1]),
        )
    }
}

/// The keys of all headwords.
pub open spec fn all_postings(zh: Seq<RawZhView>, en: Seq<RawEnView>, v: Variants) -> Seq<
    Posting,
> {
    zh_postings_upto(zh, v, zh.len()) + en_postings_upto(en, zh.len(), en.len())
}

fn en_ids(en: &Vec<RawEn>, first: u32) -> (r: StringHashMap<u32>)
    requires
        first + en@.len() <= u32::MAX,
    ensures
        forall|w: Seq<char>| #[trigger]
            r@.contains_key(w) <==> en_id(en_views(en@), first as nat, w) is Some,
        forall|w: Seq<char>| #[trigger]
            r@.contains_key(w) ==> en_id(en_views(en@), first as nat, w) == Some(r@[w]),
{
    let mut r: StringHashMap<u32> = StringHashMap::new();
    let ghost all = en_views(en@);
    let mut i: usize = 0;
    assert(all.take(0) =~= Seq::<RawEnView>::empty());
    while i < en.len()
        invariant
            i <= en.len(),
            first + en@.len() <= u32::MAX,
            all == en_views(en@),
            forall|w: Seq<char>| #[trigger]
                r@.contains_key(w) <==> en_id(all.take(i as int), first as nat, w) is Some,
            forall|w: Seq<char>| #[trigger]
                r@.contains_key(w) ==> en_id(all.take(i as int), first as nat, w) == Some(r@[w]),
        decreases en.len() - i,
    {
        proof {
            let t = all.take(i as int + 1);
            assert(t.drop_last() =~= all.take(i as int));
            assert(t.last() == en@[i as int]@);
        }
        r.insert(lower_str(en[i].entry.word.as_str()), first + i as u32);
        i = i + 1;
    }
    assert(all.take(i as int) =~= all);
    r
}

/// Writes the Chinese headwords.
fn assemble_zh(w: &mut StoreWriter, keys: &mut IndexKeys, zh: &Vec<RawZh>, v: &Variants)
    requires
        v.wf(),
        zh@.len() <= u32::MAX,
        old(w).wf(),
        old(w).pushed() == Seq::<EntryView>::empty(),
        old(keys).holds(Seq::empty()),
    ensures
        final(w).wf(),
        final(w).pushed() == zh_entries(zh_views(zh@)),
        final(keys).holds(zh_postings_upto(zh_views(zh@), *v, zh@.len())),
{
    let ghost zv = zh_views(zh@);
    let ghost all = zh_entries(zv);
    let mut i: usize = 0;
    assert(w.pushed() =~= all.take(0));
    while i < zh.len()
        invariant
            v.wf(),
            i <= zh.len(),
            zh@.len() <= u32::MAX,
            zv == zh_views(zh@),
            all == zh_entries(zv),
            w.wf(),
            w.pushed() == all.take(i as int),
            keys.holds(zh_postings_upto(zv, *v, i as nat)),
        decreases zh.len() - i,
    {
        let _ = w.push(&zh[i].entry);
        assert(all[i as int] == zh@[i as int].entry@);
        assert(all.take(i as int + 1) =~= all.take(i as int).push(all[i as int]));
        index_zh(keys, &zh[i], v, i as u32, Ghost(zh_postings_upto(zv, *v, i as nat)));
        i = i + 1;
    }
    assert(all.take(i as int) =~= all);
}

/// The id of the base form of a word, where it has one among the headwords.
fn base_of(
    ids: &StringHashMap<u32>,
    e: &RawEn,
    Ghost(ev): Ghost<Seq<RawEnView>>,
    Ghost(first): Ghost<nat>,
) -> (r: Option<u32>)
    requires
        forall|w: Seq<char>| #[trigger] ids@.contains_key(w) <==> en_id(ev, first, w) is Some,
        forall|w: Seq<char>| #[trigger]
            ids@.contains_key(w) ==> en_id(ev, first, w) == Some(ids@[w]),
    ensures
        r == base_id(ev, first, e@),
{
    match &e.lemma {
        Some(l) => match ids.get(l.as_str()) {
            Some(b) => Some(*b),
            None => None,
        },
        None => None,
    }
}

/// The keys of one English headword more.
proof fn lemma_en_step(p: Seq<Posting>, ev: Seq<RawEnView>, first: nat, k: nat)
    requires
        k < ev.len(),
    ensures
        p + en_postings_upto(ev, first, k) + en_postings(
            ev[k as int],
            (first + k) as u32,
            base_id(ev, first, ev[k as int]),
        ) == p + en_postings_upto(ev, first, k + 1),
{
    let one = en_postings(ev[k as int], (first + k) as u32, base_id(ev, first, ev[k as int]));
    assert(p + en_postings_upto(ev, first, k) + one =~= p + (en_postings_upto(ev, first, k) + one));
}

/// Writes the English headwords after what is there.
#[verifier::rlimit(30)]
fn assemble_en(w: &mut StoreWriter, keys: &mut IndexKeys, en: &Vec<RawEn>, first: u32, Ghost(
    p,
): Ghost<Seq<Posting>>)
    requires
        first + en@.len() <= u32::MAX,
        old(w).wf(),
        old(keys).holds(p),
    ensures
        final(w).wf(),
        final(w).pushed() == old(w).pushed() + en_entries(en_views(en@)),
        final(keys).holds(p + en_postings_upto(en_views(en@), first as nat, en@.len())),
{
    let ids = en_ids(en, first);
    let ghost ev = en_views(en@);
    let ghost all = en_entries(ev);
    let ghost before = w.pushed();
    let mut k: usize = 0;
    assert(p + en_postings_upto(ev, first as nat, 0) =~= p);
    assert(before + all.take(0) =~= before);
    while k < en.len()
        invariant
            k <= en.len(),
            first + en@.len() <= u32::MAX,
            ev == en_views(en@),
            all == en_entries(ev),
            forall|w: Seq<char>| #[trigger]
                ids@.contains_key(w) <==> en_id(ev, first as nat, w) is Some,
            forall|w: Seq<char>| #[trigger]
                ids@.contains_key(w) ==> en_id(ev, first as nat, w) == Some(ids@[w]),
            w.wf(),
            w.pushed() == before + all.take(k as int),
            keys.holds(p + en_postings_upto(ev, first as nat, k as nat)),
        decreases en.len() - k,
    {
        let _ = w.push(&en[k].entry);
        assert(all[k as int] == en@[k as int].entry@);
        assert(before + all.take(k as int + 1) =~= (before + all.take(k as int)).push(
            all[k as int],
        ));
        let base: Option<u32> = base_of(&ids, &en[k], Ghost(ev), Ghost(first as nat));
        let ghost q = p + en_postings_upto(ev, first as nat, k as nat);
        index_en(keys, &en[k], first + k as u32, base, Ghost(q));
        proof {
            lemma_en_step(p, ev, first as nat, k as nat);
        }
        k = k + 1;
    }
    assert(all.take(k as int) =~= all);
}

/// Writes the records of all headwords and collects their keys. Ids are given in order.
pub fn assemble(zh: &Vec<RawZh>, en: &Vec<RawEn>, v: &Variants) -> (r: (StoreWriter, IndexKeys))
    requires
        v.wf(),
        zh@.len() + en@.len() <= u32::MAX,
    ensures
        r.0.wf(),
        r.0.pushed() == all_entries(zh_views(zh@), en_views(en@)),
        r.1.holds(all_postings(zh_views(zh@), en_views(en@), *v)),
{
    let mut w = StoreWriter::create();
    let mut keys = IndexKeys::new();
    assemble_zh(&mut w, &mut keys, zh, v);
    assemble_en(
        &mut w,
        &mut keys,
        en,
        zh.len() as u32,
        Ghost(zh_postings_upto(zh_views(zh@), *v, zh@.len())),
    );
    (w, keys)
}

} // verus!
