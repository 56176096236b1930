//! Writing a store whole, and what a store so written answers.
use crate::assemble::{
    all_postings, base_id, en_id, en_postings, en_postings_upto, posted, zh_postings,
    zh_postings_upto, IndexKeys, Posting,
};
use crate::bytes::le32;
use crate::cedict::RawZhView;
use crate::corpus::Variants;
use crate::english::RawEnView;
use crate::fstmap::{fst_image, fst_opens};
use crate::lane::{Lane, LANES};
use crate::letters::lowercase;
use crate::page::{entry_page, page_shows, refs_comparable, EntryPage};
use crate::panel::{at_word, Panel};
use crate::search::{folded, gathered, Gathered};
use crate::single::Single;
use crate::sorted::{is_sorted_set, number_order};
use crate::store::{
    bad_image, best_id, best_in, comparable, declared, entry_result, files_index, find_posting,
    ids_spec, image_at, index_readable, looked_up, open_fault, opened, opens, word_comparable, IndexFiles, IndexView,
    Store, StoreError, StoreFiles, StoreView,
};
use crate::text::trimmed;
use crate::writer::{
    index_entries, index_written, key_follows, keyed, keys_ascend, law_index_reads_back,
    law_records_read_back, law_written_indexes_are_readable, law_written_records_are_readable,
    meta_bytes, post_bytes, words64, IndexImage, StoreImage, StoreWriter,
};
use vstd::prelude::*;
use vstd::string::*;

verus! {

/// The keys of an index with their ids.
pub type KeyList = Seq<(Seq<char>, Seq<u32>)>;

/// What lists of keys hold, lane by lane.
pub open spec fn lists_of(v: Seq<Vec<(String, Vec<u32>)>>) -> Seq<KeyList> {
    Seq::new(v.len(), |i: int| keyed(v[i]@))
}

// ───────────────────────── the keys ─────────────────────────

/// A list of keys holds what was noted for a lane: the keys ascend, and each has the ids noted
/// for it, sorted and once each.
pub open spec fn lists_lane(k: KeyList, keys: IndexKeys, lane: Lane) -> bool {
    &&& keys_ascend(k)
    &&& forall|i: int|
        0 <= i < k.len() ==> is_sorted_set(
            number_order(),
            (#[trigger] k[i]).1,
            keys.of(lane, k[i].0),
        ) && keys.of(lane, k[i].0).len() > 0
    &&& forall|key: Seq<char>|
        (#[trigger] keys.of(lane, key)).len() > 0 ==> exists|i: int|
            0 <= i < k.len() && (#[trigger] k[i]).0 == key
}

/// The keys of every lane, by the lane's number, as indexes are written.
pub fn finish_keys(keys: IndexKeys) -> (r: Vec<Vec<(String, Vec<u32>)>>)
    requires
        keys.wf(),
    ensures
        r@.len() == 7,
        forall|lane: Lane|
            lists_lane(#[trigger] lists_of(r@)[lane.idx_spec() as int], keys, lane),
{
    let ghost was = keys;
    let mut rest = keys;
    let mut r: Vec<Vec<(String, Vec<u32>)>> = Vec::new();
    let mut i: usize = 0;
    while i < 7
        invariant
            i <= 7,
            r.len() == i,
            rest.wf(),
            forall|lane: Lane, k: Seq<char>|
                lane.idx_spec() >= i ==> #[trigger] rest.of(lane, k) == was.of(lane, k),
            forall|lane: Lane|
                lane.idx_spec() < i ==> lists_lane(
                    #[trigger] lists_of(r@)[lane.idx_spec() as int],
                    was,
                    lane,
                ),
        decreases 7 - i,
    {
        let lane = LANES[i];
        let l = rest.take(lane);
        assert(forall|k: Seq<char>| #[trigger] l.of(k) == was.of(lane, k));
        let ghost noted = l;
        let list = l.finish();
        let ghost before = r@;
        proof {
            let k = keyed(list@);
            assert forall|key: Seq<char>| (#[trigger] was.of(lane, key)).len() > 0 implies exists|
                i: int,
            |
                0 <= i < k.len() && (#[trigger] k[i]).0 == key by {
                assert(noted.of(key).len() > 0);
                let j = choose|j: int| 0 <= j < list@.len() && (#[trigger] list@[j]).0@ == key;
                assert(k[j].0 == key);
            }
            assert forall|i: int| 0 <= i < k.len() implies is_sorted_set(
                number_order(),
                (#[trigger] k[i]).1,
                was.of(lane, k[i].0),
            ) && was.of(lane, k[i].0).len() > 0 by {
                assert(is_sorted_set(number_order(), list@[i].1@, noted.of(list@[i].0@)));
            }
            assert(lists_lane(k, was, lane));
        }
        r.push(list);
        proof {
            assert forall|n: Lane| n.idx_spec() < i + 1 implies lists_lane(
                #[trigger] lists_of(r@)[n.idx_spec() as int],
                was,
                n,
            ) by {
                if n.idx_spec() < i {
                    assert(lists_of(r@)[n.idx_spec() as int] == lists_of(
                        before,
                    )[n.idx_spec() as int]);
                } else {
                    assert(n == lane);
                }
            }
        }
        i = i + 1;
    }
    r
}

// ───────────────────────── the files ─────────────────────────

/// All files of a store but the rewritten senses, as they were written together.
pub struct Built {
    store: StoreImage,
    /// The index of each lane, by the lane's number.
    lanes: Vec<IndexImage>,
    /// The table of short prefixes of each lane, where it has one.
    tops: Vec<Option<IndexImage>>,
}

/// The place of the first key from `i` on that is out of order.
pub open spec fn order_fault(k: KeyList, i: int) -> Option<usize>
    decreases k.len() - i,
{
    if i < 0 || i >= k.len() {
        None
    } else if !key_follows(k, i) {
        Some(i as usize)
    } else {
        order_fault(k, i + 1)
    }
}

/// The first key that is out of order from lane `i` on: of the lane, then of its table.
pub open spec fn write_fault(lanes: Seq<KeyList>, tops: Seq<KeyList>, i: int) -> Option<usize>
    decreases 7 - i,
{
    if i < 0 || i >= 7 {
        None
    } else {
        match order_fault(lanes[i], 0) {
            Some(at) => Some(at),
            None => match order_fault(tops[i], 0) {
                Some(at) => Some(at),
                None => write_fault(lanes, tops, i + 1),
            },
        }
    }
}

proof fn lemma_order_fault(k: KeyList, i: int, at: int)
    requires
        0 <= i <= at <= k.len(),
        k.len() <= usize::MAX,
        forall|j: int| i <= j < at ==> #[trigger] key_follows(k, j),
    ensures
        at < k.len() && !key_follows(k, at) ==> order_fault(k, i) == Some(at as usize),
        at == k.len() ==> order_fault(k, i) is None,
    decreases at - i,
{
    if i < at {
        assert(key_follows(k, i));
        lemma_order_fault(k, i + 1, at);
    }
}

proof fn lemma_written(r: Result<IndexImage, StoreError>, stem: Seq<char>, k: KeyList)
    requires
        index_written(r, stem, k),
        k.len() <= usize::MAX,
    ensures
        match r {
            Ok(x) => order_fault(k, 0) is None && index_holds((x.fst@, x.post@), k),
            Err(e) => order_fault(k, 0) matches Some(at) && e == (StoreError::KeyOrder { at }),
        },
{
    match r {
        Ok(x) => {
            assert(forall|j: int| 0 <= j < k.len() ==> #[trigger] key_follows(k, j));
            lemma_order_fault(k, 0, k.len() as int);
        },
        Err(e) => {
            let at = choose|at: usize|
                0 <= at < k.len() && !key_follows(k, at as int) && (forall|j: int|
                    0 <= j < at ==> #[trigger] key_follows(k, j)) && e == (StoreError::KeyOrder {
                    at,
                });
            lemma_order_fault(k, 0, at as int);
        },
    }
}

/// The images of an index that was written for a list of keys.
pub open spec fn index_holds(x: IndexView, k: KeyList) -> bool {
    &&& keys_ascend(k)
    &&& fst_image(x.0) == Some(index_entries(k))
    &&& fst_opens(x.0)
    &&& x.1 == post_bytes(k)
}

pub open spec fn image_view(x: IndexImage) -> IndexView {
    (x.fst@, x.post@)
}

/// What was written of a table: nothing where no prefix needs one.
pub open spec fn top_holds(x: Option<IndexView>, k: KeyList) -> bool {
    match x {
        Some(v) => k.len() > 0 && index_holds(v, k),
        None => k.len() == 0,
    }
}

impl Built {
    /// The files of the records.
    pub closed spec fn records(self) -> StoreImage {
        self.store
    }

    /// The index of each lane.
    pub closed spec fn indexes(self) -> Seq<IndexImage> {
        self.lanes@
    }

    /// The table of short prefixes of each lane.
    pub closed spec fn tables(self) -> Seq<Option<IndexImage>> {
        self.tops@
    }

    /// Every value of this type was written whole, from some writer and some lists.
    #[verifier::type_invariant]
    closed spec fn written(self) -> bool {
        exists|w: StoreWriter, lanes: Seq<KeyList>, tops: Seq<KeyList>| #[trigger]
            self.holds(w, lanes, tops) && w.wf()
    }

    pub fn store(&self) -> (r: &StoreImage)
        ensures
            *r == self.records(),
    {
        &self.store
    }

    pub fn lanes(&self) -> (r: &Vec<IndexImage>)
        ensures
            r@ == self.indexes(),
    {
        &self.lanes
    }

    pub fn tops(&self) -> (r: &Vec<Option<IndexImage>>)
        ensures
            r@ == self.tables(),
    {
        &self.tops
    }

    /// The files hold the entries of a writer, the keys of the lanes and the tables.
    pub open spec fn holds(
        self,
        w: StoreWriter,
        lanes: Seq<KeyList>,
        tops: Seq<KeyList>,
    ) -> bool {
        &&& self.records().entries@ == w.entries@
        &&& self.records().idx@ == words64(w.offsets@)
        &&& self.records().meta@ == meta_bytes(w.pct@, w.kind@)
        &&& self.indexes().len() == 7
        &&& self.tables().len() == 7
        &&& forall|i: int| 0 <= i < 7 ==> index_holds(image_view(#[trigger] self.indexes()[i]), lanes[i])
        &&& forall|i: int|
            0 <= i < 7 ==> self.indexes()[i].stem@ == (#[trigger] LANES@[i]).file_stem_spec()
        &&& forall|i: int|
            0 <= i < 7 ==> top_holds(
                match #[trigger] self.tables()[i] {
                    Some(x) => Some(image_view(x)),
                    None => None,
                },
                tops[i],
            )
        &&& forall|i: int|
            0 <= i < 7 ==> (#[trigger] self.tables()[i] matches Some(x) ==> x.stem@
                == LANES@[i].file_stem_spec() + "top"@)
    }
}

/// Writes the records, the index of every lane and the tables of short prefixes, for lists of
/// keys by lane. A lane without prefixes that need one gets no table.
pub fn write_all(
    w: StoreWriter,
    lanes: &Vec<Vec<(String, Vec<u32>)>>,
    tops: &Vec<Vec<(String, Vec<u32>)>>,
) -> (r: Result<Built, StoreError>)
    requires
        w.wf(),
        lanes.len() == 7,
        tops.len() == 7,
    ensures
        match r {
            Ok(b) => write_fault(lists_of(lanes@), lists_of(tops@), 0) is None && b.holds(
                w,
                lists_of(lanes@),
                lists_of(tops@),
            ),
            Err(e) => write_fault(lists_of(lanes@), lists_of(tops@), 0) matches Some(at) && e == (
            StoreError::KeyOrder { at }),
        },
{
    let ghost lv = lists_of(lanes@);
    let ghost tv = lists_of(tops@);
    let mut out: Vec<IndexImage> = Vec::new();
    let mut tables: Vec<Option<IndexImage>> = Vec::new();
    let mut i: usize = 0;
    while i < 7
        invariant
            i <= 7,
            lanes.len() == 7,
            tops.len() == 7,
            lv == lists_of(lanes@),
            tv == lists_of(tops@),
            out.len() == i,
            tables.len() == i,
            write_fault(lv, tv, 0) == write_fault(lv, tv, i as int),
            forall|j: int|
                0 <= j < i ==> index_holds(image_view(#[trigger] out@[j]), lv[j]) && out@[j].stem@
                    == LANES@[j].file_stem_spec(),
            forall|j: int|
                0 <= j < i ==> top_holds(
                    match #[trigger] tables@[j] {
                        Some(x) => Some(image_view(x)),
                        None => None,
                    },
                    tv[j],
                ),
            forall|j: int|
                0 <= j < i ==> (#[trigger] tables@[j] matches Some(x) ==> x.stem@
                    == LANES@[j].file_stem_spec() + "top"@),
        decreases 7 - i,
    {
        let lane = LANES[i];
        let a = w.write_lane(lane, &lanes[i]);
        let count: usize = lanes[i].len();
        proof {
            assert(lv[i as int].len() == count);
            lemma_written(a, lane.file_stem_spec(), lv[i as int]);
        }
        let image = match a {
            Ok(x) => x,
            Err(e) => {
                return Err(e);
            },
        };
        let mut table: Option<IndexImage> = None;
        if tops[i].len() > 0 {
            let b = w.write_top_lane(lane, &tops[i]);
            proof {
                lemma_written(b, lane.file_stem_spec() + "top"@, tv[i as int]);
            }
            match b {
                Ok(x) => {
                    table = Some(x);
                },
                Err(e) => {
                    return Err(e);
                },
            }
        }
        out.push(image);
        tables.push(table);
        i = i + 1;
    }
    let ghost writer = w;
    let store = w.finish();
    proof {
        let b = Built { store, lanes: out, tops: tables };
        assert(b.holds(writer, lv, tv));
    }
    Ok(Built { store, lanes: out, tops: tables })
}

/// Files that hold what a writer, lists of keys and tables give.
pub open spec fn files_hold(
    f: StoreFiles,
    w: StoreWriter,
    lanes: Seq<KeyList>,
    tops: Seq<KeyList>,
) -> bool {
    &&& f.entries@ == w.entries@
    &&& f.idx@ == words64(w.offsets@)
    &&& f.meta@ == meta_bytes(w.pct@, w.kind@)
    &&& f.lanes@.len() == 7
    &&& f.tops@.len() == 7
    &&& forall|i: int|
        0 <= i < 7 ==> (files_index(#[trigger] f.lanes@[i]) matches Some(x) && index_holds(
            x,
            lanes[i],
        ))
    &&& forall|i: int| 0 <= i < 7 ==> top_holds(files_index(#[trigger] f.tops@[i]), tops[i])
}

impl Built {
    /// The files as a store opens them, without rewritten senses.
    pub fn files(&self) -> (f: StoreFiles<'_>)
        ensures
            forall|w: StoreWriter, lanes: Seq<KeyList>, tops: Seq<KeyList>| #[trigger]
                self.holds(w, lanes, tops) ==> files_hold(f, w, lanes, tops),
            opened(f, true) == self.store_view(),
            f.lanes@.len() == 7,
            f.tops@.len() == 7,
            f.overlay_bin is None,
            f.overlay_idx is None,
    {
        proof {
            use_type_invariant(self);
        }
        let mut lanes: Vec<IndexFiles> = Vec::new();
        let mut i: usize = 0;
        while i < self.lanes.len()
            invariant
                i <= self.lanes.len(),
                lanes.len() == i,
                forall|j: int|
                    0 <= j < i ==> files_index(#[trigger] lanes@[j]) == Some(
                        image_view(self.lanes@[j]),
                    ),
            decreases self.lanes.len() - i,
        {
            let x = IndexFiles {
                fst: Some(self.lanes[i].fst.as_slice()),
                post: Some(self.lanes[i].post.as_slice()),
            };
            lanes.push(x);
            i = i + 1;
        }
        let mut tops: Vec<IndexFiles> = Vec::new();
        let mut k: usize = 0;
        while k < self.tops.len()
            invariant
                k <= self.tops.len(),
                tops.len() == k,
                forall|j: int|
                    0 <= j < k ==> files_index(#[trigger] tops@[j]) == match self.tops@[j] {
                        Some(x) => Some(image_view(x)),
                        None => None,
                    },
            decreases self.tops.len() - k,
        {
            let x = match &self.tops[k] {
                Some(t) => IndexFiles {
                    fst: Some(t.fst.as_slice()),
                    post: Some(t.post.as_slice()),
                },
                None => IndexFiles { fst: None, post: None },
            };
            tops.push(x);
            k = k + 1;
        }
        let f = StoreFiles {
            meta: self.store.meta.as_slice(),
            entries: self.store.entries.as_slice(),
            idx: self.store.idx.as_slice(),
            lanes,
            tops,
            overlay_bin: None,
            overlay_idx: None,
        };
        proof {
            assert(opened(f, true) =~= self.store_view());
            assert forall|w: StoreWriter, l: Seq<KeyList>, t: Seq<KeyList>| #[trigger]
                self.holds(w, l, t) implies files_hold(f, w, l, t) by {
                assert forall|i: int| 0 <= i < 7 implies (files_index(
                    #[trigger] f.lanes@[i],
                ) matches Some(x) && index_holds(x, l[i])) by {
                    assert(index_holds(image_view(self.lanes@[i]), l[i]));
                }
                assert forall|i: int| 0 <= i < 7 implies top_holds(
                    files_index(#[trigger] f.tops@[i]),
                    t[i],
                ) by {
                    assert(top_holds(
                        match self.tops@[i] {
                            Some(x) => Some(image_view(x)),
                            None => None,
                        },
                        t[i],
                    ));
                }
            }
        }
        f
    }
}

// ───────────────────────── what a written store answers ─────────────────────────

/// Lists that an index can hold: none has more ids than its length field counts, and all of
/// them together can be addressed.
pub open spec fn fits(k: KeyList) -> bool {
    &&& post_bytes(k).len() <= u64::MAX
    &&& forall|i: int| 0 <= i < k.len() ==> (#[trigger] k[i]).1.len() <= u32::MAX
}

/// A key gives its ids, and any other key nothing.
pub open spec fn answers(x: Option<IndexView>, k: KeyList) -> bool {
    &&& forall|i: int|
        0 <= i < k.len() ==> (find_posting(x, (#[trigger] k[i]).0) matches Some(raw) && ids_spec(
            raw,
        ) == k[i].1)
    &&& forall|key: Seq<char>|
        (forall|i: int| 0 <= i < k.len() ==> (#[trigger] k[i]).0 != key) ==> (
        #[trigger] find_posting(x, key)) is None
}

proof fn lemma_no_bad_image(f: StoreFiles, k: int)
    requires
        0 <= k <= 14,
        forall|j: int| 0 <= j < 14 ==> opens(#[trigger] image_at(f, j)),
    ensures
        bad_image(f, k) is None,
    decreases 14 - k,
{
    if k < 14 {
        assert(opens(image_at(f, k)));
        lemma_no_bad_image(f, k + 1);
    }
}

/// A store that was written whole opens and can be read throughout, however much it holds.
pub proof fn law_written_stores_are_readable(
    f: StoreFiles,
    w: StoreWriter,
    lanes: Seq<KeyList>,
    tops: Seq<KeyList>,
)
    requires
        w.wf(),
        files_hold(f, w, lanes, tops),
        forall|i: int|
            0 <= i < 7 ==> post_bytes(#[trigger] lanes[i]).len() <= u64::MAX && post_bytes(
                tops[i],
            ).len() <= u64::MAX,
    ensures
        open_fault(f) is None,
        opened(f, true).readable(),
{
    let v = opened(f, true);
    law_written_records_are_readable(w, f, true);
    assert forall|i: int| 0 <= i < 7 implies (#[trigger] v.lanes[i] matches Some(x)
        && index_readable(x) && fst_opens(x.0)) by {
        let x = files_index(f.lanes@[i])->0;
        assert(index_holds(x, lanes[i]));
        law_written_indexes_are_readable(lanes[i], x);
    }
    assert forall|i: int| 0 <= i < 7 implies (#[trigger] v.tops[i] matches Some(x)
        ==> index_readable(x) && fst_opens(x.0)) by {
        assert(top_holds(files_index(f.tops@[i]), tops[i]));
        assert(post_bytes(lanes[i]).len() <= u64::MAX);
        if let Some(x) = files_index(f.tops@[i]) {
            law_written_indexes_are_readable(tops[i], x);
        }
    }
    assert forall|j: int| 0 <= j < 14 implies opens(#[trigger] image_at(f, j)) by {
        if j % 2 == 0 {
            assert(v.lanes[j / 2] == files_index(f.lanes@[j / 2]));
        } else {
            assert(v.tops[j / 2] == files_index(f.tops@[j / 2]));
        }
    }
    lemma_no_bad_image(f, 0);
}

/// A store that was written whole opens, can be read throughout, gives back its entries, and
/// answers every key of every lane and table with the ids written for it.
pub proof fn law_a_written_store_reads_back(
    f: StoreFiles,
    w: StoreWriter,
    lanes: Seq<KeyList>,
    tops: Seq<KeyList>,
    with_overlay: bool,
)
    requires
        w.wf(),
        w.pushed().len() <= u32::MAX,
        files_hold(f, w, lanes, tops),
        forall|i: int| 0 <= i < 7 ==> fits(#[trigger] lanes[i]) && fits(tops[i]),
    ensures
        open_fault(f) is None,
        opened(f, with_overlay).readable(),
        opened(f, with_overlay).n == w.pushed().len(),
        opened(f, with_overlay).pct == w.pct@,
        forall|i: int|
            0 <= i < w.pushed().len() ==> crate::codec::entry_decoded(
                #[trigger] opened(f, with_overlay).record(i),
            ) == Some(w.pushed()[i]),
        forall|i: int| 0 <= i < 7 ==> answers(opened(f, with_overlay).lanes[i], #[trigger] lanes[i]),
        forall|i: int| 0 <= i < 7 ==> answers(opened(f, with_overlay).tops[i], #[trigger] tops[i]),
{
    let v = opened(f, with_overlay);
    law_records_read_back(w, f, with_overlay);
    assert forall|i: int| 0 <= i < 7 implies answers(v.lanes[i], #[trigger] lanes[i]) && (v.lanes[i]
        matches Some(x) && index_readable(x) && opens(v.lanes[i])) by {
        let x = files_index(f.lanes@[i])->0;
        assert(index_holds(x, lanes[i]));
        law_index_reads_back(lanes[i], x);
    }
    assert forall|i: int| 0 <= i < 7 implies answers(v.tops[i], #[trigger] tops[i]) && (v.tops[i]
        matches Some(x) ==> index_readable(x) && opens(v.tops[i])) by {
        assert(top_holds(files_index(f.tops@[i]), tops[i]));
        assert(fits(lanes[i]));
        if let Some(x) = files_index(f.tops@[i]) {
            law_index_reads_back(tops[i], x);
        }
    }
    assert forall|j: int| 0 <= j < 14 implies opens(#[trigger] image_at(f, j)) by {
        if j % 2 == 0 {
            assert(opens(v.lanes[j / 2]));
            assert(v.lanes[j / 2] == files_index(f.lanes@[j / 2]));
            assert(answers(v.lanes[j / 2], lanes[j / 2]));
        } else {
            assert(answers(v.tops[j / 2], tops[j / 2]));
            assert(v.tops[j / 2] == files_index(f.tops@[j / 2]));
        }
    }
    lemma_no_bad_image(f, 0);
    assert forall|i: int| 0 <= i < 7 implies (#[trigger] v.lanes[i] matches Some(x)
        ==> index_readable(x)) by {
        assert(answers(v.lanes[i], lanes[i]));
    }
    assert forall|i: int| 0 <= i < 7 implies (#[trigger] v.tops[i] matches Some(x)
        ==> index_readable(x)) by {
        assert(answers(v.tops[i], tops[i]));
    }
}

/// The lists of an index fit in memory.
proof fn lemma_posts_fit(x: IndexImage, k: KeyList)
    requires
        index_holds(image_view(x), k),
    ensures
        post_bytes(k).len() <= u64::MAX,
{
    assert(x.post@.len() == x.post.len());
}

/// The files that were written together open as a store that can be read throughout.
proof fn lemma_built_opens(b: Built, f: StoreFiles)
    requires
        b.written(),
        forall|w: StoreWriter, lanes: Seq<KeyList>, tops: Seq<KeyList>| #[trigger]
            b.holds(w, lanes, tops) ==> files_hold(f, w, lanes, tops),
    ensures
        open_fault(f) is None,
        opened(f, true).readable(),
{
    let (w, lanes, tops) = choose|w: StoreWriter, lanes: Seq<KeyList>, tops: Seq<KeyList>|
        #[trigger]
        b.holds(w, lanes, tops) && w.wf();
    assert(files_hold(f, w, lanes, tops));
    assert forall|i: int| 0 <= i < 7 implies post_bytes(#[trigger] lanes[i]).len() <= u64::MAX
        && post_bytes(tops[i]).len() <= u64::MAX by {
        lemma_posts_fit(b.indexes()[i], lanes[i]);
        match b.tables()[i] {
            Some(x) => {
                lemma_posts_fit(x, tops[i]);
            },
            None => {
                assert(tops[i].len() == 0);
            },
        }
    }
    law_written_stores_are_readable(f, w, lanes, tops);
}

impl Built {
    /// The store that the files hold.
    pub open spec fn store_view(self) -> StoreView {
        let meta = self.records().meta@;
        let n = declared(meta);
        StoreView {
            n,
            pct: Seq::new(n, |i: int| (Single { bits: le32(meta, 12 + 4 * i) })),
            kind: meta.subrange((12 + 4 * n) as int, (12 + 5 * n) as int),
            entries: self.records().entries@,
            idx: self.records().idx@,
            overlay: None,
            lanes: Seq::new(self.indexes().len(), |i: int| Some(image_view(self.indexes()[i]))),
            tops: Seq::new(
                self.tables().len(),
                |i: int|
                    match self.tables()[i] {
                        Some(x) => Some(image_view(x)),
                        None => None,
                    },
            ),
        }
    }

    /// Opens the store that was written. It always opens, and it can be read throughout.
    pub fn open(&self) -> (r: Result<Store<'_>, StoreError>)
        ensures
            r matches Ok(s) && s@ == self.store_view() && s@.readable(),
            forall|w: StoreWriter, lanes: Seq<KeyList>, tops: Seq<KeyList>| #[trigger]
                self.holds(w, lanes, tops) && w.wf() && w.pushed().len() <= u32::MAX
                    ==> self.store_view().n == w.pushed().len(),
    {
        proof {
            use_type_invariant(self);
        }
        let f = self.files();
        let r = Store::open(&f);
        proof {
            lemma_built_opens(*self, f);
            assert forall|w: StoreWriter, lanes: Seq<KeyList>, tops: Seq<KeyList>| #[trigger]
                self.holds(w, lanes, tops) && w.wf() && w.pushed().len() <= u32::MAX implies
                self.store_view().n == w.pushed().len() by {
                law_records_read_back(w, f, true);
            }
        }
        r
    }

    /// Opens the store that was written and looks a query up in it.
    pub fn look_up(&self, query: &str, budget: usize) -> (r: Result<Gathered, StoreError>)
        ensures
            r matches Ok(g) && {
                let want = gathered(self.store_view(), query@, budget as nat);
                &&& g.candidates@ == want.candidates
                &&& g.truncated == want.truncated
                &&& g.scanned == if want.scanned < usize::MAX {
                    want.scanned
                } else {
                    usize::MAX as nat
                }
                &&& g.q_len == if trimmed(query@).len() > 0 {
                    folded(query@).len()
                } else {
                    0
                }
            },
    {
        match self.open() {
            Ok(s) => Ok(s.gather(query, budget)),
            Err(e) => Err(e),
        }
    }

    /// Opens the store that was written and lays the page of an entry out, or gives nothing
    /// where one of its references cannot be looked up.
    pub fn page(&self, id: u32) -> (r: Result<Option<EntryPage>, StoreError>)
        ensures
            match entry_result(self.store_view(), id) {
                Ok(e) => match r {
                    Ok(Some(p)) => refs_comparable(self.store_view(), e.xrefs) && page_shows(
                        p,
                        self.store_view(),
                        e,
                    ),
                    Ok(None) => !refs_comparable(self.store_view(), e.xrefs),
                    Err(_) => false,
                },
                Err(x) => r == Err::<Option<EntryPage>, StoreError>(x),
            },
    {
        match self.open() {
            Ok(s) => match s.entry(id) {
                Ok(e) => Ok(entry_page(&s, &e)),
                Err(x) => Err(x),
            },
            Err(x) => Err(x),
        }
    }

    /// Opens the store that was written and shows a headword of it in the panel, like
    /// `Panel::try_open_word`.
    pub fn show_word(&self, panel: &mut Panel, word: &str) -> (r: Result<bool, StoreError>)
        ensures
            r == Ok::<bool, StoreError>(word_comparable(self.store_view(), word@)),
            final(panel)@ == if word_comparable(self.store_view(), word@) {
                at_word(old(panel)@, self.store_view(), word@)
            } else {
                old(panel)@
            },
    {
        match self.open() {
            Ok(s) => Ok(panel.try_open_word(&s, word)),
            Err(x) => Err(x),
        }
    }
}

/// Every posting leads to one of `n` entries.
pub open spec fn ids_below(p: Seq<Posting>, n: nat) -> bool {
    forall|i: int| 0 <= i < p.len() ==> (#[trigger] p[i]).2 < n
}

proof fn lemma_posted_below(p: Seq<Posting>, n: nat, lane: Lane, key: Seq<char>)
    requires
        ids_below(p, n),
    ensures
        forall|i: int| 0 <= i < posted(p, lane, key).len() ==> (#[trigger] posted(p, lane, key)[i])
            < n,
    decreases p.len(),
{
    if p.len() > 0 {
        let q = p.drop_last();
        assert forall|i: int| 0 <= i < q.len() implies (#[trigger] q[i]).2 < n by {
            assert(q[i] == p[i]);
        }
        lemma_posted_below(q, n, lane, key);
        assert(p[p.len() - 1].2 < n);
        let a = posted(q, lane, key);
        let b = posted(p, lane, key);
        assert forall|i: int| 0 <= i < b.len() implies (#[trigger] b[i]) < n by {
            if i < a.len() {
                assert(b[i] == a[i]);
            }
        }
    }
}

/// Different numbers below `n`, in order, are at most `n`.
proof fn lemma_ascending_len(s: Seq<u32>, n: nat)
    requires
        forall|i: int, j: int| 0 <= i < j < s.len() ==> s[i] < s[j],
        forall|i: int| 0 <= i < s.len() ==> (#[trigger] s[i]) < n,
    ensures
        s.len() <= n,
        forall|i: int| 0 <= i < s.len() ==> i <= (#[trigger] s[i]),
    decreases s.len(),
{
    if s.len() > 0 {
        let t = s.drop_last();
        assert forall|i: int| 0 <= i < t.len() implies (#[trigger] t[i]) < n by {
            assert(t[i] == s[i]);
        }
        assert forall|i: int, j: int| 0 <= i < j < t.len() implies t[i] < t[j] by {
            assert(s[i] < s[j]);
        }
        lemma_ascending_len(t, n);
        let z = s.len() - 1;
        assert forall|i: int| 0 <= i < s.len() implies i <= (#[trigger] s[i]) by {
            if i < z {
                assert(t[i] == s[i]);
            } else if z > 0 {
                assert(t[z - 1] == s[z - 1]);
                assert(s[z - 1] < s[z]);
            }
        }
        assert(s[z] < n);
    }
}

/// The lists of a lane whose postings lead to `n` entries.
proof fn lemma_lane_ids(k: KeyList, keys: IndexKeys, lane: Lane, p: Seq<Posting>, n: nat, i: int)
    requires
        lists_lane(k, keys, lane),
        keys.holds(p),
        ids_below(p, n),
        0 <= i < k.len(),
    ensures
        k[i].1.len() <= n,
        k[i].1.len() > 0,
        forall|j: int| 0 <= j < k[i].1.len() ==> (#[trigger] k[i].1[j]) < n,
{
    let s = k[i].1;
    let of = keys.of(lane, k[i].0);
    assert(of == posted(p, lane, k[i].0));
    lemma_posted_below(p, n, lane, k[i].0);
    assert(is_sorted_set(number_order(), s, of));
    assert forall|j: int| 0 <= j < s.len() implies (#[trigger] s[j]) < n by {
        assert(s.contains(s[j]));
        assert(of.contains(s[j]));
    }
    assert forall|a: int, b: int| 0 <= a < b < s.len() implies s[a] < s[b] by {
        assert(number_order()(s[a], s[b]));
    }
    lemma_ascending_len(s, n);
    assert(of.contains(of[0]));
    assert(s.contains(of[0]));
}

/// What a lane answers for a key: the ids posted for it, sorted and once each, or nothing
/// where none was.
pub open spec fn answers_posted(
    v: StoreView,
    p: Seq<Posting>,
    lane: Lane,
    key: Seq<char>,
) -> bool {
    match v.exact(lane, key) {
        Some(raw) => posted(p, lane, key).len() > 0 && is_sorted_set(
            number_order(),
            ids_spec(raw),
            posted(p, lane, key),
        ),
        None => posted(p, lane, key).len() == 0,
    }
}

/// A store answers exactly by its postings: in every lane each key leads to the entries that
/// were noted for it and to no others. Every word can be looked up in it.
pub proof fn law_a_store_answers_its_postings(
    f: StoreFiles,
    w: StoreWriter,
    keys: IndexKeys,
    p: Seq<Posting>,
    lanes: Seq<KeyList>,
    tops: Seq<KeyList>,
    with_overlay: bool,
)
    requires
        w.wf(),
        w.pushed().len() <= u32::MAX,
        files_hold(f, w, lanes, tops),
        keys.holds(p),
        ids_below(p, w.pushed().len()),
        lanes.len() == 7,
        forall|lane: Lane| lists_lane(#[trigger] lanes[lane.idx_spec() as int], keys, lane),
        forall|i: int|
            0 <= i < 7 ==> post_bytes(#[trigger] lanes[i]).len() <= u64::MAX && fits(tops[i]),
    ensures
        open_fault(f) is None,
        opened(f, with_overlay).readable(),
        forall|lane: Lane, key: Seq<char>| #[trigger]
            answers_posted(opened(f, with_overlay), p, lane, key),
        forall|word: Seq<char>| #[trigger] word_comparable(opened(f, with_overlay), word),
{
    let v = opened(f, with_overlay);
    let n = w.pushed().len();
    assert forall|i: int| 0 <= i < 7 implies fits(#[trigger] lanes[i]) && fits(tops[i]) by {
        let lane = LANES@[i];
        assert(lanes[lane.idx_spec() as int] == lanes[i]);
        assert(lists_lane(lanes[i], keys, lane));
        assert forall|j: int| 0 <= j < lanes[i].len() implies (#[trigger] lanes[i][j]).1.len()
            <= u32::MAX by {
            lemma_lane_ids(lanes[i], keys, lane, p, n, j);
        }
    }
    law_a_written_store_reads_back(f, w, lanes, tops, with_overlay);
    assert forall|lane: Lane, key: Seq<char>| #[trigger] answers_posted(v, p, lane, key)
        && comparable(v, lane, key) by {
        let k = lanes[lane.idx_spec() as int];
        let x = v.lanes[lane.idx_spec() as int];
        assert(answers(x, k));
        assert(lists_lane(k, keys, lane));
        assert(keys.of(lane, key) == posted(p, lane, key));
        if posted(p, lane, key).len() > 0 {
            assert(keys.of(lane, key).len() > 0);
            let i = choose|i: int| 0 <= i < k.len() && (#[trigger] k[i]).0 == key;
            assert(find_posting(x, k[i].0) matches Some(raw) && ids_spec(raw) == k[i].1);
            assert(is_sorted_set(number_order(), k[i].1, keys.of(lane, k[i].0)));
            lemma_lane_ids(k, keys, lane, p, n, i);
        } else {
            assert forall|i: int| 0 <= i < k.len() implies (#[trigger] k[i]).0 != key by {
                assert(keys.of(lane, k[i].0).len() > 0);
            }
            assert(find_posting(x, key) is None);
        }
    }
    assert forall|word: Seq<char>| #[trigger] word_comparable(v, word) by {
        let key = lowercase(trimmed(word));
        assert(answers_posted(v, p, Lane::Zh, key));
        assert(answers_posted(v, p, Lane::Enw, key));
    }
}

// ───────────────────────── headwords ─────────────────────────

proof fn lemma_posted_has(p: Seq<Posting>, x: Posting)
    requires
        p.contains(x),
        x.1.len() > 0,
    ensures
        posted(p, x.0, x.1).contains(x.2),
    decreases p.len(),
{
    let q = p.drop_last();
    let a = posted(q, x.0, x.1);
    let b = posted(p, x.0, x.1);
    if p.last() == x {
        assert(b[a.len() as int] == x.2);
    } else {
        let j = choose|j: int| 0 <= j < p.len() && p[j] == x;
        assert(q[j] == x);
        lemma_posted_has(q, x);
        let k = choose|k: int| 0 <= k < a.len() && a[k] == x.2;
        assert(b[k] == x.2);
    }
}

/// The postings of a Chinese headword are among those of all.
proof fn lemma_zh_posted(zh: Seq<RawZhView>, v: Variants, n: nat, i: int, x: Posting)
    requires
        0 <= i < n <= zh.len(),
        zh_postings(zh[i], v, i as u32).contains(x),
    ensures
        zh_postings_upto(zh, v, n).contains(x),
    decreases n,
{
    let a = zh_postings_upto(zh, v, (n - 1) as nat);
    let b = zh_postings(zh[n - 1], v, (n - 1) as u32);
    if i == n - 1 {
        let j = choose|j: int| 0 <= j < b.len() && b[j] == x;
        assert((a + b)[a.len() + j] == x);
    } else {
        lemma_zh_posted(zh, v, (n - 1) as nat, i, x);
        let j = choose|j: int| 0 <= j < a.len() && a[j] == x;
        assert((a + b)[j] == x);
    }
}

/// The postings of an English headword are among those of all.
proof fn lemma_en_posted(en: Seq<RawEnView>, first: nat, n: nat, i: int, x: Posting)
    requires
        0 <= i < n <= en.len(),
        en_postings(en[i], (first + i) as u32, base_id(en, first, en[i])).contains(x),
    ensures
        en_postings_upto(en, first, n).contains(x),
    decreases n,
{
    let a = en_postings_upto(en, first, (n - 1) as nat);
    let b = en_postings(en[n - 1], (first + n - 1) as u32, base_id(en, first, en[n - 1]));
    if i == n - 1 {
        let j = choose|j: int| 0 <= j < b.len() && b[j] == x;
        assert((a + b)[a.len() + j] == x);
    } else {
        lemma_en_posted(en, first, (n - 1) as nat, i, x);
        let j = choose|j: int| 0 <= j < a.len() && a[j] == x;
        assert((a + b)[j] == x);
    }
}

proof fn lemma_below_add(a: Seq<Posting>, b: Seq<Posting>, n: nat)
    requires
        ids_below(a, n),
        ids_below(b, n),
    ensures
        ids_below(a + b, n),
{
    assert forall|i: int| 0 <= i < (a + b).len() implies (#[trigger] (a + b)[i]).2 < n by {
        if i < a.len() {
            assert((a + b)[i] == a[i]);
        } else {
            assert((a + b)[i] == b[i - a.len()]);
        }
    }
}

proof fn lemma_zh_below(zh: Seq<RawZhView>, v: Variants, n: nat)
    requires
        n <= zh.len() <= u32::MAX,
    ensures
        ids_below(zh_postings_upto(zh, v, n), n),
    decreases n,
{
    if n > 0 {
        lemma_zh_below(zh, v, (n - 1) as nat);
        let a = zh_postings_upto(zh, v, (n - 1) as nat);
        let b = zh_postings(zh[n - 1], v, (n - 1) as u32);
        assert forall|i: int| 0 <= i < a.len() implies (#[trigger] a[i]).2 < n by {
            assert(a[i].2 < n - 1);
        }
        assert forall|i: int| 0 <= i < b.len() implies (#[trigger] b[i]).2 < n by {}
        lemma_below_add(a, b, n);
    }
}

proof fn lemma_en_id_below(en: Seq<RawEnView>, first: nat, w: Seq<char>)
    requires
        first + en.len() <= u32::MAX,
    ensures
        en_id(en, first, w) matches Some(id) ==> id < first + en.len(),
    decreases en.len(),
{
    if en.len() > 0 {
        lemma_en_id_below(en.drop_last(), first, w);
    }
}

proof fn lemma_en_below(en: Seq<RawEnView>, first: nat, n: nat)
    requires
        n <= en.len(),
        first + en.len() <= u32::MAX,
    ensures
        ids_below(en_postings_upto(en, first, n), first + en.len()),
    decreases n,
{
    if n > 0 {
        let all = first + en.len();
        lemma_en_below(en, first, (n - 1) as nat);
        let a = en_postings_upto(en, first, (n - 1) as nat);
        let r = en[n - 1];
        let b = en_postings(r, (first + n - 1) as u32, base_id(en, first, r));
        if let Some(l) = r.lemma {
            lemma_en_id_below(en, first, l);
        }
        assert forall|i: int| 0 <= i < b.len() implies (#[trigger] b[i]).2 < all by {}
        lemma_below_add(a, b, all);
    }
}

/// Every key that headwords give leads to one of their entries.
pub proof fn law_keys_lead_to_entries(zh: Seq<RawZhView>, en: Seq<RawEnView>, variants: Variants)
    requires
        zh.len() + en.len() <= u32::MAX,
    ensures
        ids_below(all_postings(zh, en, variants), zh.len() + en.len()),
{
    let a = zh_postings_upto(zh, variants, zh.len());
    let b = en_postings_upto(en, zh.len(), en.len());
    lemma_zh_below(zh, variants, zh.len());
    lemma_en_below(en, zh.len(), en.len());
    assert forall|k: int| 0 <= k < a.len() implies (#[trigger] a[k]).2 < zh.len() + en.len() by {
        assert(a[k].2 < zh.len());
    }
    lemma_below_add(a, b, zh.len() + en.len());
}

/// A list that is not empty has a best id, and it is one of the list.
proof fn lemma_best_id(ids: Seq<u32>, v: StoreView)
    ensures
        best_id(ids, v.pct) is Some <==> ids.len() > 0,
        best_id(ids, v.pct) matches Some(b) ==> ids.contains(b),
    decreases ids.len(),
{
    if ids.len() > 0 {
        lemma_best_id(ids.drop_last(), v);
        assert(ids[ids.len() - 1] == ids.last());
        if let Some(b) = best_id(ids.drop_last(), v.pct) {
            let i = choose|i: int| 0 <= i < ids.drop_last().len() && ids.drop_last()[i] == b;
            assert(ids[i] == b);
        }
    }
}

/// A posted key leads to its entry, so that it is found in its lane.
proof fn lemma_listed(v: StoreView, p: Seq<Posting>, x: Posting)
    requires
        answers_posted(v, p, x.0, x.1),
        p.contains(x),
        x.1.len() > 0,
    ensures
        v.exact(x.0, x.1) matches Some(raw) && ids_spec(raw).contains(x.2),
        best_in(v, x.0, x.1) is Some,
{
    lemma_posted_has(p, x);
    let raw = v.exact(x.0, x.1)->0;
    assert(ids_spec(raw).contains(x.2));
    lemma_best_id(ids_spec(raw), v);
}

/// Every key of a Chinese headword leads to it: its spellings, with traditional and variant
/// ones, what stands inside it, its pinyin, its initials, and the words of its glosses.
pub proof fn law_chinese_keys_lead_home(
    v: StoreView,
    zh: Seq<RawZhView>,
    en: Seq<RawEnView>,
    variants: Variants,
    i: int,
    x: Posting,
)
    requires
        forall|lane: Lane, key: Seq<char>| #[trigger]
            answers_posted(v, all_postings(zh, en, variants), lane, key),
        0 <= i < zh.len(),
        zh_postings(zh[i], variants, i as u32).contains(x),
        x.1.len() > 0,
    ensures
        v.exact(x.0, x.1) matches Some(raw) && ids_spec(raw).contains(x.2),
        best_in(v, x.0, x.1) is Some,
{
    let p = all_postings(zh, en, variants);
    let a = zh_postings_upto(zh, variants, zh.len());
    lemma_zh_posted(zh, variants, zh.len(), i, x);
    let j = choose|j: int| 0 <= j < a.len() && a[j] == x;
    assert(p[j] == x);
    assert(answers_posted(v, p, x.0, x.1));
    lemma_listed(v, p, x);
}

/// Every key of an English headword leads to it: its spelling and the words of its glosses. The
/// spelling of an inflected form also leads to its base form.
pub proof fn law_english_keys_lead_home(
    v: StoreView,
    zh: Seq<RawZhView>,
    en: Seq<RawEnView>,
    variants: Variants,
    i: int,
    x: Posting,
)
    requires
        forall|lane: Lane, key: Seq<char>| #[trigger]
            answers_posted(v, all_postings(zh, en, variants), lane, key),
        0 <= i < en.len(),
        en_postings(en[i], (zh.len() + i) as u32, base_id(en, zh.len(), en[i])).contains(x),
        x.1.len() > 0,
    ensures
        v.exact(x.0, x.1) matches Some(raw) && ids_spec(raw).contains(x.2),
        best_in(v, x.0, x.1) is Some,
{
    let p = all_postings(zh, en, variants);
    let a = zh_postings_upto(zh, variants, zh.len());
    let b = en_postings_upto(en, zh.len(), en.len());
    lemma_en_posted(en, zh.len(), en.len(), i, x);
    let j = choose|j: int| 0 <= j < b.len() && b[j] == x;
    assert(p[a.len() + j] == x);
    assert(answers_posted(v, p, x.0, x.1));
    lemma_listed(v, p, x);
}

/// An inflected form leads to its base form: the spelling of a headword whose base form is a
/// headword too lists the base form among its entries.
pub proof fn law_inflected_forms_lead_to_their_base(
    v: StoreView,
    zh: Seq<RawZhView>,
    en: Seq<RawEnView>,
    variants: Variants,
    i: int,
)
    requires
        forall|lane: Lane, key: Seq<char>| #[trigger]
            answers_posted(v, all_postings(zh, en, variants), lane, key),
        0 <= i < en.len(),
        base_id(en, zh.len(), en[i]) is Some,
        lowercase(en[i].entry.word).len() > 0,
    ensures
        v.exact(Lane::Enw, lowercase(en[i].entry.word)) matches Some(raw) && ids_spec(raw).contains(
            base_id(en, zh.len(), en[i])->0,
        ),
{
    let id = (zh.len() + i) as u32;
    let b = base_id(en, zh.len(), en[i])->0;
    let mine = en_postings(en[i], id, Some(b));
    let x: Posting = (Lane::Enw, lowercase(en[i].entry.word), b);
    if b == id {
        assert(mine[0] == x);
    } else {
        assert(mine[1] == x);
    }
    law_english_keys_lead_home(v, zh, en, variants, i, x);
}

/// Every headword is found in the store that was built of it: its spelling in lower case leads
/// to its entry in the lane of its side, and looking it up gives an entry. The spelling must
/// not begin or end with white space, which a query loses, nor be empty.
pub proof fn law_headwords_are_found(
    v: StoreView,
    zh: Seq<RawZhView>,
    en: Seq<RawEnView>,
    variants: Variants,
    i: int,
)
    requires
        forall|lane: Lane, key: Seq<char>| #[trigger]
            answers_posted(v, all_postings(zh, en, variants), lane, key),
        0 <= i < zh.len() + en.len(),
    ensures
        ({
            let word = if i < zh.len() {
                zh[i].entry.word
            } else {
                en[i - zh.len()].entry.word
            };
            let lane = if i < zh.len() {
                Lane::Zh
            } else {
                Lane::Enw
            };
            trimmed(word) == word && lowercase(word).len() > 0 ==> {
                &&& (v.exact(lane, lowercase(word)) matches Some(raw) && ids_spec(raw).contains(
                    i as u32,
                ))
                &&& looked_up(v, word) is Some
            }
        }),
{
    if i < zh.len() {
        let x: Posting = (Lane::Zh, lowercase(zh[i].entry.word), i as u32);
        assert(zh_postings(zh[i], variants, i as u32)[0] == x);
        if x.1.len() > 0 {
            law_chinese_keys_lead_home(v, zh, en, variants, i, x);
        }
    } else {
        let k = i - zh.len();
        let x: Posting = (Lane::Enw, lowercase(en[k].entry.word), i as u32);
        assert(en_postings(en[k], i as u32, base_id(en, zh.len(), en[k]))[0] == x);
        if x.1.len() > 0 {
            law_english_keys_lead_home(v, zh, en, variants, k, x);
        }
    }
}

} // verus!
