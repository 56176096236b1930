//! Writing a store: the images that the build step leaves for the read-only side.
use crate::bytes::{
    bytes_less, le32, le64, lemma_bytes_irreflexive, lemma_bytes_transitive, lemma_le32_at,
    lemma_le64_at, lemma_put32, lemma_put64, push_bytes, push_u32, push_u64, put32, put64,
};
use crate::codec::{
    encode_entry, encode_senses, entry_decoded, entry_encoded, senses_decoded, senses_encoded,
};
use crate::fstmap::{
    builder_entries, fst_builder, fst_finish, fst_image, fst_insert, fst_opens, value_at, FstEntries,
};
use crate::lane::Lane;
use crate::model::{sense_views, Entry, EntryView, Sense, SenseView};
use crate::single::Single;
use crate::store::{
    declared, find_posting, ids_spec, index_readable, keys_of, magic, meta_fault, offset, opened,
    overlay_range, overlay_senses, posting, posting_ok, records_readable, with_overlay, IndexView,
    StoreError, StoreFiles, StoreView,
};
use crate::text::{chars_of, extend_str, string_of};
use vstd::prelude::*;
use vstd::string::*;
use vstd::utf8::*;

verus! {

// ───────────────────────── rows of numbers ─────────────────────────

/// The numbers one after the other, four bytes each.
pub open spec fn words32(s: Seq<u32>) -> Seq<u8>
    decreases s.len(),
{
    if s.len() == 0 {
        Seq::empty()
    } else {
        words32(s.drop_last()) + put32(s.last())
    }
}

/// The numbers one after the other, eight bytes each.
pub open spec fn words64(s: Seq<u64>) -> Seq<u8>
    decreases s.len(),
{
    if s.len() == 0 {
        Seq::empty()
    } else {
        words64(s.drop_last()) + put64(s.last())
    }
}

/// Each number of a row reads back from its place.
pub proof fn lemma_words32(s: Seq<u32>)
    ensures
        words32(s).len() == 4 * s.len(),
        forall|i: int| 0 <= i < s.len() ==> #[trigger] le32(words32(s), 4 * i) == s[i],
    decreases s.len(),
{
    if s.len() > 0 {
        let m = s.drop_last();
        lemma_words32(m);
        lemma_put32(s.last());
        let b = words32(s);
        assert forall|i: int| 0 <= i < s.len() implies #[trigger] le32(b, 4 * i) == s[i] by {
            lemma_le32_at(b, 4 * i);
            if i < m.len() {
                lemma_le32_at(words32(m), 4 * i);
                assert(b.subrange(4 * i, 4 * i + 4) =~= words32(m).subrange(4 * i, 4 * i + 4));
                assert(le32(words32(m), 4 * i) == m[i]);
            } else {
                assert(b.subrange(4 * i, 4 * i + 4) =~= put32(s.last()));
            }
        }
    }
}

/// Each number of a row reads back from its place.
pub proof fn lemma_words64(s: Seq<u64>)
    ensures
        words64(s).len() == 8 * s.len(),
        forall|i: int| 0 <= i < s.len() ==> #[trigger] le64(words64(s), 8 * i) == s[i],
    decreases s.len(),
{
    if s.len() > 0 {
        let m = s.drop_last();
        lemma_words64(m);
        lemma_put64(s.last());
        let b = words64(s);
        assert forall|i: int| 0 <= i < s.len() implies #[trigger] le64(b, 8 * i) == s[i] by {
            lemma_le64_at(b, 8 * i);
            if i < m.len() {
                lemma_le64_at(words64(m), 8 * i);
                assert(b.subrange(8 * i, 8 * i + 8) =~= words64(m).subrange(8 * i, 8 * i + 8));
                assert(le64(words64(m), 8 * i) == m[i]);
            } else {
                assert(b.subrange(8 * i, 8 * i + 8) =~= put64(s.last()));
            }
        }
    }
}

fn push_words32(out: &mut Vec<u8>, s: &Vec<u32>)
    ensures
        final(out)@ == old(out)@ + words32(s@),
{
    let ghost before = out@;
    let mut i: usize = 0;
    assert(s@.take(0) =~= Seq::<u32>::empty());
    while i < s.len()
        invariant
            i <= s.len(),
            out@ == before + words32(s@.take(i as int)),
        decreases s.len() - i,
    {
        push_u32(out, s[i]);
        proof {
            let t = s@.take(i as int + 1);
            assert(t.drop_last() =~= s@.take(i as int));
            assert(out@ =~= before + words32(t));
        }
        i = i + 1;
    }
    assert(s@.take(i as int) =~= s@);
}

fn push_words64(out: &mut Vec<u8>, s: &Vec<u64>)
    ensures
        final(out)@ == old(out)@ + words64(s@),
{
    let ghost before = out@;
    let mut i: usize = 0;
    assert(s@.take(0) =~= Seq::<u64>::empty());
    while i < s.len()
        invariant
            i <= s.len(),
            out@ == before + words64(s@.take(i as int)),
        decreases s.len() - i,
    {
        push_u64(out, s[i]);
        proof {
            let t = s@.take(i as int + 1);
            assert(t.drop_last() =~= s@.take(i as int));
            assert(out@ =~= before + words64(t));
        }
        i = i + 1;
    }
    assert(s@.take(i as int) =~= s@);
}

/// The bits of percentiles.
pub open spec fn bits_of(s: Seq<Single>) -> Seq<u32> {
    Seq::new(s.len(), |i: int| s[i].bits)
}

// ───────────────────────── the files of an index ─────────────────────────

/// A list of keys with the ids of their entries.
pub open spec fn keyed(v: Seq<(String, Vec<u32>)>) -> Seq<(Seq<char>, Seq<u32>)> {
    Seq::new(v.len(), |i: int| (v[i].0@, v[i].1@))
}

/// One posting list: how many ids, then the ids.
pub open spec fn posting_bytes(ids: Seq<u32>) -> Seq<u8> {
    put32(ids.len() as u32) + words32(ids)
}

/// The posting lists of all keys, one after the other.
pub open spec fn post_bytes(keys: Seq<(Seq<char>, Seq<u32>)>) -> Seq<u8>
    decreases keys.len(),
{
    if keys.len() == 0 {
        Seq::empty()
    } else {
        post_bytes(keys.drop_last()) + posting_bytes(keys.last().1)
    }
}

/// The keys as the transducer has them, each with the place of its posting list.
pub open spec fn index_entries(keys: Seq<(Seq<char>, Seq<u32>)>) -> FstEntries {
    Seq::new(
        keys.len(),
        |i: int| (encode_utf8(keys[i].0), post_bytes(keys.take(i)).len() as u64),
    )
}

/// Key `i` comes after the one before it, in the order of their UTF-8 bytes.
pub open spec fn key_follows(keys: Seq<(Seq<char>, Seq<u32>)>, i: int) -> bool {
    i > 0 ==> bytes_less(encode_utf8(keys[i - 1].0), encode_utf8(keys[i].0))
}

/// The keys ascend and none occurs twice.
pub open spec fn keys_ascend(keys: Seq<(Seq<char>, Seq<u32>)>) -> bool {
    forall|i: int| 0 <= i < keys.len() ==> #[trigger] key_follows(keys, i)
}

/// The two files of an index, and their name without suffix.
pub struct IndexImage {
    pub stem: String,
    pub fst: Vec<u8>,
    pub post: Vec<u8>,
}

/// What `write_index` leaves for a list of keys: the images, or the first key out of order.
pub open spec fn index_written(
    r: Result<IndexImage, StoreError>,
    stem: Seq<char>,
    keys: Seq<(Seq<char>, Seq<u32>)>,
) -> bool {
    match r {
        Ok(x) => {
            &&& keys_ascend(keys)
            &&& x.stem@ == stem
            &&& fst_image(x.fst@) == Some(index_entries(keys))
            &&& fst_opens(x.fst@)
            &&& x.post@ == post_bytes(keys)
        },
        Err(e) => exists|at: usize|
            0 <= at < keys.len() && !key_follows(keys, at as int) && (forall|j: int|
                0 <= j < at ==> #[trigger] key_follows(keys, j)) && e == (StoreError::KeyOrder {
                at,
            }),
    }
}

fn write_index(stem: String, keys: &Vec<(String, Vec<u32>)>) -> (r: Result<IndexImage, StoreError>)
    ensures
        index_written(r, stem@, keyed(keys@)),
{
    let mut post: Vec<u8> = Vec::new();
    let mut builder = fst_builder();
    let ghost k = keyed(keys@);
    let mut i: usize = 0;
    assert(k.take(0) =~= Seq::<(Seq<char>, Seq<u32>)>::empty());
    assert(builder_entries(builder) =~= index_entries(k.take(0)));
    while i < keys.len()
        invariant
            i <= keys.len(),
            k == keyed(keys@),
            post@ == post_bytes(k.take(i as int)),
            builder_entries(builder) == index_entries(k.take(i as int)),
            forall|j: int| 0 <= j < i ==> #[trigger] key_follows(k, j),
        decreases keys.len() - i,
    {
        let ghost t = k.take(i as int);
        let ghost u = k.take(i as int + 1);
        let off: u64 = post.len() as u64;
        let key = keys[i].0.as_str().as_bytes();
        proof {
            assert(k[i as int].0 == keys@[i as int].0@);
            if i > 0 {
                assert(index_entries(t).last().0 == encode_utf8(k[i as int - 1].0));
            }
        }
        match fst_insert(&mut builder, key, off) {
            Ok(_) => {},
            Err(_) => {
                assert(!key_follows(k, i as int));
                return Err(StoreError::KeyOrder { at: i });
            },
        }
        push_u32(&mut post, keys[i].1.len() as u32);
        push_words32(&mut post, &keys[i].1);
        proof {
            assert(key_follows(k, i as int));
            assert(u.drop_last() =~= t);
            assert(u.last() == k[i as int]);
            assert(post@ =~= post_bytes(t) + posting_bytes(k[i as int].1));
            assert forall|j: int| 0 <= j < u.len() implies index_entries(t).push(
                (encode_utf8(k[i as int].0), off),
            )[j] == #[trigger] index_entries(u)[j] by {
                if j < i {
                    assert(u.take(j) =~= t.take(j));
                    assert(index_entries(t)[j] == index_entries(u)[j]);
                } else {
                    assert(u.take(j) =~= t);
                }
            }
            assert(builder_entries(builder) =~= index_entries(u));
        }
        i = i + 1;
    }
    assert(k.take(i as int) =~= k);
    match fst_finish(builder) {
        Ok(fst) => Ok(IndexImage { stem, fst, post }),
        Err(_) => Err(StoreError::KeyOrder { at: 0 }),
    }
}

// ───────────────────────── the files of the entries ─────────────────────────

/// The files of the entries.
pub struct StoreImage {
    pub entries: Vec<u8>,
    pub idx: Vec<u8>,
    pub meta: Vec<u8>,
}

/// The header file: the magic bytes, the number of entries, their percentiles, their kinds.
pub open spec fn meta_bytes(pct: Seq<Single>, kind: Seq<u8>) -> Seq<u8> {
    magic() + put32(pct.len() as u32) + words32(bits_of(pct)) + kind
}

/// The entries written so far, as records in memory.
pub struct StoreWriter {
    pub entries: Vec<u8>,
    /// Where each record begins, and where the last one ends.
    pub offsets: Vec<u64>,
    pub pct: Vec<Single>,
    pub kind: Vec<u8>,
    pub cursor: u64,
}

impl StoreWriter {
    /// The record of entry `i`.
    pub open spec fn record(self, i: int) -> Seq<u8> {
        self.entries@.subrange(self.offsets@[i] as int, self.offsets@[i + 1] as int)
    }

    /// The offsets part the records, and each record holds an entry with the percentile and
    /// the kind noted for it.
    pub open spec fn wf(self) -> bool {
        &&& self.offsets@.len() == self.pct@.len() + 1
        &&& self.kind@.len() == self.pct@.len()
        &&& self.cursor == self.entries@.len()
        &&& self.offsets@.last() == self.cursor
        &&& forall|i: int|
            0 <= i < self.pct@.len() ==> #[trigger] self.offsets@[i] <= self.offsets@[i + 1]
                <= self.cursor
        &&& forall|i: int|
            0 <= i < self.pct@.len() ==> (entry_decoded(#[trigger] self.record(i)) matches Some(e)
                && e.pct == self.pct@[i] && e.kind == self.kind@[i])
    }

    /// The entries written so far.
    pub open spec fn pushed(self) -> Seq<EntryView> {
        Seq::new(self.pct@.len(), |i: int| entry_decoded(self.record(i))->0)
    }

    pub fn create() -> (r: Self)
        ensures
            r.wf(),
            r.pushed() == Seq::<EntryView>::empty(),
            r.entries@.len() == 0,
    {
        let mut offsets: Vec<u64> = Vec::new();
        offsets.push(0);
        let r = StoreWriter {
            entries: Vec::new(),
            offsets,
            pct: Vec::new(),
            kind: Vec::new(),
            cursor: 0,
        };
        assert(r.pushed() =~= Seq::<EntryView>::empty());
        r
    }

    /// Appends an entry and returns its id.
    pub fn push(&mut self, e: &Entry) -> (r: Result<u32, StoreError>)
        requires
            old(self).wf(),
        ensures
            final(self).wf(),
            r == Ok::<u32, StoreError>(old(self).pushed().len() as u32),
            final(self).pushed() == old(self).pushed().push(e@),
            final(self).entries@ == old(self).entries@ + entry_encoded(e@),
    {
        let ghost was = *self;
        let bytes = encode_entry(e);
        push_bytes(&mut self.entries, &bytes);
        self.cursor = self.entries.len() as u64;
        self.offsets.push(self.cursor);
        self.pct.push(e.pct);
        self.kind.push(e.kind);
        proof {
            let n = was.pct@.len() as int;
            assert(self.entries@ =~= was.entries@ + bytes@);
            assert forall|i: int| 0 <= i < n implies self.record(i) == was.record(i) by {
                assert(was.offsets@[i] <= was.offsets@[i + 1] <= was.cursor);
                assert(self.offsets@[i] == was.offsets@[i]);
                assert(self.offsets@[i + 1] == was.offsets@[i + 1]);
                assert(self.record(i) =~= was.record(i));
            }
            assert(self.offsets@[n] == was.cursor);
            assert(self.record(n) =~= bytes@);
            assert forall|i: int| 0 <= i < self.pct@.len() implies #[trigger] self.offsets@[i]
                <= self.offsets@[i + 1] <= self.cursor by {
                if i < n {
                    assert(was.offsets@[i] <= was.offsets@[i + 1] <= was.cursor);
                }
            }
            assert forall|i: int| 0 <= i < self.pct@.len() implies (entry_decoded(
                #[trigger] self.record(i),
            ) matches Some(x) && x.pct == self.pct@[i] && x.kind == self.kind@[i]) by {
                if i < n {
                    assert(self.record(i) == was.record(i));
                }
            }
            assert(self.pushed() =~= was.pushed().push(e@)) by {
                assert forall|i: int| 0 <= i < self.pct@.len() implies self.pushed()[i]
                    == was.pushed().push(e@)[i] by {
                    if i < n {
                        assert(self.record(i) == was.record(i));
                    }
                }
            }
        }
        Ok((self.offsets.len() - 2) as u32)
    }

    pub fn len(&self) -> (r: usize)
        ensures
            r == self.pushed().len(),
    {
        self.pct.len()
    }

    pub fn is_empty(&self) -> (r: bool)
        ensures
            r == (self.pushed().len() == 0),
    {
        self.pct.len() == 0
    }

    /// Writes the index of a lane. The keys have to ascend in the order of their bytes and
    /// none may occur twice, as a transducer demands.
    pub fn write_lane(&self, lane: Lane, keys: &Vec<(String, Vec<u32>)>) -> (r: Result<
        IndexImage,
        StoreError,
    >)
        ensures
            index_written(r, lane.file_stem_spec(), keyed(keys@)),
    {
        let mut stem = chars_of("");
        extend_str(&mut stem, lane.file_stem());
        proof {
            reveal_strlit("");
            assert(stem@ =~= lane.file_stem_spec());
        }
        write_index(string_of(&stem), keys)
    }

    /// Writes the table of short prefixes of a lane; its values are packed by `pack_top`.
    pub fn write_top_lane(&self, lane: Lane, keys: &Vec<(String, Vec<u32>)>) -> (r: Result<
        IndexImage,
        StoreError,
    >)
        ensures
            index_written(r, lane.file_stem_spec() + "top"@, keyed(keys@)),
    {
        let mut stem = chars_of(lane.file_stem());
        extend_str(&mut stem, "top");
        write_index(string_of(&stem), keys)
    }

    /// The files of the entries.
    pub fn finish(self) -> (r: StoreImage)
        requires
            self.wf(),
        ensures
            r.entries@ == self.entries@,
            r.idx@ == words64(self.offsets@),
            r.meta@ == meta_bytes(self.pct@, self.kind@),
    {
        let mut idx: Vec<u8> = Vec::new();
        push_words64(&mut idx, &self.offsets);
        assert(idx@ =~= words64(self.offsets@));
        let mut meta: Vec<u8> = Vec::new();
        let m: [u8; 8] = [0x5A, 0x44, 0x49, 0x43, 0x54, 0x30, 0x30, 0x31];
        assert(m@ =~= magic());
        push_bytes(&mut meta, &m);
        assert(meta@ =~= magic());
        push_u32(&mut meta, self.pct.len() as u32);
        let mut bits: Vec<u32> = Vec::new();
        let mut i: usize = 0;
        while i < self.pct.len()
            invariant
                i <= self.pct.len(),
                bits.len() == i,
                forall|j: int| 0 <= j < i ==> #[trigger] bits@[j] == self.pct@[j].bits,
            decreases self.pct.len() - i,
        {
            bits.push(self.pct[i].bits);
            i = i + 1;
        }
        assert(bits@ =~= bits_of(self.pct@));
        push_words32(&mut meta, &bits);
        push_bytes(&mut meta, &self.kind);
        StoreImage { entries: self.entries, idx, meta }
    }
}

// ───────────────────────── the overlay ─────────────────────────

/// The files of the rewritten senses.
pub struct OverlayImage {
    pub bin: Vec<u8>,
    pub idx: Vec<u8>,
}

/// Ids with their rewritten senses.
pub open spec fn rewrites(v: Seq<(u32, Vec<Sense>)>) -> Seq<(u32, Seq<SenseView>)> {
    Seq::new(v.len(), |i: int| (v[i].0, sense_views(v[i].1@)))
}

/// How many items have been placed once the ids below `i` have been gone through. An item
/// is placed when its id comes up while it is the next one.
pub open spec fn placed(items: Seq<(u32, Seq<SenseView>)>, i: nat) -> nat
    decreases i,
{
    if i == 0 {
        0
    } else {
        let k = placed(items, (i - 1) as nat);
        if k < items.len() && items[k as int].0 == i - 1 {
            k + 1
        } else {
            k
        }
    }
}

/// The records of the first `k` items, one after the other.
pub open spec fn records_of(items: Seq<(u32, Seq<SenseView>)>, k: nat) -> Seq<u8>
    decreases k,
{
    if k == 0 {
        Seq::empty()
    } else {
        records_of(items, (k - 1) as nat) + senses_encoded(items[k - 1].1)
    }
}

/// Where the records of the ids `0..=n` begin.
pub open spec fn overlay_offsets(items: Seq<(u32, Seq<SenseView>)>, n: nat) -> Seq<u64> {
    Seq::new(n + 1, |i: int| records_of(items, placed(items, i as nat)).len() as u64)
}

/// The ids ascend, and all lie below `n`.
pub open spec fn ids_ascend(items: Seq<(u32, Seq<SenseView>)>, n: nat) -> bool {
    &&& forall|i: int, j: int| 0 <= i < j < items.len() ==> items[i].0 < items[j].0
    &&& forall|i: int| 0 <= i < items.len() ==> (#[trigger] items[i]).0 < n
}

/// An overlay holds exactly the given items.
pub open spec fn overlay_holds(
    ov: (Seq<u8>, Seq<u8>),
    items: Seq<(u32, Seq<SenseView>)>,
) -> bool {
    &&& forall|k: int|
        0 <= k < items.len() ==> overlay_senses(ov, (#[trigger] items[k]).0) == Some(items[k].1)
    &&& forall|id: u32|
        (forall|k: int| 0 <= k < items.len() ==> (#[trigger] items[k]).0 != id) ==> (
        #[trigger] overlay_range(ov, id)) is None
}

/// Writing and reading back a list of senses loses nothing.
pub open spec fn senses_survive(s: Seq<SenseView>) -> bool {
    &&& senses_decoded(senses_encoded(s)) == Some(s)
    &&& senses_encoded(s).len() >= 8
}

impl StoreWriter {
    /// Writes the rewritten senses of the entries below `n`, for items by ascending id.
    pub fn write_overlay(n: usize, items: &Vec<(u32, Vec<Sense>)>) -> (r: OverlayImage)
        requires
            n < usize::MAX,
        ensures
            r.bin@ == records_of(rewrites(items@), placed(rewrites(items@), n as nat)),
            r.idx@ == words64(overlay_offsets(rewrites(items@), n as nat)),
            ids_ascend(rewrites(items@), n as nat) ==> overlay_holds(
                (r.bin@, r.idx@),
                rewrites(items@),
            ),
    {
        let ghost v = rewrites(items@);
        let mut bin: Vec<u8> = Vec::new();
        let mut offsets: Vec<u64> = Vec::new();
        offsets.push(0);
        let mut k: usize = 0;
        let mut i: usize = 0;
        while i < n
            invariant
                n < usize::MAX,
                i <= n,
                k <= items.len(),
                v == rewrites(items@),
                k == placed(v, i as nat),
                bin@ == records_of(v, k as nat),
                offsets.len() == i + 1,
                forall|j: int|
                    0 <= j <= i ==> #[trigger] offsets@[j] == records_of(
                        v,
                        placed(v, j as nat),
                    ).len(),
                forall|j: int| 0 <= j < k ==> senses_survive(#[trigger] v[j].1),
            decreases n - i,
        {
            if k < items.len() && items[k].0 as u64 == i as u64 {
                let bytes = encode_senses(&items[k].1);
                push_bytes(&mut bin, &bytes);
                proof {
                    assert(v[k as int] == (items@[k as int].0, sense_views(items@[k as int].1@)));
                }
                k = k + 1;
            }
            offsets.push(bin.len() as u64);
            i = i + 1;
        }
        let mut idx: Vec<u8> = Vec::new();
        push_words64(&mut idx, &offsets);
        proof {
            assert(offsets@ =~= overlay_offsets(v, n as nat));
            assert(idx@ =~= words64(offsets@));
            if ids_ascend(v, n as nat) {
                lemma_all_placed(v, n as nat, n as nat);
                if k < v.len() {
                    assert(v[k as int].0 >= n);
                }
                lemma_overlay_holds(v, n as nat);
            }
        }
        OverlayImage { bin, idx }
    }
}

/// With ascending ids, the items placed before id `i` are those with a smaller id.
proof fn lemma_all_placed(items: Seq<(u32, Seq<SenseView>)>, n: nat, i: nat)
    requires
        ids_ascend(items, n),
        i <= n,
    ensures
        placed(items, i) <= items.len(),
        forall|k: int| 0 <= k < placed(items, i) ==> (#[trigger] items[k]).0 < i,
        forall|k: int| placed(items, i) <= k < items.len() ==> (#[trigger] items[k]).0 >= i,
    decreases i,
{
    if i > 0 {
        lemma_all_placed(items, n, (i - 1) as nat);
        let k = placed(items, (i - 1) as nat) as int;
        if k < items.len() && items[k].0 == i - 1 {
            assert forall|m: int| k + 1 <= m < items.len() implies (#[trigger] items[m]).0
                >= i by {
                assert(items[k].0 < items[m].0);
            }
        } else {
            assert forall|m: int| k <= m < items.len() implies (#[trigger] items[m]).0 >= i by {
                if m > k {
                    assert(items[k].0 < items[m].0);
                }
            }
        }
    }
}

/// The first records are a prefix of all of them.
proof fn lemma_records_prefix(items: Seq<(u32, Seq<SenseView>)>, k: nat, m: nat)
    requires
        k <= m <= items.len(),
    ensures
        records_of(items, k).len() <= records_of(items, m).len(),
        records_of(items, m).take(records_of(items, k).len() as int) == records_of(items, k),
    decreases m - k,
{
    if k == m {
        assert(records_of(items, m).take(records_of(items, m).len() as int) =~= records_of(
            items,
            m,
        ));
    } else {
        lemma_records_prefix(items, k, (m - 1) as nat);
        let a = records_of(items, (m - 1) as nat);
        assert(records_of(items, m).take(records_of(items, k).len() as int) =~= a.take(
            records_of(items, k).len() as int,
        ));
    }
}

/// What can be said of the overlay that is written for ascending ids.
spec fn overlay_sound(items: Seq<(u32, Seq<SenseView>)>, n: nat) -> bool {
    &&& ids_ascend(items, n)
    &&& n < usize::MAX
    &&& placed(items, n) == items.len()
    &&& records_of(items, items.len()).len() <= u64::MAX
    &&& forall|j: int| 0 <= j < items.len() ==> senses_survive(#[trigger] items[j].1)
}

/// The record of an id lies between the records placed before it and those placed with it.
proof fn lemma_overlay_place(items: Seq<(u32, Seq<SenseView>)>, n: nat, id: nat)
    requires
        overlay_sound(items, n),
        id <= n,
    ensures
        ({
            let idx = words64(overlay_offsets(items, n));
            &&& idx.len() == 8 * (n + 1)
            &&& le64(idx, 8 * (id as int)) == records_of(items, placed(items, id)).len()
            &&& records_of(items, placed(items, id)).len() <= records_of(items, items.len()).len()
        }),
{
    let offs = overlay_offsets(items, n);
    lemma_words64(offs);
    lemma_all_placed(items, n, id);
    lemma_records_prefix(items, placed(items, id), items.len());
    assert(le64(words64(offs), 8 * (id as int)) == offs[id as int]);
}

/// An item of the overlay reads back.
proof fn lemma_overlay_item(items: Seq<(u32, Seq<SenseView>)>, n: nat, k: int)
    requires
        overlay_sound(items, n),
        0 <= k < items.len(),
    ensures
        overlay_senses(
            (records_of(items, items.len()), words64(overlay_offsets(items, n))),
            items[k].0,
        ) == Some(items[k].1),
{
    let bin = records_of(items, items.len());
    let id = items[k].0;
    assert(id < n);
    lemma_overlay_place(items, n, id as nat);
    lemma_overlay_place(items, n, (id + 1) as nat);
    lemma_all_placed(items, n, id as nat);
    let a = placed(items, id as nat) as int;
    if a < k {
        assert(items[a].0 < items[k].0);
    }
    if a > k {
        assert(items[k].0 < id);
    }
    assert(placed(items, (id + 1) as nat) == k + 1);
    lemma_records_prefix(items, (k + 1) as nat, items.len());
    let lo = records_of(items, k as nat).len() as int;
    let hi = records_of(items, (k + 1) as nat).len() as int;
    assert(senses_survive(items[k].1));
    assert(bin.subrange(lo, hi) =~= bin.take(hi).subrange(lo, hi));
    assert(bin.subrange(lo, hi) =~= senses_encoded(items[k].1));
}

/// An id that no item has is not in the overlay.
proof fn lemma_overlay_gap(items: Seq<(u32, Seq<SenseView>)>, n: nat, id: u32)
    requires
        overlay_sound(items, n),
        forall|k: int| 0 <= k < items.len() ==> (#[trigger] items[k]).0 != id,
    ensures
        overlay_range(
            (records_of(items, items.len()), words64(overlay_offsets(items, n))),
            id,
        ) is None,
{
    if id < n {
        lemma_overlay_place(items, n, id as nat);
        lemma_overlay_place(items, n, (id + 1) as nat);
        assert(placed(items, (id + 1) as nat) == placed(items, id as nat));
    } else {
        lemma_overlay_place(items, n, n);
    }
}

proof fn lemma_overlay_holds(items: Seq<(u32, Seq<SenseView>)>, n: nat)
    requires
        overlay_sound(items, n),
    ensures
        overlay_holds(
            (records_of(items, items.len()), words64(overlay_offsets(items, n))),
            items,
        ),
{
    let ov = (records_of(items, items.len()), words64(overlay_offsets(items, n)));
    assert forall|k: int| 0 <= k < items.len() implies overlay_senses(
        ov,
        (#[trigger] items[k]).0,
    ) == Some(items[k].1) by {
        lemma_overlay_item(items, n, k);
    }
    assert forall|id: u32|
        (forall|k: int| 0 <= k < items.len() ==> (#[trigger] items[k]).0 != id) implies (
    #[trigger] overlay_range(ov, id)) is None by {
        lemma_overlay_gap(items, n, id);
    }
}

/// A store with a written overlay shows its items: an entry that has one shows the rewritten
/// senses and is else as it was, and an entry that has none is as it was.
pub proof fn law_an_overlay_shows_its_items(
    v: StoreView,
    items: Seq<(u32, Seq<SenseView>)>,
    id: u32,
    e: EntryView,
)
    requires
        v.overlay is Some,
        overlay_holds(v.overlay->0, items),
    ensures
        forall|k: int|
            0 <= k < items.len() && (#[trigger] items[k]).0 == id ==> with_overlay(v, id, e) == (
            EntryView { senses: items[k].1, ..e }),
        (forall|k: int| 0 <= k < items.len() ==> (#[trigger] items[k]).0 != id) ==> with_overlay(
            v,
            id,
            e,
        ) == e,
{
    let ov = v.overlay->0;
    if forall|k: int| 0 <= k < items.len() ==> (#[trigger] items[k]).0 != id {
        assert(overlay_range(ov, id) is None);
    }
}

// ───────────────────────── reading back ─────────────────────────

/// The files of a writer open as a store whose records all have their place, however many
/// there are.
pub proof fn law_written_records_are_readable(w: StoreWriter, f: StoreFiles, with_overlay: bool)
    requires
        w.wf(),
        f.entries@ == w.entries@,
        f.idx@ == words64(w.offsets@),
        f.meta@ == meta_bytes(w.pct@, w.kind@),
    ensures
        meta_fault(f.meta@) is None,
        opened(f, with_overlay).kind.len() == opened(f, with_overlay).n,
        records_readable(opened(f, with_overlay)),
{
    let n = w.pct@.len() as int;
    let m = f.meta@;
    let v = opened(f, with_overlay);
    lemma_words32(bits_of(w.pct@));
    lemma_words64(w.offsets@);
    lemma_put32(n as u32);
    assert(m.len() == 12 + 5 * n);
    assert(m.take(8) =~= magic());
    lemma_le32_at(m, 8);
    assert(m.subrange(8, 12) =~= put32(n as u32));
    assert(declared(m) == n as u32);
    assert(declared(m) <= n);
    assert forall|i: int| 0 <= i <= n implies #[trigger] offset(v, i) == w.offsets@[i] by {
        assert(le64(words64(w.offsets@), 8 * i) == w.offsets@[i]);
    }
    assert forall|i: int| 0 <= i < v.n implies #[trigger] offset(v, i) <= offset(v, i + 1)
        <= v.entries.len() by {
        assert(offset(v, i + 1) == w.offsets@[i + 1]);
        assert(w.offsets@[i] <= w.offsets@[i + 1] <= w.cursor);
    }
}

/// What was written reads back: the files of a writer open as a store of the same entries,
/// in the same order, with their percentiles and kinds.
pub proof fn law_records_read_back(w: StoreWriter, f: StoreFiles, with_overlay: bool)
    requires
        w.wf(),
        w.pushed().len() <= u32::MAX,
        f.entries@ == w.entries@,
        f.idx@ == words64(w.offsets@),
        f.meta@ == meta_bytes(w.pct@, w.kind@),
    ensures
        meta_fault(f.meta@) is None,
        opened(f, with_overlay).n == w.pushed().len(),
        opened(f, with_overlay).pct == w.pct@,
        opened(f, with_overlay).kind == w.kind@,
        records_readable(opened(f, with_overlay)),
        forall|i: int|
            0 <= i < w.pushed().len() ==> entry_decoded(
                #[trigger] opened(f, with_overlay).record(i),
            ) == Some(w.pushed()[i]),
{
    let n = w.pct@.len() as int;
    let m = f.meta@;
    let v = opened(f, with_overlay);
    let bits = bits_of(w.pct@);
    lemma_words32(bits);
    lemma_words64(w.offsets@);
    lemma_put32(n as u32);
    assert(m.len() == 12 + 5 * n);
    assert(m.take(8) =~= magic());
    lemma_le32_at(m, 8);
    assert(m.subrange(8, 12) =~= put32(n as u32));
    assert(declared(m) == n);
    assert forall|i: int| 0 <= i < n implies v.pct[i] == w.pct@[i] by {
        lemma_le32_at(m, 12 + 4 * i);
        lemma_le32_at(words32(bits), 4 * i);
        assert(m.subrange(12 + 4 * i, 16 + 4 * i) =~= words32(bits).subrange(4 * i, 4 * i + 4));
        assert(le32(words32(bits), 4 * i) == bits[i]);
    }
    assert(v.pct =~= w.pct@);
    assert(v.kind =~= w.kind@);
    assert forall|i: int| 0 <= i <= n implies #[trigger] offset(v, i) == w.offsets@[i] by {
        assert(le64(words64(w.offsets@), 8 * i) == w.offsets@[i]);
    }
    assert forall|i: int| 0 <= i < n implies #[trigger] offset(v, i) <= offset(v, i + 1)
        <= v.entries.len() by {
        assert(offset(v, i + 1) == w.offsets@[i + 1]);
        assert(w.offsets@[i] <= w.offsets@[i + 1] <= w.cursor);
    }
    assert forall|i: int| 0 <= i < w.pushed().len() implies entry_decoded(
        #[trigger] v.record(i),
    ) == Some(w.pushed()[i]) by {
        assert(offset(v, i) == w.offsets@[i]);
        assert(offset(v, i + 1) == w.offsets@[i + 1]);
        assert(v.record(i) == w.record(i));
        assert(entry_decoded(w.record(i)) is Some);
    }
}

/// The place of a posting list.
spec fn place(keys: Seq<(Seq<char>, Seq<u32>)>, i: int) -> int {
    post_bytes(keys.take(i)).len() as int
}

proof fn lemma_place(keys: Seq<(Seq<char>, Seq<u32>)>, i: int)
    requires
        0 <= i < keys.len(),
    ensures
        place(keys, i) + posting_bytes(keys[i].1).len() <= post_bytes(keys).len(),
        post_bytes(keys).subrange(
            place(keys, i),
            place(keys, i) + posting_bytes(keys[i].1).len(),
        ) == posting_bytes(keys[i].1),
    decreases keys.len(),
{
    let rest = keys.drop_last();
    let p = posting_bytes(keys[i].1);
    if i == keys.len() - 1 {
        assert(keys.take(i) =~= rest);
        assert(post_bytes(keys).subrange(place(keys, i), place(keys, i) + p.len()) =~= p);
    } else {
        lemma_place(rest, i);
        assert(rest.take(i) =~= keys.take(i));
        assert(post_bytes(keys).subrange(place(keys, i), place(keys, i) + p.len())
            =~= post_bytes(rest).subrange(place(keys, i), place(keys, i) + p.len()));
    }
}

/// Ascending keys are ordered at any distance.
proof fn lemma_keys_ordered(keys: Seq<(Seq<char>, Seq<u32>)>, i: int, j: int)
    requires
        keys_ascend(keys),
        0 <= i < j < keys.len(),
    ensures
        bytes_less(encode_utf8(keys[i].0), encode_utf8(keys[j].0)),
    decreases j - i,
{
    assert(key_follows(keys, j));
    if i < j - 1 {
        lemma_keys_ordered(keys, i, j - 1);
        lemma_bytes_transitive(
            encode_utf8(keys[i].0),
            encode_utf8(keys[j - 1].0),
            encode_utf8(keys[j].0),
        );
    }
}

/// The number stored under a key that occurs once.
proof fn lemma_value_at(e: FstEntries, i: int)
    requires
        0 <= i < e.len(),
        forall|j: int| 0 <= j < i ==> (#[trigger] e[j]).0 != e[i].0,
    ensures
        value_at(e, e[i].0) == Some(e[i].1),
    decreases e.len(),
{
    if i > 0 {
        assert(e[0].0 != e[i].0);
        assert forall|j: int| 0 <= j < i - 1 implies (#[trigger] e.drop_first()[j]).0
            != e.drop_first()[i - 1].0 by {
            assert(e[j + 1].0 != e[i].0);
        }
        lemma_value_at(e.drop_first(), i - 1);
    }
}

proof fn lemma_no_value(e: FstEntries, key: Seq<u8>)
    requires
        forall|j: int| 0 <= j < e.len() ==> (#[trigger] e[j]).0 != key,
    ensures
        value_at(e, key) is None,
    decreases e.len(),
{
    if e.len() > 0 {
        assert(e[0].0 != key);
        assert forall|j: int| 0 <= j < e.drop_first().len() implies (#[trigger] e.drop_first()[j]).0
            != key by {
            assert(e[j + 1].0 != key);
        }
        lemma_no_value(e.drop_first(), key);
    }
}

/// A written index can be read, however long its lists are.
pub proof fn law_written_indexes_are_readable(keys: Seq<(Seq<char>, Seq<u32>)>, x: IndexView)
    requires
        keys_ascend(keys),
        fst_image(x.0) == Some(index_entries(keys)),
        x.1 == post_bytes(keys),
        post_bytes(keys).len() <= u64::MAX,
    ensures
        index_readable(x),
{
    let e = index_entries(keys);
    assert(keys_of(x) == e);
    assert forall|i: int, j: int| 0 <= i < j < e.len() implies bytes_less(
        (#[trigger] e[i]).0,
        (#[trigger] e[j]).0,
    ) by {
        lemma_keys_ordered(keys, i, j);
    }
    assert forall|i: int| 0 <= i < keys_of(x).len() implies posting_ok(
        x.1,
        #[trigger] keys_of(x)[i].1,
    ) by {
        let ids = keys[i].1;
        let at = place(keys, i);
        let p = posting_bytes(ids);
        lemma_place(keys, i);
        lemma_words32(ids);
        lemma_put32(ids.len() as u32);
        assert(e[i].1 == at);
        lemma_le32_at(x.1, at);
        assert(x.1.subrange(at, at + 4) =~= x.1.subrange(at, at + p.len()).subrange(0, 4));
        assert(p.subrange(0, 4) =~= put32(ids.len() as u32));
        assert(le32(x.1, at) == ids.len() as u32);
    }
}

/// A written index reads back: it is readable, a lookup of each key gives its ids, and a
/// lookup of any other key gives nothing.
pub proof fn law_index_reads_back(keys: Seq<(Seq<char>, Seq<u32>)>, x: IndexView)
    requires
        keys_ascend(keys),
        fst_image(x.0) == Some(index_entries(keys)),
        x.1 == post_bytes(keys),
        post_bytes(keys).len() <= u64::MAX,
        forall|i: int| 0 <= i < keys.len() ==> (#[trigger] keys[i]).1.len() <= u32::MAX,
    ensures
        index_readable(x),
        forall|i: int|
            0 <= i < keys.len() ==> (find_posting(Some(x), (#[trigger] keys[i]).0) matches Some(raw)
                && ids_spec(raw) == keys[i].1),
        forall|k: Seq<char>|
            (forall|i: int| 0 <= i < keys.len() ==> (#[trigger] keys[i]).0 != k) ==> (
            #[trigger] find_posting(Some(x), k)) is None,
{
    law_written_indexes_are_readable(keys, x);
    let e = index_entries(keys);
    assert(keys_of(x) == e);
    assert forall|i: int| 0 <= i < keys.len() implies {
        &&& posting_ok(x.1, #[trigger] e[i].1)
        &&& ids_spec(posting(x.1, e[i].1)) == keys[i].1
    } by {
        let ids = keys[i].1;
        let at = place(keys, i);
        let p = posting_bytes(ids);
        lemma_place(keys, i);
        lemma_words32(ids);
        lemma_put32(ids.len() as u32);
        assert(e[i].1 == at);
        lemma_le32_at(x.1, at);
        assert(x.1.subrange(at, at + 4) =~= x.1.subrange(at, at + p.len()).subrange(0, 4));
        assert(p.subrange(0, 4) =~= put32(ids.len() as u32));
        assert(le32(x.1, at) == ids.len());
        assert(posting(x.1, e[i].1) =~= x.1.subrange(at, at + p.len()).subrange(
            4,
            p.len() as int,
        ));
        assert(posting(x.1, e[i].1) =~= words32(ids));
        assert(ids_spec(words32(ids)) =~= ids);
    }
    assert forall|i: int| 0 <= i < keys.len() implies (find_posting(
        Some(x),
        (#[trigger] keys[i]).0,
    ) matches Some(raw) && ids_spec(raw) == keys[i].1) by {
        assert forall|j: int| 0 <= j < i implies (#[trigger] e[j]).0 != e[i].0 by {
            lemma_keys_ordered(keys, j, i);
            lemma_bytes_irreflexive(e[i].0);
        }
        lemma_value_at(e, i);
        assert(posting_ok(x.1, e[i].1));
    }
    assert forall|k: Seq<char>|
        (forall|i: int| 0 <= i < keys.len() ==> (#[trigger] keys[i]).0 != k) implies (
    #[trigger] find_posting(Some(x), k)) is None by {
        assert forall|j: int| 0 <= j < e.len() implies (#[trigger] e[j]).0 != encode_utf8(k) by {
            encode_utf8_decode_utf8(keys[j].0);
            encode_utf8_decode_utf8(k);
            assert(keys[j].0 != k);
        }
        lemma_no_value(e, encode_utf8(k));
    }
}

} // verus!
