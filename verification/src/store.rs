//! The read-only store.
//!
//! Nothing is parsed at run time: candidates are scored on the `pct` and `kind` arrays
//! alone, and only the entry to be shown is read from its record. The store reads byte
//! images, which the program maps into memory from its files.
use crate::bytes::{bytes_less, le32, le64, rd_u32, rd_u64, same_bytes};
use crate::codec::{decode_entry, decode_senses, entry_decoded, senses_decoded};
use crate::fstmap::{
    fst_bytes, fst_get, fst_image, fst_next, fst_open, fst_opens, fst_search, stream_rest, value_at,
    with_prefix, FstEntries,
};
use crate::lane::{Lane, LANES};
use crate::letters::{lower, lowercase};
use crate::model::{sense_views, Entry, EntryView, Sense, SenseView};
use crate::single::Single;
use crate::text::{chars_of, string_of, trim, trimmed};
use vstd::prelude::*;
use vstd::slice::*;
use vstd::string::*;
use vstd::utf8::*;

verus! {

/// Why a store cannot be opened, read or written.
#[derive(Clone, Copy, Debug, PartialEq, Eq, Structural)]
pub enum StoreError {
    /// `meta.bin` is too short for a header or does not begin with the magic bytes.
    NotAStore,
    /// `meta.bin` declares `n` entries and holds `len` bytes, which are too few.
    Truncated { n: usize, len: usize },
    /// The index of a lane, or its table of short prefixes, is no transducer.
    BadIndex { lane: Lane, top: bool },
    /// There is no entry of this number among `n`.
    OutOfRange { id: u32, n: usize },
    /// The record of an entry does not decode.
    BadRecord { id: u32 },
    /// The key at this place of a list does not come after the one before it.
    KeyOrder { at: usize },
}

/// How many characters the tables of short prefixes reach.
pub const MAX_TOP_PREFIX: usize = 2;

/// `ZDICT001`.
pub open spec fn magic() -> Seq<u8> {
    seq![0x5Au8, 0x44u8, 0x49u8, 0x43u8, 0x54u8, 0x30u8, 0x30u8, 0x31u8]
}

// ───────────────────────── postings ─────────────────────────

/// The ids in the bytes of a posting list: four bytes each, a rest of fewer is left out.
pub open spec fn ids_spec(raw: Seq<u8>) -> Seq<u32> {
    Seq::new(raw.len() / 4, |i: int| le32(raw, 4 * i))
}

/// The ids in the bytes of a posting list.
pub fn ids_of(raw: &[u8]) -> (r: Vec<u32>)
    ensures
        r@ == ids_spec(raw@),
{
    let n: usize = raw.len() / 4;
    let mut r: Vec<u32> = Vec::new();
    let mut i: usize = 0;
    while i < n
        invariant
            n == raw.len() / 4,
            i <= n,
            r.len() == i,
            forall|j: int| 0 <= j < i ==> #[trigger] r@[j] == le32(raw@, 4 * j),
        decreases n - i,
    {
        r.push(rd_u32(raw, 4 * i));
        i = i + 1;
    }
    assert(r@ =~= ids_spec(raw@));
    r
}

/// A key length, capped at 255, and an id in one number.
pub open spec fn packed_top(key_len: nat, id: u32) -> u32 {
    ((if key_len < 255 {
        key_len
    } else {
        255
    }) * 0x100_0000 + id) as u32
}

/// Packs a key length and an id for the tables of short prefixes: the length in the high 8
/// bits, the id in the low 24.
pub fn pack_top(key_len: usize, id: u32) -> (r: u32)
    requires
        id < 0x100_0000,
    ensures
        r == packed_top(key_len as nat, id),
{
    let k: u32 = if key_len < 255 {
        key_len as u32
    } else {
        255
    };
    k * 0x100_0000 + id
}

/// The inverse of `pack_top`: the key length and the id.
pub fn unpack_top(v: u32) -> (r: (usize, u32))
    ensures
        r.0 == v / 0x100_0000,
        r.1 == v % 0x100_0000,
{
    ((v / 0x100_0000) as usize, v % 0x100_0000)
}

/// Packing keeps the id, and the key length up to 255.
pub proof fn law_unpack_inverts_pack(key_len: nat, id: u32)
    requires
        id < 0x100_0000,
    ensures
        packed_top(key_len, id) % 0x100_0000 == id,
        packed_top(key_len, id) / 0x100_0000 == if key_len < 255 {
            key_len
        } else {
            255
        },
{
}

// ───────────────────────── the shape of a store ─────────────────────────

/// The images of one index: the transducer and its posting lists.
pub type IndexView = (Seq<u8>, Seq<u8>);

/// The keys of an index with the places of their posting lists.
pub open spec fn keys_of(x: IndexView) -> FstEntries {
    fst_image(x.0).unwrap_or(Seq::empty())
}

/// A posting list stands whole at `off`: its length in four bytes, then its ids.
pub open spec fn posting_ok(post: Seq<u8>, off: u64) -> bool {
    &&& off + 4 <= post.len()
    &&& off + 4 + 4 * le32(post, off as int) <= post.len()
}

/// Whether a posting list stands at `off`. In the files of a build one stands at every number
/// of the index.
pub fn posting_fits(post: &[u8], off: u64) -> (r: bool)
    ensures
        r == posting_ok(post@, off),
{
    let total: usize = post.len();
    if total < 4 || off > (total - 4) as u64 {
        return false;
    }
    let o: usize = off as usize;
    let n: usize = rd_u32(post, o) as usize;
    n <= (total - 4 - o) / 4
}

/// The ids of the posting list at `off`, as bytes.
pub open spec fn posting(post: Seq<u8>, off: u64) -> Seq<u8> {
    post.subrange(off + 4, off + 4 + 4 * le32(post, off as int))
}

/// The keys ascend by their bytes, and none occurs twice.
pub open spec fn entries_ascend(e: FstEntries) -> bool {
    forall|i: int, j: int|
        0 <= i < j < e.len() ==> bytes_less((#[trigger] e[i]).0, (#[trigger] e[j]).0)
}

/// An index whose transducer was written by a builder, from ascending keys, and whose posting
/// lists are whole.
pub open spec fn index_readable(x: IndexView) -> bool {
    &&& fst_image(x.0) is Some
    &&& entries_ascend(keys_of(x))
    &&& forall|i: int| 0 <= i < keys_of(x).len() ==> posting_ok(x.1, #[trigger] keys_of(x)[i].1)
}

/// What a store holds.
#[verifier::ext_equal]
pub struct StoreView {
    pub n: nat,
    pub pct: Seq<Single>,
    pub kind: Seq<u8>,
    pub entries: Seq<u8>,
    pub idx: Seq<u8>,
    /// The records of rewritten senses and where each begins.
    pub overlay: Option<(Seq<u8>, Seq<u8>)>,
    pub lanes: Seq<Option<IndexView>>,
    pub tops: Seq<Option<IndexView>>,
}

/// Where the record of entry `i` begins, or where the one before it ends.
pub open spec fn offset(v: StoreView, i: int) -> int {
    le64(v.idx, 8 * i) as int
}

/// Entry `id` has its place in the record file, if there is such an entry.
pub open spec fn record_readable(v: StoreView, id: u32) -> bool {
    id < v.n ==> 8 * (id + 2) <= v.idx.len() && offset(v, id as int) <= offset(v, id + 1)
        <= v.entries.len()
}

/// Every entry has its place in the record file.
pub open spec fn records_readable(v: StoreView) -> bool {
    &&& 8 * (v.n + 1) <= v.idx.len()
    &&& forall|i: int|
        0 <= i < v.n ==> #[trigger] offset(v, i) <= offset(v, i + 1) <= v.entries.len()
}

/// The index of one lane, where there is one, can be read.
pub open spec fn lane_readable(s: Seq<Option<IndexView>>, lane: Lane) -> bool {
    &&& s.len() == 7
    &&& s[lane.idx_spec() as int] matches Some(x) ==> index_readable(x)
}

pub open spec fn indexes_readable(s: Seq<Option<IndexView>>) -> bool {
    &&& s.len() == 7
    &&& forall|i: int| 0 <= i < 7 ==> (#[trigger] s[i] matches Some(x) ==> index_readable(x))
}

impl StoreView {
    /// The images belong together as a writer left them, so that every read finds its place.
    pub open spec fn readable(self) -> bool {
        &&& self.pct.len() == self.n
        &&& self.kind.len() == self.n
        &&& records_readable(self)
        &&& indexes_readable(self.lanes)
        &&& indexes_readable(self.tops)
    }

    /// The record of entry `i`.
    pub open spec fn record(self, i: int) -> Seq<u8> {
        self.entries.subrange(offset(self, i), offset(self, i + 1))
    }

    /// The posting list of a key in a lane.
    pub open spec fn exact(self, lane: Lane, key: Seq<char>) -> Option<Seq<u8>> {
        find_posting(self.lanes[lane.idx_spec() as int], key)
    }

    /// The precomputed list of a short prefix in a lane.
    pub open spec fn top(self, lane: Lane, prefix: Seq<char>) -> Option<Seq<u8>> {
        find_posting(self.tops[lane.idx_spec() as int], prefix)
    }

    /// The keys of a lane that start with a prefix, each with its posting list.
    pub open spec fn matches(self, lane: Lane, prefix: Seq<char>) -> Seq<(Seq<u8>, Seq<u8>)> {
        match self.lanes[lane.idx_spec() as int] {
            Some(x) => listed(with_prefix(keys_of(x), encode_utf8(prefix)), x.1),
            None => Seq::empty(),
        }
    }

    /// The senses that replace those of entry `id`.
    pub open spec fn rewritten(self, id: u32) -> Option<Seq<SenseView>> {
        match self.overlay {
            Some(ov) => overlay_senses(ov, id),
            None => None,
        }
    }
}

pub open spec fn find_posting(x: Option<IndexView>, key: Seq<char>) -> Option<Seq<u8>> {
    match x {
        Some(x) => match value_at(keys_of(x), encode_utf8(key)) {
            Some(off) => Some(posting(x.1, off)),
            None => None,
        },
        None => None,
    }
}

/// Keys with their posting lists.
pub open spec fn listed(e: FstEntries, post: Seq<u8>) -> Seq<(Seq<u8>, Seq<u8>)> {
    Seq::new(e.len(), |i: int| (e[i].0, posting(post, e[i].1)))
}

// ───────────────────────── the overlay ─────────────────────────

/// Where the record of rewritten senses of `id` stands. An index too short for the id, an
/// empty stretch and one that runs past the end all mean that there is none.
pub open spec fn overlay_range(ov: (Seq<u8>, Seq<u8>), id: u32) -> Option<(int, int)> {
    if (id + 2) * 8 > ov.1.len() {
        None
    } else {
        let a = le64(ov.1, 8 * id) as int;
        let b = le64(ov.1, 8 * id + 8) as int;
        if a < b <= ov.0.len() {
            Some((a, b))
        } else {
            None
        }
    }
}

/// The rewritten senses of `id`.
pub open spec fn overlay_senses(ov: (Seq<u8>, Seq<u8>), id: u32) -> Option<Seq<SenseView>> {
    match overlay_range(ov, id) {
        Some(r) => senses_decoded(ov.0.subrange(r.0, r.1)),
        None => None,
    }
}

/// How many of the first `k` places hold rewritten senses.
pub open spec fn overlay_count(ov: (Seq<u8>, Seq<u8>), k: nat) -> nat
    decreases k,
{
    if k == 0 {
        0
    } else {
        overlay_count(ov, (k - 1) as nat) + if overlay_range(ov, (k - 1) as u32) is Some {
            1nat
        } else {
            0nat
        }
    }
}

/// The senses rewritten for some entries, kept beside the records: building the store anew
/// does not lose them, and they can be made anew alone.
pub struct Overlay<'a> {
    pub bin: &'a [u8],
    pub idx: &'a [u8],
}

impl<'a> Overlay<'a> {
    pub open spec fn spec_view(self) -> (Seq<u8>, Seq<u8>) {
        (self.bin@, self.idx@)
    }

    fn range(&self, id: u32) -> (r: Option<(usize, usize)>)
        ensures
            match r {
                Some(p) => overlay_range(self.spec_view(), id) == Some((p.0 as int, p.1 as int))
                    && p.0 < p.1 <= self.bin.len(),
                None => overlay_range(self.spec_view(), id) is None,
            },
    {
        if (id as u64 + 2) * 8 > self.idx.len() as u64 {
            return None;
        }
        let i: usize = id as usize;
        let a: u64 = rd_u64(self.idx, i * 8);
        let b: u64 = rd_u64(self.idx, i * 8 + 8);
        if a < b && b <= self.bin.len() as u64 {
            Some((a as usize, b as usize))
        } else {
            None
        }
    }

    fn has(&self, id: u32) -> (r: bool)
        ensures
            r == overlay_range(self.spec_view(), id) is Some,
    {
        self.range(id).is_some()
    }

    fn senses(&self, id: u32) -> (r: Option<Vec<Sense>>)
        ensures
            match r {
                Some(s) => overlay_senses(self.spec_view(), id) == Some(sense_views(s@)),
                None => overlay_senses(self.spec_view(), id) is None,
            },
    {
        match self.range(id) {
            Some((a, b)) => decode_senses(slice_subrange(self.bin, a, b)),
            None => None,
        }
    }

    fn count(&self) -> (r: usize)
        ensures
            r == overlay_count(
                self.spec_view(),
                if self.idx@.len() < 8 {
                    0
                } else {
                    (self.idx@.len() / 8 - 1) as nat
                },
            ),
    {
        let n: usize = self.idx.len() / 8;
        let m: usize = if n == 0 {
            0
        } else {
            n - 1
        };
        let mut r: usize = 0;
        let mut i: usize = 0;
        while i < m
            invariant
                i <= m,
                r <= i,
                r == overlay_count(self.spec_view(), i as nat),
            decreases m - i,
        {
            if self.has(i as u32) {
                r = r + 1;
            }
            i = i + 1;
        }
        r
    }
}

// ───────────────────────── opening ─────────────────────────

/// The files of one index, where they exist.
pub struct IndexFiles<'a> {
    pub fst: Option<&'a [u8]>,
    pub post: Option<&'a [u8]>,
}

/// The files of a store.
pub struct StoreFiles<'a> {
    pub meta: &'a [u8],
    pub entries: &'a [u8],
    pub idx: &'a [u8],
    /// The index of each lane, by the lane's number.
    pub lanes: Vec<IndexFiles<'a>>,
    /// The table of short prefixes of each lane, by the lane's number.
    pub tops: Vec<IndexFiles<'a>>,
    pub overlay_bin: Option<&'a [u8]>,
    pub overlay_idx: Option<&'a [u8]>,
}

/// An index counts where both its files exist.
pub open spec fn files_index(f: IndexFiles) -> Option<IndexView> {
    match (f.fst, f.post) {
        (Some(a), Some(b)) => Some((a@, b@)),
        _ => None,
    }
}

pub open spec fn files_indexes(f: Seq<IndexFiles>) -> Seq<Option<IndexView>> {
    Seq::new(f.len(), |i: int| files_index(f[i]))
}

/// The number of entries that the header declares.
pub open spec fn declared(meta: Seq<u8>) -> nat {
    le32(meta, 8) as nat
}

/// What is wrong with the header, if anything.
pub open spec fn meta_fault(meta: Seq<u8>) -> Option<StoreError> {
    if meta.len() < 12 || meta.take(8) != magic() {
        Some(StoreError::NotAStore)
    } else if meta.len() < 12 + 5 * declared(meta) {
        Some(StoreError::Truncated { n: declared(meta) as usize, len: meta.len() as usize })
    } else {
        None
    }
}

/// The image at place `k`: the lanes in order, each with its table of short prefixes.
pub open spec fn image_at(f: StoreFiles, k: int) -> Option<IndexView> {
    if k % 2 == 0 {
        files_index(f.lanes@[k / 2])
    } else {
        files_index(f.tops@[k / 2])
    }
}

pub open spec fn opens(x: Option<IndexView>) -> bool {
    x matches Some(x) ==> fst_opens(x.0)
}

/// The first image from place `k` on that is no transducer.
pub open spec fn bad_image(f: StoreFiles, k: int) -> Option<StoreError>
    decreases 14 - k,
{
    if k < 0 || k >= 14 {
        None
    } else if !opens(image_at(f, k)) {
        Some(StoreError::BadIndex { lane: LANES@[k / 2], top: k % 2 == 1 })
    } else {
        bad_image(f, k + 1)
    }
}

/// Why the files are refused, if they are: the header first, then the indexes in order.
pub open spec fn open_fault(f: StoreFiles) -> Option<StoreError> {
    match meta_fault(f.meta@) {
        Some(e) => Some(e),
        None => bad_image(f, 0),
    }
}

/// What the opened store holds.
pub open spec fn opened(f: StoreFiles, with_overlay: bool) -> StoreView {
    let n = declared(f.meta@);
    StoreView {
        n,
        pct: Seq::new(n, |i: int| (Single { bits: le32(f.meta@, 12 + 4 * i) })),
        kind: f.meta@.subrange((12 + 4 * n) as int, (12 + 5 * n) as int),
        entries: f.entries@,
        idx: f.idx@,
        overlay: match (f.overlay_bin, f.overlay_idx) {
            (Some(a), Some(b)) => if with_overlay {
                Some((a@, b@))
            } else {
                None
            },
            _ => None,
        },
        lanes: files_indexes(f.lanes@),
        tops: files_indexes(f.tops@),
    }
}

/// One index.
pub struct LaneIndex<'a> {
    pub fst: fst::Map<&'a [u8]>,
    pub post: &'a [u8],
}

pub open spec fn lane_index_view(x: Option<LaneIndex>) -> Option<IndexView> {
    match x {
        Some(x) => Some((fst_bytes(x.fst), x.post@)),
        None => None,
    }
}

pub open spec fn lane_index_views(s: Seq<Option<LaneIndex>>) -> Seq<Option<IndexView>> {
    Seq::new(s.len(), |i: int| lane_index_view(s[i]))
}

pub struct Store<'a> {
    pub n: usize,
    /// The percentile of each entry within its own corpus. Counts and ranks have different
    /// units, so scores compare percentiles alone.
    pub pct: Vec<Single>,
    pub kind: Vec<u8>,
    pub entries: &'a [u8],
    pub idx: &'a [u8],
    pub overlay: Option<Overlay<'a>>,
    pub lanes: Vec<Option<LaneIndex<'a>>>,
    /// The tables of short prefixes, made for the prefixes with many keys.
    pub tops: Vec<Option<LaneIndex<'a>>>,
}

impl<'a> View for Store<'a> {
    type V = StoreView;

    open spec fn view(&self) -> StoreView {
        StoreView {
            n: self.n as nat,
            pct: self.pct@,
            kind: self.kind@,
            entries: self.entries@,
            idx: self.idx@,
            overlay: match self.overlay {
                Some(ov) => Some(ov.spec_view()),
                None => None,
            },
            lanes: lane_index_views(self.lanes@),
            tops: lane_index_views(self.tops@),
        }
    }
}

fn load<'a>(f: &IndexFiles<'a>, lane: Lane, top: bool) -> (r: Result<
    Option<LaneIndex<'a>>,
    StoreError,
>)
    ensures
        match r {
            Ok(x) => opens(files_index(*f)) && lane_index_view(x) == files_index(*f),
            Err(e) => !opens(files_index(*f)) && e == (StoreError::BadIndex { lane, top }),
        },
{
    match (f.fst, f.post) {
        (Some(a), Some(b)) => match fst_open(a) {
            Ok(m) => Ok(Some(LaneIndex { fst: m, post: b })),
            Err(_) => Err(StoreError::BadIndex { lane, top }),
        },
        _ => Ok(None),
    }
}

/// Reads the percentiles of the header.
fn read_pct(meta: &[u8], n: usize) -> (r: Vec<Single>)
    requires
        12 + 4 * n <= meta.len(),
    ensures
        r@ == Seq::new(n as nat, |i: int| (Single { bits: le32(meta@, 12 + 4 * i) })),
{
    let mut r: Vec<Single> = Vec::new();
    let mut i: usize = 0;
    while i < n
        invariant
            12 + 4 * n <= meta.len(),
            i <= n,
            r.len() == i,
            forall|j: int|
                0 <= j < i ==> #[trigger] r@[j] == (Single { bits: le32(meta@, 12 + 4 * j) }),
        decreases n - i,
    {
        r.push(Single { bits: rd_u32(meta, 12 + 4 * i) });
        i = i + 1;
    }
    assert(r@ =~= Seq::new(n as nat, |i: int| (Single { bits: le32(meta@, 12 + 4 * i) })));
    r
}

fn is_magic(meta: &[u8]) -> (r: bool)
    requires
        meta@.len() >= 8,
    ensures
        r == (meta@.take(8) == magic()),
{
    let m: [u8; 8] = [0x5A, 0x44, 0x49, 0x43, 0x54, 0x30, 0x30, 0x31];
    assert(m@ =~= magic());
    assert(meta@.take(8) =~= meta@.subrange(0, 8));
    same_bytes(slice_subrange(meta, 0, 8), &m)
}

impl<'a> Store<'a> {
    /// Opens a store with the rewritten senses, where there are any.
    pub fn open(f: &StoreFiles<'a>) -> (r: Result<Store<'a>, StoreError>)
        requires
            f.lanes.len() == 7,
            f.tops.len() == 7,
        ensures
            match r {
                Ok(s) => open_fault(*f) is None && s@ == opened(*f, true),
                Err(e) => open_fault(*f) == Some(e),
            },
    {
        Store::open_inner(f, true)
    }

    /// Opens a store without the rewritten senses.
    ///
    /// Everything that builds goes this way: rewriting starts from the senses of the source,
    /// and senses rewritten before would drift a little further each time.
    pub fn open_raw(f: &StoreFiles<'a>) -> (r: Result<Store<'a>, StoreError>)
        requires
            f.lanes.len() == 7,
            f.tops.len() == 7,
        ensures
            match r {
                Ok(s) => open_fault(*f) is None && s@ == opened(*f, false),
                Err(e) => open_fault(*f) == Some(e),
            },
    {
        Store::open_inner(f, false)
    }

    fn open_inner(f: &StoreFiles<'a>, with_overlay: bool) -> (r: Result<Store<'a>, StoreError>)
        requires
            f.lanes.len() == 7,
            f.tops.len() == 7,
        ensures
            match r {
                Ok(s) => open_fault(*f) is None && s@ == opened(*f, with_overlay),
                Err(e) => open_fault(*f) == Some(e),
            },
    {
        let meta = f.meta;
        if meta.len() < 12 || !is_magic(meta) {
            return Err(StoreError::NotAStore);
        }
        let count: u32 = rd_u32(meta, 8);
        let n: usize = count as usize;
        if (meta.len() as u64) < 12 + 5 * (count as u64) {
            return Err(StoreError::Truncated { n, len: meta.len() });
        }
        let pct = read_pct(meta, n);
        let kind = slice_to_vec(slice_subrange(meta, 12 + 4 * n, 12 + 5 * n));
        let mut lanes: Vec<Option<LaneIndex<'a>>> = Vec::new();
        let mut tops: Vec<Option<LaneIndex<'a>>> = Vec::new();
        let mut i: usize = 0;
        while i < 7
            invariant
                f.lanes.len() == 7,
                f.tops.len() == 7,
                i <= 7,
                lanes.len() == i,
                tops.len() == i,
                meta_fault(f.meta@) is None,
                bad_image(*f, 0) == bad_image(*f, 2 * i),
                forall|j: int|
                    0 <= j < i ==> lane_index_view(#[trigger] lanes@[j]) == files_index(
                        f.lanes@[j],
                    ),
                forall|j: int|
                    0 <= j < i ==> lane_index_view(#[trigger] tops@[j]) == files_index(f.tops@[j]),
            decreases 7 - i,
        {
            let lane = LANES[i];
            proof {
                assert(LANES@[i as int] == lane);
                assert((2 * i) / 2 == i && (2 * i) % 2 == 0);
                assert((2 * i + 1) / 2 == i && (2 * i + 1) % 2 == 1);
                assert(image_at(*f, 2 * i) == files_index(f.lanes@[i as int]));
                assert(image_at(*f, 2 * i + 1) == files_index(f.tops@[i as int]));
            }
            match load(&f.lanes[i], lane, false) {
                Ok(x) => {
                    lanes.push(x);
                },
                Err(e) => {
                    return Err(e);
                },
            }
            match load(&f.tops[i], lane, true) {
                Ok(x) => {
                    tops.push(x);
                },
                Err(e) => {
                    assert(bad_image(*f, 2 * i) == bad_image(*f, 2 * i + 1));
                    return Err(e);
                },
            }
            proof {
                assert(bad_image(*f, 2 * i) == bad_image(*f, 2 * i + 1));
                assert(bad_image(*f, 2 * i + 1) == bad_image(*f, 2 * i + 2));
            }
            i = i + 1;
        }
        let overlay: Option<Overlay<'a>> = match (f.overlay_bin, f.overlay_idx) {
            (Some(bin), Some(idx)) => if with_overlay {
                Some(Overlay { bin, idx })
            } else {
                None
            },
            _ => None,
        };
        let s = Store { n, pct, kind, entries: f.entries, idx: f.idx, overlay, lanes, tops };
        proof {
            assert(bad_image(*f, 14) is None);
            let v = opened(*f, with_overlay);
            assert(s@.lanes =~= v.lanes);
            assert(s@.tops =~= v.tops);
            assert(s@ =~= v);
        }
        Ok(s)
    }
}

// ───────────────────────── reading ─────────────────────────

/// A stored number belongs to one of the entries.
pub proof fn lemma_value_listed(e: FstEntries, key: Seq<u8>)
    ensures
        value_at(e, key) matches Some(v) ==> exists|i: int|
            0 <= i < e.len() && (#[trigger] e[i]) == (key, v),
    decreases e.len(),
{
    if e.len() > 0 {
        if e[0].0 == key {
            assert(e[0] == (key, e[0].1));
        } else {
            lemma_value_listed(e.drop_first(), key);
            if let Some(v) = value_at(e.drop_first(), key) {
                let i = choose|i: int|
                    0 <= i < e.drop_first().len() && (#[trigger] e.drop_first()[i]) == (key, v);
                assert(e[i + 1] == (key, v));
            }
        }
    }
}

/// The entry that a record holds, or why it cannot be had.
pub open spec fn entry_result(v: StoreView, id: u32) -> Result<EntryView, StoreError> {
    if id >= v.n {
        Err(StoreError::OutOfRange { id, n: v.n as usize })
    } else {
        match entry_decoded(v.record(id as int)) {
            Some(e) => Ok(e),
            None => Err(StoreError::BadRecord { id }),
        }
    }
}

/// An entry with its senses replaced where they were rewritten.
pub open spec fn with_overlay(v: StoreView, id: u32, e: EntryView) -> EntryView {
    match v.rewritten(id) {
        Some(s) => EntryView { senses: s, ..e },
        None => e,
    }
}

/// The id with the greatest percentile, the last of several.
pub open spec fn best_id(ids: Seq<u32>, pct: Seq<Single>) -> Option<u32>
    decreases ids.len(),
{
    if ids.len() == 0 {
        None
    } else {
        let y = ids.last();
        match best_id(ids.drop_last(), pct) {
            None => Some(y),
            Some(b) => if pct[y as int].less_spec(pct[b as int]) {
                Some(b)
            } else {
                Some(y)
            },
        }
    }
}

/// The best entry under a key of one lane.
pub open spec fn best_in(v: StoreView, lane: Lane, key: Seq<char>) -> Option<u32> {
    match v.exact(lane, key) {
        Some(raw) => best_id(ids_spec(raw), v.pct),
        None => None,
    }
}

/// The headword spelt so, on the Chinese side first.
pub open spec fn looked_up(v: StoreView, word: Seq<char>) -> Option<u32> {
    let key = lowercase(trimmed(word));
    match best_in(v, Lane::Zh, key) {
        Some(id) => Some(id),
        None => best_in(v, Lane::Enw, key),
    }
}

/// Where a key has several entries in a lane, all of them have a percentile.
pub open spec fn comparable(v: StoreView, lane: Lane, key: Seq<char>) -> bool {
    v.exact(lane, key) matches Some(raw) ==> ids_spec(raw).len() <= 1 || forall|i: int|
        0 <= i < ids_spec(raw).len() ==> #[trigger] ids_spec(raw)[i] < v.n
}

/// Whether the entries of a word can be told apart by how common they are.
pub open spec fn word_comparable(v: StoreView, word: Seq<char>) -> bool {
    let key = lowercase(trimmed(word));
    comparable(v, Lane::Zh, key) && comparable(v, Lane::Enw, key)
}

fn best_of(ids: &Vec<u32>, pct: &Vec<Single>) -> (r: Option<u32>)
    requires
        ids@.len() <= 1 || forall|i: int| 0 <= i < ids@.len() ==> #[trigger] ids@[i] < pct@.len(),
    ensures
        r == best_id(ids@, pct@),
        r matches Some(b) ==> ids@.contains(b),
{
    let mut best: Option<u32> = None;
    let mut i: usize = 0;
    assert(ids@.take(0) =~= Seq::<u32>::empty());
    while i < ids.len()
        invariant
            ids@.len() <= 1 || forall|i: int|
                0 <= i < ids@.len() ==> #[trigger] ids@[i] < pct@.len(),
            i <= ids.len(),
            best == best_id(ids@.take(i as int), pct@),
            best is None ==> i == 0,
            best matches Some(b) ==> ids@.contains(b) && i >= 1,
        decreases ids.len() - i,
    {
        let y: u32 = ids[i];
        proof {
            assert(ids@.take(i as int + 1).drop_last() =~= ids@.take(i as int));
            assert(ids@[i as int] == y);
        }
        match best {
            None => {
                best = Some(y);
            },
            Some(b) => {
                if !pct[y as usize].less(pct[b as usize]) {
                    best = Some(y);
                }
            },
        }
        i = i + 1;
    }
    assert(ids@.take(i as int) =~= ids@);
    best
}

impl<'a> LaneIndex<'a> {
    pub open spec fn spec_view(self) -> IndexView {
        (fst_bytes(self.fst), self.post@)
    }

    /// A posting list, without its length.
    fn ids_raw(&self, off: u64) -> (r: &'a [u8])
        requires
            posting_ok(self.post@, off),
        ensures
            r@ == posting(self.post@, off),
    {
        let total: usize = self.post.len();
        assert(off + 4 <= total);
        let o: usize = off as usize;
        let n: usize = rd_u32(self.post, o) as usize;
        slice_subrange(self.post, o + 4, o + 4 + 4 * n)
    }

    fn find(&self, key: &str) -> (r: Option<&'a [u8]>)
        requires
            index_readable(self.spec_view()),
        ensures
            match r {
                Some(raw) => find_posting(Some(self.spec_view()), key@) == Some(raw@),
                None => find_posting(Some(self.spec_view()), key@) is None,
            },
    {
        proof {
            lemma_value_listed(keys_of(self.spec_view()), encode_utf8(key@));
        }
        match fst_get(&self.fst, key.as_bytes()) {
            Some(off) => {
                proof {
                    let e = keys_of(self.spec_view());
                    let i = choose|i: int|
                        0 <= i < e.len() && (#[trigger] e[i]) == (encode_utf8(key@), off);
                    assert(e[i].1 == off);
                }
                Some(self.ids_raw(off))
            },
            None => None,
        }
    }
}

impl<'a> Store<'a> {
    /// The entry of an id, with the senses rewritten for it, if any. What the source had is
    /// still in `raw`.
    pub fn entry(&self, id: u32) -> (r: Result<Entry, StoreError>)
        requires
            record_readable(self@, id),
        ensures
            match r {
                Ok(e) => entry_result(self@, id) is Ok && e@ == with_overlay(
                    self@,
                    id,
                    entry_result(self@, id)->Ok_0,
                ),
                Err(x) => entry_result(self@, id) == Err::<EntryView, StoreError>(x),
            },
    {
        let mut e = match self.entry_raw(id) {
            Ok(e) => e,
            Err(x) => {
                return Err(x);
            },
        };
        match &self.overlay {
            Some(ov) => {
                match ov.senses(id) {
                    Some(s) => {
                        e.senses = s;
                    },
                    None => {},
                }
            },
            None => {},
        }
        assert(e@ =~= with_overlay(self@, id, entry_result(self@, id)->Ok_0));
        Ok(e)
    }

    /// The entry of an id as the source has it, whatever was rewritten.
    ///
    /// Rewritten senses are held against these: against senses rewritten before, which are
    /// fewer, sound results would be refused, and more of them with every round.
    pub fn entry_raw(&self, id: u32) -> (r: Result<Entry, StoreError>)
        requires
            record_readable(self@, id),
        ensures
            match r {
                Ok(e) => entry_result(self@, id) == Ok::<EntryView, StoreError>(e@),
                Err(x) => entry_result(self@, id) == Err::<EntryView, StoreError>(x),
            },
    {
        let i: usize = id as usize;
        if i >= self.n {
            return Err(StoreError::OutOfRange { id, n: self.n });
        }
        let total: usize = self.idx.len();
        let end: usize = self.entries.len();
        assert(8 * (i + 2) <= total);
        assert(offset(self@, i as int) <= offset(self@, i + 1) <= end);
        let a: usize = rd_u64(self.idx, 8 * i) as usize;
        let b: usize = rd_u64(self.idx, 8 * i + 8) as usize;
        assert(8 * (i + 1) == 8 * i + 8);
        match decode_entry(slice_subrange(self.entries, a, b)) {
            Some(e) => Ok(e),
            None => Err(StoreError::BadRecord { id }),
        }
    }

    /// Whether every entry has its place in the record file. In the files of a build each has.
    pub fn records_fit(&self) -> (r: bool)
        ensures
            r == records_readable(self@),
    {
        let end: u64 = self.entries.len() as u64;
        if self.n >= self.idx.len() / 8 {
            return false;
        }
        let mut i: usize = 0;
        while i < self.n
            invariant
                i <= self.n,
                8 * (self.n + 1) <= self.idx.len(),
                end == self.entries@.len(),
                forall|j: int|
                    0 <= j < i ==> #[trigger] offset(self@, j) <= offset(self@, j + 1)
                        <= self@.entries.len(),
            decreases self.n - i,
        {
            let a: u64 = rd_u64(self.idx, 8 * i);
            let b: u64 = rd_u64(self.idx, 8 * i + 8);
            assert(8 * (i + 1) == 8 * i + 8);
            assert(offset(self@, i as int) == a && offset(self@, i + 1) == b);
            if a > b || b > end {
                return false;
            }
            i = i + 1;
        }
        let ghost v = self@;
        assert forall|j: int| 0 <= j < v.n implies #[trigger] offset(v, j) <= offset(v, j + 1)
            <= v.entries.len() by {
            assert(0 <= j < i);
        }
        assert(records_readable(v));
        true
    }

    /// Whether the senses of an entry were rewritten.
    pub fn is_rewritten(&self, id: u32) -> (r: bool)
        ensures
            r == match self@.overlay {
                Some(ov) => overlay_range(ov, id) is Some,
                None => false,
            },
    {
        match &self.overlay {
            Some(ov) => ov.has(id),
            None => false,
        }
    }

    /// For how many entries the senses were rewritten.
    pub fn overlay_len(&self) -> (r: usize)
        ensures
            r == match self@.overlay {
                Some(ov) => overlay_count(
                    ov,
                    if ov.1.len() < 8 {
                        0
                    } else {
                        (ov.1.len() / 8 - 1) as nat
                    },
                ),
                None => 0,
            },
    {
        match &self.overlay {
            Some(ov) => ov.count(),
            None => 0,
        }
    }

    pub fn has_lane(&self, lane: Lane) -> (r: bool)
        requires
            self.lanes.len() == 7,
        ensures
            r == self@.lanes[lane.idx_spec() as int] is Some,
    {
        self.lanes[lane.idx()].is_some()
    }

    /// The keys of a lane that start with `prefix`, by ascending key, with their posting
    /// lists. At most `budget` keys are visited: as many as `budget` means that the scan was
    /// cut short.
    pub fn scan_prefix(&self, lane: Lane, prefix: &str, budget: usize) -> (r: Vec<
        (Vec<u8>, &'a [u8]),
    >)
        requires
            lane_readable(self@.lanes, lane),
        ensures
            r.len() == visited_len(self@, lane, prefix@, budget as nat),
            forall|i: int|
                0 <= i < r.len() ==> (#[trigger] r@[i]).0@ == self@.matches(lane, prefix@)[i].0
                    && r@[i].1@ == self@.matches(lane, prefix@)[i].1,
            forall|i: int, j: int|
                0 <= i < j < r.len() ==> bytes_less(
                    (#[trigger] r@[i]).0@,
                    (#[trigger] r@[j]).0@,
                ),
    {
        let mut r: Vec<(Vec<u8>, &'a [u8])> = Vec::new();
        let at: usize = lane.idx();
        assert(self@.lanes[at as int] == lane_index_view(self.lanes@[at as int]));
        let li = match &self.lanes[at] {
            Some(li) => li,
            None => {
                return r;
            },
        };
        let ghost x = li.spec_view();
        let ghost all = with_prefix(keys_of(x), encode_utf8(prefix@));
        let mut stream = fst_search(&li.fst, prefix);
        let mut done: bool = false;
        assert(all.skip(0) =~= all);
        while !done && r.len() < budget
            invariant
                self@.lanes[lane.idx_spec() as int] == Some(x),
                index_readable(x),
                x == li.spec_view(),
                all == with_prefix(keys_of(x), encode_utf8(prefix@)),
                r.len() <= all.len(),
                !done ==> stream_rest(stream) == all.skip(r.len() as int),
                r.len() <= budget,
                done ==> r.len() == visited_len(self@, lane, prefix@, budget as nat),
                forall|i: int|
                    0 <= i < r.len() ==> (#[trigger] r@[i]).0@ == self@.matches(lane, prefix@)[i].0
                        && r@[i].1@ == self@.matches(lane, prefix@)[i].1,
            decreases
                all.len() - r.len() + if done {
                    0int
                } else {
                    1int
                },
        {
            match fst_next(&mut stream) {
                Some((key, off)) => {
                    proof {
                        let k = r.len() as int;
                        assert(all.skip(k)[0] == all[k]);
                        assert(all.skip(k).drop_first() =~= all.skip(k + 1));
                        lemma_prefix_listed(keys_of(x), encode_utf8(prefix@), k);
                        let i = choose|i: int|
                            0 <= i < keys_of(x).len() && (#[trigger] keys_of(x)[i]) == all[k];
                        assert(keys_of(x)[i].1 == off);
                    }
                    r.push((key, li.ids_raw(off)));
                },
                None => {
                    done = true;
                },
            }
        }
        proof {
            lemma_prefix_ascends(keys_of(x), encode_utf8(prefix@));
            assert forall|i: int, j: int| 0 <= i < j < r.len() implies bytes_less(
                (#[trigger] r@[i]).0@,
                (#[trigger] r@[j]).0@,
            ) by {
                assert(r@[i].0@ == all[i].0 && r@[j].0@ == all[j].0);
            }
        }
        r
    }

    /// The precomputed list of a short prefix, packed by `pack_top`. Where there is none the
    /// caller scans.
    pub fn top_postings(&self, lane: Lane, prefix: &str) -> (r: Option<&'a [u8]>)
        requires
            lane_readable(self@.tops, lane),
        ensures
            match r {
                Some(raw) => self@.top(lane, prefix@) == Some(raw@),
                None => self@.top(lane, prefix@) is None,
            },
    {
        let at: usize = lane.idx();
        assert(self@.tops[at as int] == lane_index_view(self.tops@[at as int]));
        match &self.tops[at] {
            Some(li) => li.find(prefix),
            None => None,
        }
    }

    /// The posting list of one key. It saves the exact hit where a scan was cut short.
    pub fn exact_key(&self, lane: Lane, key: &str) -> (r: Option<&'a [u8]>)
        requires
            lane_readable(self@.lanes, lane),
        ensures
            match r {
                Some(raw) => self@.exact(lane, key@) == Some(raw@),
                None => self@.exact(lane, key@) is None,
            },
    {
        let at: usize = lane.idx();
        assert(self@.lanes[at as int] == lane_index_view(self.lanes@[at as int]));
        match &self.lanes[at] {
            Some(li) => li.find(key),
            None => None,
        }
    }

    /// The headword spelt so, on the Chinese side first. One spelling may have several
    /// entries with different readings; the most common one is taken.
    pub fn lookup_word(&self, word: &str) -> (r: Option<u32>)
        requires
            self@.readable(),
            word_comparable(self@, word@),
        ensures
            r == looked_up(self@, word@),
    {
        let c = chars_of(word);
        let l = lower(trim(&c));
        let key = string_of(&l);
        match self.exact_key(Lane::Zh, key.as_str()) {
            Some(raw) => {
                let ids = ids_of(raw);
                let best = best_of(&ids, &self.pct);
                if best.is_some() {
                    return best;
                }
            },
            None => {},
        }
        match self.exact_key(Lane::Enw, key.as_str()) {
            Some(raw) => {
                let ids = ids_of(raw);
                best_of(&ids, &self.pct)
            },
            None => None,
        }
    }

    /// Whether a key has one entry at most in a lane, or only entries of this store.
    fn can_compare(&self, lane: Lane, key: &str) -> (r: bool)
        requires
            self@.readable(),
        ensures
            r == comparable(self@, lane, key@),
    {
        match self.exact_key(lane, key) {
            Some(raw) => {
                let ids = ids_of(raw);
                if ids.len() <= 1 {
                    return true;
                }
                let mut i: usize = 0;
                while i < ids.len()
                    invariant
                        self@.exact(lane, key@) == Some(raw@),
                        ids@ == ids_spec(raw@),
                        ids@.len() > 1,
                        self@.pct.len() == self@.n,
                        self@.pct == self.pct@,
                        i <= ids.len(),
                        forall|j: int| 0 <= j < i ==> #[trigger] ids@[j] < self@.n,
                    decreases ids.len() - i,
                {
                    if ids[i] as usize >= self.pct.len() {
                        assert(ids@[i as int] >= self@.n);
                        return false;
                    }
                    i = i + 1;
                }
                true
            },
            None => true,
        }
    }

    /// Looks a headword up like `lookup_word`, or gives nothing where the index lists an
    /// entry that the store does not have beside another one.
    pub fn try_lookup_word(&self, word: &str) -> (r: Option<Option<u32>>)
        requires
            self@.readable(),
        ensures
            match r {
                Some(found) => word_comparable(self@, word@) && found == looked_up(self@, word@),
                None => !word_comparable(self@, word@),
            },
    {
        let c = chars_of(word);
        let l = lower(trim(&c));
        let key = string_of(&l);
        if self.can_compare(Lane::Zh, key.as_str()) && self.can_compare(Lane::Enw, key.as_str()) {
            Some(self.lookup_word(word))
        } else {
            None
        }
    }
}

/// How many keys a scan visits.
pub open spec fn visited_len(v: StoreView, lane: Lane, prefix: Seq<char>, budget: nat) -> nat {
    let all = v.matches(lane, prefix).len();
    if all <= budget {
        all
    } else {
        budget
    }
}

/// The entries found by prefix ascend like the keys of the index.
proof fn lemma_prefix_ascends(e: FstEntries, prefix: Seq<u8>)
    requires
        entries_ascend(e),
    ensures
        entries_ascend(with_prefix(e, prefix)),
    decreases e.len(),
{
    reveal(Seq::filter);
    let f = |x: (Seq<u8>, u64)| prefix.is_prefix_of(x.0);
    let r = with_prefix(e, prefix);
    if e.len() > 0 {
        let d = e.drop_last();
        let s = with_prefix(d, prefix);
        assert forall|i: int, j: int| 0 <= i < j < d.len() implies bytes_less(
            (#[trigger] d[i]).0,
            (#[trigger] d[j]).0,
        ) by {
            assert(d[i] == e[i] && d[j] == e[j]);
        }
        lemma_prefix_ascends(d, prefix);
        assert(r == if f(e.last()) {
            s.push(e.last())
        } else {
            s
        });
        assert forall|i: int, j: int| 0 <= i < j < r.len() implies bytes_less(
            (#[trigger] r[i]).0,
            (#[trigger] r[j]).0,
        ) by {
            if j < s.len() {
                assert(bytes_less(s[i].0, s[j].0));
            } else {
                lemma_prefix_listed(d, prefix, i);
                let k = choose|k: int| 0 <= k < d.len() && (#[trigger] d[k]) == s[i];
                assert(e[k] == r[i] && e[e.len() - 1] == r[j]);
            }
        }
    }
}

/// The entries found by prefix are among the keys of the index.
proof fn lemma_prefix_listed(e: FstEntries, prefix: Seq<u8>, k: int)
    requires
        0 <= k < with_prefix(e, prefix).len(),
    ensures
        exists|i: int| 0 <= i < e.len() && (#[trigger] e[i]) == with_prefix(e, prefix)[k],
    decreases e.len(),
{
    reveal(Seq::filter);
    let f = |x: (Seq<u8>, u64)| prefix.is_prefix_of(x.0);
    let short = with_prefix(e.drop_last(), prefix);
    if k < short.len() {
        lemma_prefix_listed(e.drop_last(), prefix, k);
        let i = choose|i: int|
            0 <= i < e.drop_last().len() && (#[trigger] e.drop_last()[i]) == short[k];
        assert(e[i] == with_prefix(e, prefix)[k]);
    } else {
        assert(e[e.len() - 1] == with_prefix(e, prefix)[k]);
    }
}

/// The overlay changes the senses of an entry and nothing else of it.
pub proof fn law_overlay_changes_senses_alone(v: StoreView, id: u32, e: EntryView)
    ensures
        with_overlay(v, id, e) == (EntryView { senses: with_overlay(v, id, e).senses, ..e }),
        v.rewritten(id) is None ==> with_overlay(v, id, e) == e,
        v.rewritten(id) matches Some(s) ==> with_overlay(v, id, e).senses == s,
{
}

/// What `entry_raw` reads does not depend on the overlay.
pub proof fn law_entry_raw_never_sees_the_overlay(
    v: StoreView,
    w: Option<(Seq<u8>, Seq<u8>)>,
    id: u32,
)
    ensures
        entry_result(StoreView { overlay: w, ..v }, id) == entry_result(v, id),
{
    assert(forall|i: int|
        #[trigger] (StoreView { overlay: w, ..v }).record(i) == v.record(i));
}

/// A store opened raw has no rewritten senses, whatever the files hold.
pub proof fn law_open_raw_never_loads_the_overlay(f: StoreFiles, id: u32, e: EntryView)
    ensures
        opened(f, false).overlay is None,
        opened(f, false).rewritten(id) is None,
        with_overlay(opened(f, false), id, e) == e,
{
}

/// An overlay whose index is too short for an entry leaves the entry as it is.
pub proof fn law_truncated_overlay_is_ignored(v: StoreView, id: u32, e: EntryView)
    requires
        v.overlay matches Some(ov) ==> ov.1.len() < 8 * (id + 2),
    ensures
        v.rewritten(id) is None,
        with_overlay(v, id, e) == e,
{
}

/// An entry is read exactly where there is one of its number and its record decodes; what
/// cannot be read is told apart.
pub proof fn law_when_an_entry_is_read(v: StoreView, id: u32)
    ensures
        id >= v.n ==> entry_result(v, id) == Err::<EntryView, StoreError>(
            StoreError::OutOfRange { id, n: v.n as usize },
        ),
        id < v.n && entry_decoded(v.record(id as int)) is Some ==> entry_result(v, id) == Ok::<
            EntryView,
            StoreError,
        >(entry_decoded(v.record(id as int))->0),
        id < v.n && entry_decoded(v.record(id as int)) is None ==> entry_result(v, id) == Err::<
            EntryView,
            StoreError,
        >(StoreError::BadRecord { id }),
{
}

/// A store is refused where its header is not that of a store or has fewer bytes than its
/// entries take.
pub proof fn law_which_headers_are_refused(meta: Seq<u8>)
    ensures
        meta.len() < 12 ==> meta_fault(meta) == Some(StoreError::NotAStore),
        meta.len() >= 12 && meta.take(8) != seq![
            0x5Au8,
            0x44u8,
            0x49u8,
            0x43u8,
            0x54u8,
            0x30u8,
            0x30u8,
            0x31u8,
        ] ==> meta_fault(meta) == Some(StoreError::NotAStore),
        meta.len() >= 12 && meta.take(8) == seq![
            0x5Au8,
            0x44u8,
            0x49u8,
            0x43u8,
            0x54u8,
            0x30u8,
            0x30u8,
            0x31u8,
        ] && meta.len() < 12 + 5 * le32(meta, 8) ==> meta_fault(meta) == Some(
            StoreError::Truncated { n: le32(meta, 8) as usize, len: meta.len() as usize },
        ),
        meta_fault(meta) is None ==> meta.len() >= 12 + 5 * le32(meta, 8),
{
}

/// The first index that does not open is named: the lanes in order, each before its table.
pub proof fn law_the_first_bad_index_is_named(f: StoreFiles, k: int, j: int)
    requires
        0 <= j <= k < 14,
        !opens(image_at(f, k)),
        forall|i: int| j <= i < k ==> opens(#[trigger] image_at(f, i)),
    ensures
        bad_image(f, j) == Some(StoreError::BadIndex { lane: LANES@[k / 2], top: k % 2 == 1 }),
    decreases k - j,
{
    if j < k {
        assert(opens(image_at(f, j)));
        law_the_first_bad_index_is_named(f, k, j + 1);
    }
}

/// The entries with rewritten senses are counted one by one.
pub proof fn law_rewritten_entries_are_counted(ov: (Seq<u8>, Seq<u8>), k: nat)
    ensures
        overlay_count(ov, (k + 1) as nat) == overlay_count(ov, k) + if overlay_range(
            ov,
            k as u32,
        ) is Some {
            1nat
        } else {
            0nat
        },
        overlay_count(ov, 0) == 0,
{
}

/// A short list is packed by its length and its entry, and the ids of a posting list are its
/// bytes by fours, the low byte first.
pub proof fn law_ids_are_read_by_fours(raw: Seq<u8>, i: int)
    ensures
        ids_spec(raw).len() == raw.len() / 4,
        0 <= i < raw.len() / 4 ==> ids_spec(raw)[i] == raw[4 * i] + 0x100 * raw[4 * i + 1] + 0x1_0000
            * raw[4 * i + 2] + 0x100_0000 * raw[4 * i + 3],
{
}

/// A header that begins as it must and is long enough is taken.
pub proof fn law_which_headers_are_taken(meta: Seq<u8>)
    requires
        meta.len() >= 12 + 5 * le32(meta, 8),
        meta[0] == 0x5A && meta[1] == 0x44 && meta[2] == 0x49 && meta[3] == 0x43,
        meta[4] == 0x54 && meta[5] == 0x30 && meta[6] == 0x30 && meta[7] == 0x31,
    ensures
        meta.len() >= 12 ==> meta_fault(meta) is None,
{
    if meta.len() >= 12 {
        assert(meta.take(8) =~= magic());
    }
}

/// Where nothing is wrong with an index from place `k` on, no index is named.
pub proof fn law_sound_indexes_are_taken(f: StoreFiles, k: int)
    requires
        0 <= k <= 14,
        forall|i: int| k <= i < 14 ==> opens(#[trigger] image_at(f, i)),
    ensures
        bad_image(f, k) is None,
        k == 0 ==> open_fault(f) == meta_fault(f.meta@),
        k == 0 && meta_fault(f.meta@) is Some ==> open_fault(f) is Some,
    decreases 14 - k,
{
    if k < 14 {
        assert(opens(image_at(f, k)));
        law_sound_indexes_are_taken(f, k + 1);
    }
}

/// The header is looked at before the indexes.
pub proof fn law_the_header_comes_first(f: StoreFiles)
    ensures
        meta_fault(f.meta@) is Some ==> open_fault(f) == meta_fault(f.meta@),
        meta_fault(f.meta@) is None ==> open_fault(f) == bad_image(f, 0),
        forall|i: int| 0 <= i < 7 ==> #[trigger] image_at(f, 2 * i) == files_index(f.lanes@[i]),
        forall|i: int| 0 <= i < 7 ==> #[trigger] image_at(f, 2 * i + 1) == files_index(f.tops@[i]),
{
    assert forall|i: int| 0 <= i < 7 implies #[trigger] image_at(f, 2 * i) == files_index(
        f.lanes@[i],
    ) by {
        assert((2 * i) % 2 == 0 && (2 * i) / 2 == i) by (nonlinear_arith);
    }
    assert forall|i: int| 0 <= i < 7 implies #[trigger] image_at(f, 2 * i + 1) == files_index(
        f.tops@[i],
    ) by {
        assert((2 * i + 1) % 2 == 1 && (2 * i + 1) / 2 == i) by (nonlinear_arith);
    }
}

/// What a store is made of: the percentiles and the kinds out of the header, the records, and an
/// index where both its files are there; the rewritten senses where they are asked for and both
/// their files are there.
pub proof fn law_what_a_store_is_made_of(f: StoreFiles, with: bool, i: int)
    requires
        meta_fault(f.meta@) is None,
    ensures
        ({
            let v = opened(f, with);
            let n = le32(f.meta@, 8) as int;
            &&& v.n == n && v.pct.len() == n && v.kind.len() == n
            &&& 0 <= i < n ==> v.pct[i].bits == le32(f.meta@, 12 + 4 * i) && v.kind[i] == f.meta@[12
                + 4 * n + i]
            &&& v.entries == f.entries@ && v.idx == f.idx@
            &&& with && f.overlay_bin is Some && f.overlay_idx is Some ==> v.overlay == Some(
                (f.overlay_bin->0@, f.overlay_idx->0@),
            )
            &&& f.overlay_bin is None || f.overlay_idx is None || !with ==> v.overlay is None
            &&& 0 <= i < f.lanes@.len() ==> {
                let x = f.lanes@[i];
                &&& x.fst is Some && x.post is Some ==> v.lanes[i] == Some((x.fst->0@, x.post->0@))
                &&& x.fst is None || x.post is None ==> v.lanes[i] is None
            }
            &&& 0 <= i < f.tops@.len() ==> {
                let x = f.tops@[i];
                &&& x.fst is Some && x.post is Some ==> v.tops[i] == Some((x.fst->0@, x.post->0@))
                &&& x.fst is None || x.post is None ==> v.tops[i] is None
            }
        }),
{
}

/// Where the rewritten senses of an entry stand: between the two offsets of the entry, where
/// these are there, rise and end within the file.
pub proof fn law_where_rewritten_senses_stand(ov: (Seq<u8>, Seq<u8>), id: u32)
    ensures
        ov.1.len() < 8 * (id + 2) ==> overlay_range(ov, id) is None,
        ov.1.len() >= 8 * (id + 2) ==> {
            let a = le64(ov.1, 8 * id) as int;
            let b = le64(ov.1, 8 * (id + 1)) as int;
            &&& a < b <= ov.0.len() ==> overlay_range(ov, id) == Some((a, b))
            &&& a >= b || b > ov.0.len() ==> overlay_range(ov, id) is None
        },
        overlay_range(ov, id) matches Some(r) ==> overlay_senses(ov, id) == senses_decoded(
            ov.0.subrange(r.0, r.1),
        ),
        overlay_range(ov, id) is None ==> overlay_senses(ov, id) is None,
{
}

/// Where a record stands, and where a list of numbers does: behind its length.
pub proof fn law_where_records_and_lists_stand(v: StoreView, i: int, post: Seq<u8>, off: u64)
    ensures
        v.record(i) == v.entries.subrange(
            le64(v.idx, 8 * i) as int,
            le64(v.idx, 8 * (i + 1)) as int,
        ),
        posting_ok(post, off) ==> posting(post, off).len() == 4 * le32(post, off as int),
        posting_ok(post, off) ==> post.subrange(off as int + 4, post.len() as int).subrange(
            0,
            4 * le32(post, off as int),
        ) == posting(post, off),
{
    if posting_ok(post, off) {
        assert(post.subrange(off as int + 4, post.len() as int).subrange(
            0,
            4 * le32(post, off as int),
        ) =~= posting(post, off));
    }
}

/// What a prefix matches: the keys of the lane that begin with it, each with its list.
pub proof fn law_what_a_prefix_matches(v: StoreView, lane: Lane, q: Seq<char>, i: int)
    requires
        v.lanes[lane.idx_spec() as int] is Some,
    ensures
        ({
            let x = v.lanes[lane.idx_spec() as int]->0;
            let f = with_prefix(keys_of(x), encode_utf8(q));
            &&& v.matches(lane, q).len() == f.len()
            &&& 0 <= i < f.len() ==> v.matches(lane, q)[i] == (f[i].0, posting(x.1, f[i].1))
        }),
{
}

} // verus!
