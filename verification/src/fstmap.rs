//! The finite state transducers of the `fst` crate: sorted maps from byte strings to
//! numbers, written once and read from a byte image.
use crate::bytes::{bytes_less, le64};
use fst::{Automaton, IntoStreamer, Streamer};
use vstd::prelude::*;
use vstd::string::*;

verus! {

/// `fst::Map`, a transducer over a byte image.
#[verifier::external_type_specification]
#[verifier::external_body]
#[verifier::reject_recursive_types(D)]
pub struct ExMap<D>(fst::Map<D>);

/// `fst::MapBuilder`, a transducer under construction.
#[verifier::external_type_specification]
#[verifier::external_body]
#[verifier::reject_recursive_types(W)]
pub struct ExMapBuilder<W>(fst::MapBuilder<W>);

/// `fst::Error`, what opening or building a transducer can fail with.
#[verifier::external_type_specification]
#[verifier::external_body]
pub struct ExFstError(fst::Error);

/// The entries of one transducer, by ascending key.
pub type FstEntries = Seq<(Seq<u8>, u64)>;

/// The keys and numbers of an image that `fst::MapBuilder` wrote, by ascending key; nothing
/// for any other bytes.
pub uninterp spec fn fst_image(bytes: Seq<u8>) -> Option<Seq<(Seq<u8>, u64)>>;

/// Whether `fst::Map::new` accepts an image. It has a version from 1 to 3 at its front and the
/// address of its root at its end, before the checksum that version 3 adds. An address of zero
/// stands for the smallest image alone.
pub open spec fn fst_opens(bytes: Seq<u8>) -> bool {
    let version = le64(bytes, 0);
    let root = if version <= 2 {
        le64(bytes, bytes.len() - 8)
    } else {
        le64(bytes, bytes.len() - 12)
    };
    &&& bytes.len() >= 36
    &&& 1 <= version <= 3
    &&& root == 0 ==> version == 3 && bytes.len() == 36
}

/// The image that an open transducer reads.
pub uninterp spec fn fst_bytes(m: fst::Map<&[u8]>) -> Seq<u8>;

/// What has been inserted into a builder so far.
pub uninterp spec fn builder_entries(b: fst::MapBuilder<Vec<u8>>) -> Seq<(Seq<u8>, u64)>;

/// What a prefix stream has still to yield.
pub uninterp spec fn stream_rest(s: PrefixStream) -> Seq<(Seq<u8>, u64)>;

/// Whether the image of an open transducer was written by a builder, so that it can be read.
pub open spec fn fst_sound(m: fst::Map<&[u8]>) -> bool {
    fst_image(fst_bytes(m)) is Some
}

/// What an open transducer holds.
pub open spec fn fst_entries(m: fst::Map<&[u8]>) -> FstEntries {
    fst_image(fst_bytes(m)).unwrap_or(Seq::empty())
}

/// The number stored under `key`.
pub open spec fn value_at(e: FstEntries, key: Seq<u8>) -> Option<u64>
    decreases e.len(),
{
    if e.len() == 0 {
        None
    } else if e[0].0 == key {
        Some(e[0].1)
    } else {
        value_at(e.drop_first(), key)
    }
}

/// The entries whose key starts with `prefix`, in order.
pub open spec fn with_prefix(e: FstEntries, prefix: Seq<u8>) -> FstEntries {
    e.filter(|x: (Seq<u8>, u64)| prefix.is_prefix_of(x.0))
}

/// Calls `fst::Map::new`, which checks both ends of the image and reads no further. The map
/// reads the very bytes given.
#[verifier::external_body]
pub(crate) fn fst_open<'a>(bytes: &'a [u8]) -> (r: Result<fst::Map<&'a [u8]>, fst::Error>)
    ensures
        r is Ok == fst_opens(bytes@),
        r matches Ok(m) ==> fst_bytes(m) == bytes@,
{
    fst::Map::new(bytes)
}

/// Calls `fst::Map::get`: the number stored under the key, if the key is there. An image
/// that no builder wrote may make it panic.
#[verifier::external_body]
pub(crate) fn fst_get(m: &fst::Map<&[u8]>, key: &[u8]) -> (r: Option<u64>)
    requires
        fst_sound(*m),
    ensures
        r == value_at(fst_entries(*m), key@),
{
    m.get(key)
}

/// The stream of `fst::Map::search` with the automaton that accepts the keys which start
/// with a given text. The type names an automaton by a trait of the crate, so it is held here.
#[verifier::external_body]
pub struct PrefixStream<'m, 'p> {
    stream: fst::map::Stream<'m, fst::automaton::StartsWith<fst::automaton::Str<'p>>>,
}

/// Calls `fst::Map::search` with `Str::new(prefix).starts_with()`: a stream of the entries
/// whose key starts with the UTF-8 bytes of the prefix, by ascending key.
#[verifier::external_body]
pub(crate) fn fst_search<'m, 'p>(m: &'m fst::Map<&[u8]>, prefix: &'p str) -> (r: PrefixStream<
    'm,
    'p,
>)
    requires
        fst_sound(*m),
    ensures
        stream_rest(r) == with_prefix(fst_entries(*m), prefix.spec_bytes()),
{
    PrefixStream { stream: m.search(fst::automaton::Str::new(prefix).starts_with()).into_stream() }
}

/// Calls `fst::Streamer::next`: the first entry still to come, which it takes off, or
/// nothing where none is left.
#[verifier::external_body]
pub(crate) fn fst_next(s: &mut PrefixStream) -> (r: Option<(Vec<u8>, u64)>)
    ensures
        match r {
            Some(x) => stream_rest(*old(s)).len() > 0 && stream_rest(*old(s))[0] == (x.0@, x.1)
                && stream_rest(*final(s)) == stream_rest(*old(s)).drop_first(),
            None => stream_rest(*old(s)).len() == 0 && stream_rest(*final(s)).len() == 0,
        },
{
    match s.stream.next() {
        Some((key, value)) => Some((key.to_vec(), value)),
        None => None,
    }
}

/// Calls `fst::MapBuilder::memory`: a builder that holds nothing yet.
#[verifier::external_body]
pub(crate) fn fst_builder() -> (r: fst::MapBuilder<Vec<u8>>)
    ensures
        builder_entries(r).len() == 0,
{
    fst::MapBuilder::memory()
}

/// Calls `fst::MapBuilder::insert`, which takes keys in strictly ascending order only: it
/// adds the entry if the key comes after the last one inserted, and fails, leaving what it
/// holds, if not.
#[verifier::external_body]
pub(crate) fn fst_insert(b: &mut fst::MapBuilder<Vec<u8>>, key: &[u8], value: u64) -> (r: Result<
    (),
    fst::Error,
>)
    ensures
        r is Ok == (builder_entries(*old(b)).len() == 0 || bytes_less(
            builder_entries(*old(b)).last().0,
            key@,
        )),
        r is Ok ==> builder_entries(*final(b)) == builder_entries(*old(b)).push((key@, value)),
        r is Err ==> builder_entries(*final(b)) == builder_entries(*old(b)),
{
    b.insert(key, value)
}

/// Calls `fst::MapBuilder::into_inner` on a builder in memory: the image of what was
/// inserted, which `fst::Map::new` accepts. Writing to memory does not fail.
#[verifier::external_body]
pub(crate) fn fst_finish(b: fst::MapBuilder<Vec<u8>>) -> (r: Result<Vec<u8>, fst::Error>)
    ensures
        r is Ok,
        r matches Ok(bytes) ==> fst_image(bytes@) == Some(builder_entries(b)),
        r matches Ok(bytes) ==> fst_opens(bytes@),
{
    b.into_inner()
}

} // verus!
