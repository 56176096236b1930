//! Unpacking what was downloaded.
//!
//! `tar` reads zip and tar archives, but neither a single gzip file nor a bare bzip2 file;
//! those two are unpacked here.
use crate::text::{chars_of, join, join_strs, rows, string_of, texts, words, words_of};
use std::io::Read;
use vstd::prelude::*;
use vstd::string::*;

verus! {

/// How a download is opened.
#[derive(Clone, Copy, Debug)]
pub enum How {
    /// It is plain already.
    Plain,
    /// One gzip file, and the name of what comes out of it.
    Gz(&'static str),
    /// One bzip2 file, and the name of what comes out of it.
    Bz2(&'static str),
    /// An archive for `tar`, and the directory below which it goes.
    Tar(Option<&'static str>),
}

/// What to do about one download.
#[derive(Clone, Copy, Debug, PartialEq, Eq, Structural)]
pub enum FetchStep {
    /// What it would give is there.
    Skip,
    Download,
    /// The download is there and has to be opened.
    Open,
}

/// Nothing is done twice: what is there is kept, and a download is repeated only where the
/// file is missing or empty.
pub fn next_step(done: bool, archive_len: Option<u64>) -> (r: FetchStep)
    ensures
        r == if done {
            FetchStep::Skip
        } else {
            match archive_len {
                Some(n) => if n > 0 {
                    FetchStep::Open
                } else {
                    FetchStep::Download
                },
                None => FetchStep::Download,
            }
        },
{
    if done {
        return FetchStep::Skip;
    }
    match archive_len {
        Some(n) => if n > 0 {
            FetchStep::Open
        } else {
            FetchStep::Download
        },
        None => FetchStep::Download,
    }
}

/// What `flate2::read::GzDecoder` reads from gzip data, or nothing where it fails.
pub uninterp spec fn gunzipped(bytes: Seq<u8>) -> Option<Seq<u8>>;

/// What `bzip2_rs::DecoderReader` reads from bzip2 data, or nothing where it fails.
pub uninterp spec fn bunzipped(bytes: Seq<u8>) -> Option<Seq<u8>>;

/// Reads a `flate2::read::GzDecoder` over the bytes to its end. What comes out is a function
/// of the bytes.
#[verifier::external_body]
fn gunzip(bytes: &[u8]) -> (r: Option<Vec<u8>>)
    ensures
        r is Some == gunzipped(bytes@) is Some,
        r matches Some(b) ==> gunzipped(bytes@) == Some(b@),
{
    let mut out = Vec::new();
    match flate2::read::GzDecoder::new(bytes).read_to_end(&mut out) {
        Ok(_) => Some(out),
        Err(_) => None,
    }
}

/// Reads a `bzip2_rs::DecoderReader` over the bytes to its end. What comes out is a function
/// of the bytes.
#[verifier::external_body]
fn bunzip(bytes: &[u8]) -> (r: Option<Vec<u8>>)
    ensures
        r is Some == bunzipped(bytes@) is Some,
        r matches Some(b) ==> bunzipped(bytes@) == Some(b@),
{
    let mut out = Vec::new();
    match bzip2_rs::DecoderReader::new(bytes).read_to_end(&mut out) {
        Ok(_) => Some(out),
        Err(_) => None,
    }
}

/// What opening a download comes to.
pub enum Opened {
    /// There is nothing to do.
    Nothing,
    /// A file of this name is to be written.
    File { name: &'static str, bytes: Vec<u8> },
    /// `tar` is to unpack it, below this directory where one is given.
    Archive { into: Option<&'static str> },
    /// The data is broken.
    Broken,
}

/// Opens a download. The data of an archive is left to `tar`.
pub fn open_download(how: How, data: &[u8]) -> (r: Opened)
    ensures
        match how {
            How::Plain => r is Nothing,
            How::Tar(sub) => r matches Opened::Archive { into } && into == sub,
            How::Gz(out) => match gunzipped(data@) {
                Some(b) => r matches Opened::File { name, bytes } && name == out && bytes@ == b,
                None => r is Broken,
            },
            How::Bz2(out) => match bunzipped(data@) {
                Some(b) => r matches Opened::File { name, bytes } && name == out && bytes@ == b,
                None => r is Broken,
            },
        },
{
    match how {
        How::Plain => Opened::Nothing,
        How::Tar(sub) => Opened::Archive { into: sub },
        How::Gz(name) => match gunzip(data) {
            Some(bytes) => Opened::File { name, bytes },
            None => Opened::Broken,
        },
        How::Bz2(name) => match bunzip(data) {
            Some(bytes) => Opened::File { name, bytes },
            None => Opened::Broken,
        },
    }
}

/// A download that was opened is of no more use, save a plain one, which is the file itself.
pub fn drops_archive(how: How) -> (r: bool)
    ensures
        r == !(how is Plain),
{
    match how {
        How::Plain => false,
        _ => true,
    }
}

/// An address without the white space that came in where it was broken over lines.
pub fn compact_url(url: &str) -> (r: String)
    ensures
        r@ == join(words_of(url@), Seq::empty()),
{
    let c = chars_of(url);
    let w = words(&c);
    let mut parts: Vec<String> = Vec::new();
    let mut i: usize = 0;
    while i < w.len()
        invariant
            i <= w.len(),
            parts.len() == i,
            forall|j: int| 0 <= j < i ==> (#[trigger] parts@[j])@ == w@[j]@,
        decreases w.len() - i,
    {
        parts.push(string_of(&w[i]));
        i = i + 1;
    }
    assert(texts(parts@) =~= rows(w@));
    proof {
        reveal_strlit("");
        assert(""@ =~= Seq::<char>::empty());
    }
    join_strs(&parts, "")
}

} // verus!
