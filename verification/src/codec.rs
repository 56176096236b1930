//! Entries and senses as `bincode` writes them.
//!
//! The record is the plain row of fields, strings and lists with their length before them.
//! `bincode` writes a structure as its fields one after the other, so a tuple of the same
//! fields has the same bytes.
use crate::bytes::{lemma_put32, lemma_put64, put32, put64};
use crate::model::{
    example_views, sense_views, Entry, EntryView, Example, ExampleView, Sense, SenseView,
};
use crate::single::Single;
use crate::text::texts;
use vstd::prelude::*;
use vstd::string::*;
use vstd::utf8::*;

verus! {

/// `bincode::ErrorKind`, what reading or writing a record can fail with.
#[verifier::external_type_specification]
#[verifier::external_body]
pub struct ExBincodeErrorKind(bincode::ErrorKind);

/// The fields of a sense.
pub type SenseParts = (String, String, String, String);

/// The fields of an entry.
pub type EntryParts = (
    u8,
    String,
    String,
    String,
    Vec<u8>,
    u32,
    u32,
    String,
    String,
    String,
    Vec<SenseParts>,
    Vec<(String, String)>,
    String,
    Vec<String>,
);

pub open spec fn sense_part_view(p: SenseParts) -> SenseView {
    SenseView { pos: p.0@, text: p.1@, note: p.2@, reg: p.3@ }
}

pub open spec fn senses_part_view(p: Seq<SenseParts>) -> Seq<SenseView> {
    Seq::new(p.len(), |i: int| sense_part_view(p[i]))
}

pub open spec fn examples_part_view(p: Seq<(String, String)>) -> Seq<ExampleView> {
    Seq::new(p.len(), |i: int| (ExampleView { a: p[i].0@, b: p[i].1@ }))
}

pub open spec fn entry_part_view(p: EntryParts) -> EntryView {
    EntryView {
        kind: p.0,
        word: p.1@,
        trad: p.2@,
        reading: p.3@,
        tones: p.4@,
        freq: Single { bits: p.5 },
        pct: Single { bits: p.6 },
        pos: p.7@,
        forms: p.8@,
        tags: p.9@,
        senses: senses_part_view(p.10@),
        examples: examples_part_view(p.11@),
        raw: p.12@,
        xrefs: texts(p.13@),
    }
}

// ───────────────────────── the bytes ─────────────────────────

/// A text: its length in bytes, then the bytes.
pub open spec fn text_bytes(s: Seq<char>) -> Seq<u8> {
    put64(encode_utf8(s).len() as u64) + encode_utf8(s)
}

/// The codes of values one after the other.
pub open spec fn flat<T>(code: spec_fn(T) -> Seq<u8>, v: Seq<T>) -> Seq<u8>
    decreases v.len(),
{
    if v.len() == 0 {
        Seq::empty()
    } else {
        code(v[0]) + flat(code, v.drop_first())
    }
}

/// A list: how many there are, then their codes.
pub open spec fn list_bytes<T>(code: spec_fn(T) -> Seq<u8>, v: Seq<T>) -> Seq<u8> {
    put64(v.len() as u64) + flat(code, v)
}

/// The code of a text, as a value.
pub open spec fn text_code() -> spec_fn(Seq<char>) -> Seq<u8> {
    |s: Seq<char>| text_bytes(s)
}

/// The code of one byte, as a value.
pub open spec fn byte_code() -> spec_fn(u8) -> Seq<u8> {
    |b: u8| seq![b]
}

/// The code of a sense, as a value.
pub open spec fn sense_code() -> spec_fn(SenseView) -> Seq<u8> {
    |s: SenseView| text_bytes(s.pos) + (text_bytes(s.text) + (text_bytes(s.note) + text_bytes(s.reg)))
}

/// The code of an example, as a value.
pub open spec fn example_code() -> spec_fn(ExampleView) -> Seq<u8> {
    |x: ExampleView| text_bytes(x.a) + text_bytes(x.b)
}

/// The record of a list of senses.
#[verifier::opaque]
pub open spec fn senses_encoded(s: Seq<SenseView>) -> Seq<u8> {
    list_bytes(sense_code(), s)
}

/// The end of the record of an entry: senses, examples, source text, references.
pub open spec fn entry_tail(e: EntryView) -> Seq<u8> {
    senses_encoded(e.senses) + (list_bytes(example_code(), e.examples) + (text_bytes(e.raw)
        + list_bytes(text_code(), e.xrefs)))
}

/// The middle of the record of an entry and what follows: frequency, percentile, part of
/// speech, forms, tags.
pub open spec fn entry_middle(e: EntryView) -> Seq<u8> {
    put32(e.freq.bits) + (put32(e.pct.bits) + (text_bytes(e.pos) + (text_bytes(e.forms) + (
    text_bytes(e.tags) + entry_tail(e)))))
}

/// The record of an entry: its fields in order.
#[verifier::opaque]
pub open spec fn entry_encoded(e: EntryView) -> Seq<u8> {
    seq![e.kind] + (text_bytes(e.word) + (text_bytes(e.trad) + (text_bytes(e.reading) + (list_bytes(
        byte_code(),
        e.tones,
    ) + entry_middle(e)))))
}

/// The entry whose record stands at the beginning of the bytes, if there is one.
#[verifier::opaque]
pub open spec fn entry_decoded(bytes: Seq<u8>) -> Option<EntryView> {
    if exists|e: EntryView| #[trigger] entry_encoded(e).is_prefix_of(bytes) {
        Some(choose|e: EntryView| #[trigger] entry_encoded(e).is_prefix_of(bytes))
    } else {
        None
    }
}

/// The senses whose record stands at the beginning of the bytes, if there are any.
#[verifier::opaque]
pub open spec fn senses_decoded(bytes: Seq<u8>) -> Option<Seq<SenseView>> {
    if exists|s: Seq<SenseView>| #[trigger] senses_encoded(s).is_prefix_of(bytes) {
        Some(choose|s: Seq<SenseView>| #[trigger] senses_encoded(s).is_prefix_of(bytes))
    } else {
        None
    }
}

// ───────────────────────── calling `bincode` ─────────────────────────

/// Calls `bincode::serialize` on the fields of an entry. It writes numbers in little-endian
/// bytes of their own width, texts and lists with their length in eight bytes before them, and
/// nothing between the fields. Writing fields of these types to memory does not fail.
#[verifier::external_body]
fn serialize_entry(p: &EntryParts) -> (r: Result<Vec<u8>, Box<bincode::ErrorKind>>)
    ensures
        r is Ok,
        r matches Ok(b) ==> b@ == entry_encoded(entry_part_view(*p)),
{
    bincode::serialize(p)
}

/// Calls `bincode::deserialize` for the fields of an entry. It reads what `bincode::serialize`
/// writes and passes over what follows; it fails where the bytes do not begin with a record.
#[verifier::external_body]
fn deserialize_entry(bytes: &[u8]) -> (r: Result<EntryParts, Box<bincode::ErrorKind>>)
    ensures
        match r {
            Ok(p) => entry_encoded(entry_part_view(p)).is_prefix_of(bytes@),
            Err(_) => forall|e: EntryView| !(#[trigger] entry_encoded(e).is_prefix_of(bytes@)),
        },
{
    bincode::deserialize(bytes)
}

/// Calls `bincode::serialize` on the fields of a list of senses, which it writes as it does the
/// fields of an entry.
#[verifier::external_body]
fn serialize_senses(p: &Vec<SenseParts>) -> (r: Result<Vec<u8>, Box<bincode::ErrorKind>>)
    ensures
        r is Ok,
        r matches Ok(b) ==> b@ == senses_encoded(senses_part_view(p@)),
{
    bincode::serialize(p)
}

/// Calls `bincode::deserialize` for the fields of a list of senses, which it reads as it does
/// the fields of an entry.
#[verifier::external_body]
fn deserialize_senses(bytes: &[u8]) -> (r: Result<Vec<SenseParts>, Box<bincode::ErrorKind>>)
    ensures
        match r {
            Ok(p) => senses_encoded(senses_part_view(p@)).is_prefix_of(bytes@),
            Err(_) => forall|s: Seq<SenseView>|
                !(#[trigger] senses_encoded(s).is_prefix_of(bytes@)),
        },
{
    bincode::deserialize(bytes)
}

// ───────────────────────── a record is read in one way ─────────────────────────

/// Values are told apart by their codes, whatever follows; a code takes at least one byte.
spec fn prefix_free<T>(code: spec_fn(T) -> Seq<u8>) -> bool {
    &&& forall|x: T, y: T, r: Seq<u8>, t: Seq<u8>|
        #![trigger code(x) + r, code(y) + t]
        code(x) + r == code(y) + t && (code(x) + r).len() <= u64::MAX ==> x == y && r == t
    &&& forall|x: T| (#[trigger] code(x)).len() > 0
}

proof fn lemma_cut(a: Seq<u8>, b: Seq<u8>, r: Seq<u8>, t: Seq<u8>)
    requires
        a + r == b + t,
        a.len() == b.len(),
    ensures
        a == b,
        r == t,
{
    assert((a + r).take(a.len() as int) =~= a);
    assert((b + t).take(b.len() as int) =~= b);
    assert((a + r).skip(a.len() as int) =~= r);
    assert((b + t).skip(b.len() as int) =~= t);
}

proof fn lemma_number64(x: u64, y: u64, r: Seq<u8>, t: Seq<u8>)
    requires
        put64(x) + r == put64(y) + t,
    ensures
        x == y,
        r == t,
{
    lemma_put64(x);
    lemma_put64(y);
    lemma_cut(put64(x), put64(y), r, t);
}

proof fn lemma_number32(x: u32, y: u32, r: Seq<u8>, t: Seq<u8>)
    requires
        put32(x) + r == put32(y) + t,
    ensures
        x == y,
        r == t,
{
    lemma_put32(x);
    lemma_put32(y);
    lemma_cut(put32(x), put32(y), r, t);
}

proof fn lemma_assoc(a: Seq<u8>, b: Seq<u8>, c: Seq<u8>)
    ensures
        a + b + c == a + (b + c),
{
    assert(a + b + c =~= a + (b + c));
}

proof fn lemma_text(x: Seq<char>, y: Seq<char>, r: Seq<u8>, t: Seq<u8>)
    requires
        text_bytes(x) + r == text_bytes(y) + t,
        (text_bytes(x) + r).len() <= u64::MAX,
    ensures
        x == y,
        r == t,
{
    let a = encode_utf8(x);
    let b = encode_utf8(y);
    lemma_assoc(put64(a.len() as u64), a, r);
    lemma_assoc(put64(b.len() as u64), b, t);
    assert((text_bytes(x) + r).len() == (text_bytes(y) + t).len());
    lemma_number64(a.len() as u64, b.len() as u64, a + r, b + t);
    lemma_cut(a, b, r, t);
    encode_utf8_decode_utf8(x);
    encode_utf8_decode_utf8(y);
}

proof fn lemma_flat_len<T>(code: spec_fn(T) -> Seq<u8>, v: Seq<T>)
    requires
        prefix_free(code),
    ensures
        flat(code, v).len() >= v.len(),
    decreases v.len(),
{
    if v.len() > 0 {
        lemma_flat_len(code, v.drop_first());
        assert(code(v[0]).len() > 0);
    }
}

proof fn lemma_flat<T>(
    code: spec_fn(T) -> Seq<u8>,
    x: Seq<T>,
    y: Seq<T>,
    r: Seq<u8>,
    t: Seq<u8>,
)
    requires
        prefix_free(code),
        x.len() == y.len(),
        flat(code, x) + r == flat(code, y) + t,
        (flat(code, x) + r).len() <= u64::MAX,
    ensures
        x == y,
        r == t,
    decreases x.len(),
{
    if x.len() == 0 {
        assert(x =~= y);
        assert(flat(code, x) + r =~= r);
        assert(flat(code, y) + t =~= t);
    } else {
        let u = x.drop_first();
        let w = y.drop_first();
        lemma_assoc(code(x[0]), flat(code, u), r);
        lemma_assoc(code(y[0]), flat(code, w), t);
        assert(code(x[0]) + (flat(code, u) + r) == code(y[0]) + (flat(code, w) + t));
        lemma_flat(code, u, w, r, t);
        assert(x =~= seq![x[0]] + u);
        assert(y =~= seq![y[0]] + w);
    }
}

proof fn lemma_list<T>(
    code: spec_fn(T) -> Seq<u8>,
    x: Seq<T>,
    y: Seq<T>,
    r: Seq<u8>,
    t: Seq<u8>,
)
    requires
        prefix_free(code),
        list_bytes(code, x) + r == list_bytes(code, y) + t,
        (list_bytes(code, x) + r).len() <= u64::MAX,
    ensures
        x == y,
        r == t,
{
    lemma_flat_len(code, x);
    lemma_flat_len(code, y);
    lemma_assoc(put64(x.len() as u64), flat(code, x), r);
    lemma_assoc(put64(y.len() as u64), flat(code, y), t);
    assert((list_bytes(code, x) + r).len() == (list_bytes(code, y) + t).len());
    lemma_number64(x.len() as u64, y.len() as u64, flat(code, x) + r, flat(code, y) + t);
    lemma_flat(code, x, y, r, t);
}

proof fn lemma_text_code()
    ensures
        prefix_free(text_code()),
{
    let code = text_code();
    assert forall|x: Seq<char>, y: Seq<char>, r: Seq<u8>, t: Seq<u8>|
        #![trigger code(x) + r, code(y) + t]
        code(x) + r == code(y) + t && (code(x) + r).len() <= u64::MAX implies x == y && r == t by {
        lemma_text(x, y, r, t);
    }
    assert forall|x: Seq<char>| (#[trigger] code(x)).len() > 0 by {
        lemma_put64(encode_utf8(x).len() as u64);
    }
}

proof fn lemma_byte_code()
    ensures
        prefix_free(byte_code()),
{
    let code = byte_code();
    assert forall|x: u8, y: u8, r: Seq<u8>, t: Seq<u8>|
        #![trigger code(x) + r, code(y) + t]
        code(x) + r == code(y) + t && (code(x) + r).len() <= u64::MAX implies x == y && r == t by {
        lemma_cut(seq![x], seq![y], r, t);
        assert(seq![x][0] == seq![y][0]);
    }
}

proof fn lemma_example_code()
    ensures
        prefix_free(example_code()),
{
    let code = example_code();
    assert forall|x: ExampleView, y: ExampleView, r: Seq<u8>, t: Seq<u8>|
        #![trigger code(x) + r, code(y) + t]
        code(x) + r == code(y) + t && (code(x) + r).len() <= u64::MAX implies x == y && r == t by {
        lemma_assoc(text_bytes(x.a), text_bytes(x.b), r);
        lemma_assoc(text_bytes(y.a), text_bytes(y.b), t);
        lemma_text(x.a, y.a, text_bytes(x.b) + r, text_bytes(y.b) + t);
        lemma_text(x.b, y.b, r, t);
    }
    assert forall|x: ExampleView| (#[trigger] code(x)).len() > 0 by {
        lemma_put64(encode_utf8(x.a).len() as u64);
    }
}

proof fn lemma_sense_code()
    ensures
        prefix_free(sense_code()),
{
    let code = sense_code();
    assert forall|x: SenseView, y: SenseView, r: Seq<u8>, t: Seq<u8>|
        #![trigger code(x) + r, code(y) + t]
        code(x) + r == code(y) + t && (code(x) + r).len() <= u64::MAX implies x == y && r == t by {
        let (xn, yn) = (text_bytes(x.note) + text_bytes(x.reg), text_bytes(y.note) + text_bytes(y.reg));
        let (xt, yt) = (text_bytes(x.text) + xn, text_bytes(y.text) + yn);
        lemma_assoc(text_bytes(x.pos), xt, r);
        lemma_assoc(text_bytes(y.pos), yt, t);
        lemma_text(x.pos, y.pos, xt + r, yt + t);
        lemma_assoc(text_bytes(x.text), xn, r);
        lemma_assoc(text_bytes(y.text), yn, t);
        lemma_text(x.text, y.text, xn + r, yn + t);
        lemma_assoc(text_bytes(x.note), text_bytes(x.reg), r);
        lemma_assoc(text_bytes(y.note), text_bytes(y.reg), t);
        lemma_text(x.note, y.note, text_bytes(x.reg) + r, text_bytes(y.reg) + t);
        lemma_text(x.reg, y.reg, r, t);
    }
    assert forall|x: SenseView| (#[trigger] code(x)).len() > 0 by {
        lemma_put64(encode_utf8(x.pos).len() as u64);
    }
}

proof fn lemma_entry_tail(x: EntryView, y: EntryView, r: Seq<u8>, t: Seq<u8>)
    requires
        entry_tail(x) + r == entry_tail(y) + t,
        (entry_tail(x) + r).len() <= u64::MAX,
    ensures
        x.senses == y.senses,
        x.examples == y.examples,
        x.raw == y.raw,
        x.xrefs == y.xrefs,
        r == t,
{
    reveal(senses_encoded);
    lemma_sense_code();
    lemma_example_code();
    lemma_text_code();
    let (x1, y1) = (list_bytes(text_code(), x.xrefs), list_bytes(text_code(), y.xrefs));
    let (x2, y2) = (text_bytes(x.raw) + x1, text_bytes(y.raw) + y1);
    let (x3, y3) = (
        list_bytes(example_code(), x.examples) + x2,
        list_bytes(example_code(), y.examples) + y2,
    );
    lemma_assoc(senses_encoded(x.senses), x3, r);
    lemma_assoc(senses_encoded(y.senses), y3, t);
    lemma_list(sense_code(), x.senses, y.senses, x3 + r, y3 + t);
    lemma_assoc(list_bytes(example_code(), x.examples), x2, r);
    lemma_assoc(list_bytes(example_code(), y.examples), y2, t);
    lemma_list(example_code(), x.examples, y.examples, x2 + r, y2 + t);
    lemma_assoc(text_bytes(x.raw), x1, r);
    lemma_assoc(text_bytes(y.raw), y1, t);
    lemma_text(x.raw, y.raw, x1 + r, y1 + t);
    lemma_list(text_code(), x.xrefs, y.xrefs, r, t);
}

proof fn lemma_entry_middle(x: EntryView, y: EntryView, r: Seq<u8>, t: Seq<u8>)
    requires
        entry_middle(x) + r == entry_middle(y) + t,
        (entry_middle(x) + r).len() <= u64::MAX,
    ensures
        x.freq == y.freq,
        x.pct == y.pct,
        x.pos == y.pos,
        x.forms == y.forms,
        x.tags == y.tags,
        entry_tail(x) + r == entry_tail(y) + t,
        (entry_tail(x) + r).len() <= u64::MAX,
{
    let (x1, y1) = (text_bytes(x.tags) + entry_tail(x), text_bytes(y.tags) + entry_tail(y));
    let (x2, y2) = (text_bytes(x.forms) + x1, text_bytes(y.forms) + y1);
    let (x3, y3) = (text_bytes(x.pos) + x2, text_bytes(y.pos) + y2);
    let (x4, y4) = (put32(x.pct.bits) + x3, put32(y.pct.bits) + y3);
    lemma_assoc(put32(x.freq.bits), x4, r);
    lemma_assoc(put32(y.freq.bits), y4, t);
    lemma_number32(x.freq.bits, y.freq.bits, x4 + r, y4 + t);
    lemma_assoc(put32(x.pct.bits), x3, r);
    lemma_assoc(put32(y.pct.bits), y3, t);
    lemma_number32(x.pct.bits, y.pct.bits, x3 + r, y3 + t);
    lemma_assoc(text_bytes(x.pos), x2, r);
    lemma_assoc(text_bytes(y.pos), y2, t);
    lemma_text(x.pos, y.pos, x2 + r, y2 + t);
    lemma_assoc(text_bytes(x.forms), x1, r);
    lemma_assoc(text_bytes(y.forms), y1, t);
    lemma_text(x.forms, y.forms, x1 + r, y1 + t);
    lemma_assoc(text_bytes(x.tags), entry_tail(x), r);
    lemma_assoc(text_bytes(y.tags), entry_tail(y), t);
    lemma_text(x.tags, y.tags, entry_tail(x) + r, entry_tail(y) + t);
}

/// A row of bytes begins with the record of one entry at most.
proof fn lemma_entry(x: EntryView, y: EntryView, r: Seq<u8>, t: Seq<u8>)
    requires
        entry_encoded(x) + r == entry_encoded(y) + t,
        (entry_encoded(x) + r).len() <= u64::MAX,
    ensures
        x == y,
        r == t,
{
    reveal(entry_encoded);
    lemma_byte_code();
    let (x1, y1) = (
        list_bytes(byte_code(), x.tones) + entry_middle(x),
        list_bytes(byte_code(), y.tones) + entry_middle(y),
    );
    let (x2, y2) = (text_bytes(x.reading) + x1, text_bytes(y.reading) + y1);
    let (x3, y3) = (text_bytes(x.trad) + x2, text_bytes(y.trad) + y2);
    let (x4, y4) = (text_bytes(x.word) + x3, text_bytes(y.word) + y3);
    lemma_assoc(seq![x.kind], x4, r);
    lemma_assoc(seq![y.kind], y4, t);
    lemma_cut(seq![x.kind], seq![y.kind], x4 + r, y4 + t);
    assert(seq![x.kind][0] == seq![y.kind][0]);
    lemma_assoc(text_bytes(x.word), x3, r);
    lemma_assoc(text_bytes(y.word), y3, t);
    lemma_text(x.word, y.word, x3 + r, y3 + t);
    lemma_assoc(text_bytes(x.trad), x2, r);
    lemma_assoc(text_bytes(y.trad), y2, t);
    lemma_text(x.trad, y.trad, x2 + r, y2 + t);
    lemma_assoc(text_bytes(x.reading), x1, r);
    lemma_assoc(text_bytes(y.reading), y1, t);
    lemma_text(x.reading, y.reading, x1 + r, y1 + t);
    lemma_assoc(list_bytes(byte_code(), x.tones), entry_middle(x), r);
    lemma_assoc(list_bytes(byte_code(), y.tones), entry_middle(y), t);
    lemma_list(byte_code(), x.tones, y.tones, entry_middle(x) + r, entry_middle(y) + t);
    lemma_entry_middle(x, y, r, t);
    lemma_entry_tail(x, y, r, t);
    assert(x =~= y);
}

proof fn lemma_rest(a: Seq<u8>, b: Seq<u8>)
    requires
        a.is_prefix_of(b),
    ensures
        a + b.skip(a.len() as int) == b,
{
    assert(a + b.skip(a.len() as int) =~= b);
}

/// The record of an entry gives the entry back, whatever follows it.
pub proof fn law_entries_read_back(e: EntryView, bytes: Seq<u8>)
    requires
        entry_encoded(e).is_prefix_of(bytes),
        bytes.len() <= u64::MAX,
    ensures
        entry_decoded(bytes) == Some(e),
{
    reveal(entry_decoded);
    let x = choose|x: EntryView| #[trigger] entry_encoded(x).is_prefix_of(bytes);
    lemma_rest(entry_encoded(e), bytes);
    lemma_rest(entry_encoded(x), bytes);
    lemma_entry(
        e,
        x,
        bytes.skip(entry_encoded(e).len() as int),
        bytes.skip(entry_encoded(x).len() as int),
    );
}

/// The record of a list of senses gives the senses back, whatever follows it.
pub proof fn law_senses_read_back(s: Seq<SenseView>, bytes: Seq<u8>)
    requires
        senses_encoded(s).is_prefix_of(bytes),
        bytes.len() <= u64::MAX,
    ensures
        senses_decoded(bytes) == Some(s),
{
    reveal(senses_encoded);
    reveal(senses_decoded);
    let x = choose|x: Seq<SenseView>| #[trigger] senses_encoded(x).is_prefix_of(bytes);
    lemma_rest(senses_encoded(s), bytes);
    lemma_rest(senses_encoded(x), bytes);
    lemma_sense_code();
    lemma_list(
        sense_code(),
        s,
        x,
        bytes.skip(senses_encoded(s).len() as int),
        bytes.skip(senses_encoded(x).len() as int),
    );
}

// ───────────────────────── entries and records ─────────────────────────

fn sense_parts(s: &Vec<Sense>) -> (r: Vec<SenseParts>)
    ensures
        senses_part_view(r@) == sense_views(s@),
{
    let mut r: Vec<SenseParts> = Vec::new();
    let mut i: usize = 0;
    while i < s.len()
        invariant
            i <= s.len(),
            r.len() == i,
            forall|j: int| 0 <= j < i ==> sense_part_view(#[trigger] r@[j]) == s@[j]@,
        decreases s.len() - i,
    {
        let x = &s[i];
        r.push((x.pos.clone(), x.text.clone(), x.note.clone(), x.reg.clone()));
        i = i + 1;
    }
    assert(senses_part_view(r@) =~= sense_views(s@));
    r
}

fn senses_from(p: &Vec<SenseParts>) -> (r: Vec<Sense>)
    ensures
        sense_views(r@) == senses_part_view(p@),
{
    let mut r: Vec<Sense> = Vec::new();
    let mut i: usize = 0;
    while i < p.len()
        invariant
            i <= p.len(),
            r.len() == i,
            forall|j: int| 0 <= j < i ==> (#[trigger] r@[j])@ == sense_part_view(p@[j]),
        decreases p.len() - i,
    {
        let x = &p[i];
        r.push(
            Sense { pos: x.0.clone(), text: x.1.clone(), note: x.2.clone(), reg: x.3.clone() },
        );
        i = i + 1;
    }
    assert(sense_views(r@) =~= senses_part_view(p@));
    r
}

fn example_parts(s: &Vec<Example>) -> (r: Vec<(String, String)>)
    ensures
        examples_part_view(r@) == example_views(s@),
{
    let mut r: Vec<(String, String)> = Vec::new();
    let mut i: usize = 0;
    while i < s.len()
        invariant
            i <= s.len(),
            r.len() == i,
            forall|j: int|
                0 <= j < i ==> (#[trigger] r@[j]).0@ == s@[j].a@ && r@[j].1@ == s@[j].b@,
        decreases s.len() - i,
    {
        r.push((s[i].a.clone(), s[i].b.clone()));
        i = i + 1;
    }
    assert(examples_part_view(r@) =~= example_views(s@));
    r
}

fn examples_from(p: &Vec<(String, String)>) -> (r: Vec<Example>)
    ensures
        example_views(r@) == examples_part_view(p@),
{
    let mut r: Vec<Example> = Vec::new();
    let mut i: usize = 0;
    while i < p.len()
        invariant
            i <= p.len(),
            r.len() == i,
            forall|j: int|
                0 <= j < i ==> (#[trigger] r@[j]).a@ == p@[j].0@ && r@[j].b@ == p@[j].1@,
        decreases p.len() - i,
    {
        r.push(Example { a: p[i].0.clone(), b: p[i].1.clone() });
        i = i + 1;
    }
    assert(example_views(r@) =~= examples_part_view(p@));
    r
}

fn copy_texts(s: &Vec<String>) -> (r: Vec<String>)
    ensures
        texts(r@) == texts(s@),
{
    let mut r: Vec<String> = Vec::new();
    let mut i: usize = 0;
    while i < s.len()
        invariant
            i <= s.len(),
            r.len() == i,
            forall|j: int| 0 <= j < i ==> (#[trigger] r@[j])@ == s@[j]@,
        decreases s.len() - i,
    {
        r.push(s[i].clone());
        i = i + 1;
    }
    assert(texts(r@) =~= texts(s@));
    r
}

/// The record of an entry.
pub fn encode_entry(e: &Entry) -> (r: Vec<u8>)
    ensures
        r@ == entry_encoded(e@),
        entry_decoded(r@) == Some(e@),
{
    let p: EntryParts = (
        e.kind,
        e.word.clone(),
        e.trad.clone(),
        e.reading.clone(),
        e.tones.clone(),
        e.freq.bits,
        e.pct.bits,
        e.pos.clone(),
        e.forms.clone(),
        e.tags.clone(),
        sense_parts(&e.senses),
        example_parts(&e.examples),
        e.raw.clone(),
        copy_texts(&e.xrefs),
    );
    assert(entry_part_view(p) =~= e@);
    match serialize_entry(&p) {
        Ok(b) => {
            let n: usize = b.len();
            proof {
                assert(b@.len() == n);
                law_entries_read_back(e@, b@);
            }
            b
        },
        Err(_) => Vec::new(),
    }
}

/// The entry that a record holds.
pub fn decode_entry(bytes: &[u8]) -> (r: Option<Entry>)
    ensures
        match r {
            Some(e) => entry_decoded(bytes@) == Some(e@),
            None => entry_decoded(bytes@) is None,
        },
{
    let n: usize = bytes.len();
    match deserialize_entry(bytes) {
        Ok(p) => {
            proof {
                assert(bytes@.len() == n);
                law_entries_read_back(entry_part_view(p), bytes@);
            }
            let senses = senses_from(&p.10);
            let examples = examples_from(&p.11);
            let e = Entry {
                kind: p.0,
                word: p.1,
                trad: p.2,
                reading: p.3,
                tones: p.4,
                freq: Single { bits: p.5 },
                pct: Single { bits: p.6 },
                pos: p.7,
                forms: p.8,
                tags: p.9,
                senses,
                examples,
                raw: p.12,
                xrefs: p.13,
            };
            assert(e@ =~= entry_part_view(p));
            Some(e)
        },
        Err(_) => {
            proof {
                reveal(entry_decoded);
            }
            None
        },
    }
}

/// The record of a list of senses.
pub fn encode_senses(s: &Vec<Sense>) -> (r: Vec<u8>)
    ensures
        r@ == senses_encoded(sense_views(s@)),
        r@.len() >= 8,
        senses_decoded(r@) == Some(sense_views(s@)),
{
    let p = sense_parts(s);
    match serialize_senses(&p) {
        Ok(b) => {
            let n: usize = b.len();
            proof {
                assert(b@.len() == n);
                reveal(senses_encoded);
                lemma_put64(s@.len() as u64);
                law_senses_read_back(sense_views(s@), b@);
            }
            b
        },
        Err(_) => Vec::new(),
    }
}

/// The senses that a record holds.
pub fn decode_senses(bytes: &[u8]) -> (r: Option<Vec<Sense>>)
    ensures
        match r {
            Some(s) => senses_decoded(bytes@) == Some(sense_views(s@)),
            None => senses_decoded(bytes@) is None,
        },
{
    let n: usize = bytes.len();
    match deserialize_senses(bytes) {
        Ok(p) => {
            proof {
                assert(bytes@.len() == n);
                law_senses_read_back(senses_part_view(p@), bytes@);
            }
            Some(senses_from(&p))
        },
        Err(_) => {
            proof {
                reveal(senses_decoded);
            }
            None
        },
    }
}

} // verus!
