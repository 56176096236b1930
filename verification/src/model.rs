//! The data of an entry: written when the store is built, read one at a time when shown.
use crate::single::Single;
use crate::text::texts;
use vstd::prelude::*;
use vstd::string::*;

verus! {

pub const KIND_ZH: u8 = 0;

pub const KIND_EN: u8 = 1;

/// One sense. `text` is the gloss, `note` what is added to it, `reg` its register.
#[derive(Clone, Debug, Default, PartialEq)]
pub struct Sense {
    pub pos: String,
    pub text: String,
    pub note: String,
    pub reg: String,
}

/// One example. `a` is in the language of the entry, `b` its translation.
#[derive(Clone, Debug, Default, PartialEq)]
pub struct Example {
    pub a: String,
    pub b: String,
}

#[derive(Clone, Debug, Default, PartialEq)]
pub struct Entry {
    pub kind: u8,
    /// The simplified headword on the Chinese side, the spelling on the English side.
    pub word: String,
    /// The traditional form on the Chinese side; empty where it is the same.
    pub trad: String,
    /// Toned pinyin with blanks on the Chinese side, IPA on the English side.
    pub reading: String,
    /// The tone of each syllable on the Chinese side, 0 for the neutral tone.
    pub tones: Vec<u8>,
    /// The raw frequency shown: a corpus count or a BNC/COCA rank.
    pub freq: Single,
    /// The percentile within its own corpus, 0 to 1. Scores compare this alone.
    pub pct: Single,
    pub pos: String,
    /// The inflected forms on the English side, the classifiers on the Chinese side.
    pub forms: String,
    /// Exam tags and Collins stars on the English side.
    pub tags: String,
    pub senses: Vec<Sense>,
    pub examples: Vec<Example>,
    /// The gloss as the source has it, for the reader to check against.
    pub raw: String,
    pub xrefs: Vec<String>,
}

/// What a sense holds.
#[verifier::ext_equal]
pub struct SenseView {
    pub pos: Seq<char>,
    pub text: Seq<char>,
    pub note: Seq<char>,
    pub reg: Seq<char>,
}

/// What an example holds.
#[verifier::ext_equal]
pub struct ExampleView {
    pub a: Seq<char>,
    pub b: Seq<char>,
}

/// What an entry holds.
#[verifier::ext_equal]
pub struct EntryView {
    pub kind: u8,
    pub word: Seq<char>,
    pub trad: Seq<char>,
    pub reading: Seq<char>,
    pub tones: Seq<u8>,
    pub freq: Single,
    pub pct: Single,
    pub pos: Seq<char>,
    pub forms: Seq<char>,
    pub tags: Seq<char>,
    pub senses: Seq<SenseView>,
    pub examples: Seq<ExampleView>,
    pub raw: Seq<char>,
    pub xrefs: Seq<Seq<char>>,
}

impl View for Sense {
    type V = SenseView;

    open spec fn view(&self) -> SenseView {
        SenseView { pos: self.pos@, text: self.text@, note: self.note@, reg: self.reg@ }
    }
}

impl View for Example {
    type V = ExampleView;

    open spec fn view(&self) -> ExampleView {
        ExampleView { a: self.a@, b: self.b@ }
    }
}

/// What the senses of a table hold.
pub open spec fn sense_views(v: Seq<Sense>) -> Seq<SenseView> {
    Seq::new(v.len(), |i: int| v[i]@)
}

/// What the examples of a table hold.
pub open spec fn example_views(v: Seq<Example>) -> Seq<ExampleView> {
    Seq::new(v.len(), |i: int| v[i]@)
}

impl View for Entry {
    type V = EntryView;

    open spec fn view(&self) -> EntryView {
        EntryView {
            kind: self.kind,
            word: self.word@,
            trad: self.trad@,
            reading: self.reading@,
            tones: self.tones@,
            freq: self.freq,
            pct: self.pct,
            pos: self.pos@,
            forms: self.forms@,
            tags: self.tags@,
            senses: sense_views(self.senses@),
            examples: example_views(self.examples@),
            raw: self.raw@,
            xrefs: texts(self.xrefs@),
        }
    }
}

impl Entry {
    pub fn is_zh(&self) -> (r: bool)
        ensures
            r == (self.kind == KIND_ZH),
    {
        self.kind == KIND_ZH
    }
}

} // verus!
