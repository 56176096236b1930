//! What the interface shows of entries, as text: candidate rows and the entry page.
use crate::model::{Entry, EntryView, SenseView, KIND_ZH};
use crate::number::{decimal, push_decimal};
use crate::search::{has_cjk, is_cjk, Hit};
use crate::store::{
    entry_result, looked_up, records_readable, with_overlay, word_comparable, Store, StoreView,
};
use crate::text::{
    chars_of, extend_str, join, join_strs, lemma_texts_push, rows, string_of, texts, trim, trimmed,
    words, words_of,
};
use crate::tray::{label_parts, Hotkey};
use crate::voice::Status;
use vstd::prelude::*;
use vstd::slice::*;
use vstd::string::*;

verus! {

// ───────────────────────── readings ─────────────────────────

/// A syllable and its tone, which gives its colour.
pub struct Piece {
    pub text: String,
    pub tone: u8,
}

/// The syllables of a reading with their tones; a syllable without one is neutral.
pub open spec fn pieces_spec(reading: Seq<char>, tones: Seq<u8>) -> Seq<(Seq<char>, u8)> {
    Seq::new(
        words_of(reading).len(),
        |i: int|
            (
                words_of(reading)[i],
                if i < tones.len() {
                    tones[i]
                } else {
                    0
                },
            ),
    )
}

pub open spec fn piece_views(p: Seq<Piece>) -> Seq<(Seq<char>, u8)> {
    Seq::new(p.len(), |i: int| (p[i].text@, p[i].tone))
}

/// The syllables of an entry's reading.
pub fn pinyin_pieces(e: &Entry) -> (r: Vec<Piece>)
    ensures
        piece_views(r@) == pieces_spec(e@.reading, e@.tones),
{
    let c = chars_of(e.reading.as_str());
    let w = words(&c);
    let mut r: Vec<Piece> = Vec::new();
    let mut i: usize = 0;
    while i < w.len()
        invariant
            i <= w.len(),
            rows(w@) == words_of(e@.reading),
            r.len() == i,
            forall|j: int|
                0 <= j < i ==> ((#[trigger] r@[j]).text@, r@[j].tone) == pieces_spec(
                    e@.reading,
                    e@.tones,
                )[j],
        decreases w.len() - i,
    {
        assert(rows(w@)[i as int] == w@[i as int]@);
        let tone: u8 = if i < e.tones.len() {
            e.tones[i]
        } else {
            0
        };
        r.push(Piece { text: string_of(&w[i]), tone });
        i = i + 1;
    }
    assert(piece_views(r@) =~= pieces_spec(e@.reading, e@.tones));
    r
}

// ───────────────────────── glosses ─────────────────────────

/// The texts of the first senses, up to `n`.
pub open spec fn first_glosses(s: Seq<SenseView>, n: nat) -> Seq<Seq<char>> {
    Seq::new(
        if s.len() < n {
            s.len()
        } else {
            n
        },
        |i: int| s[i].text,
    )
}

/// The first senses of an entry in one line.
pub fn gloss_line(e: &Entry, n: usize, sep: &str) -> (r: String)
    ensures
        r@ == join(first_glosses(e@.senses, n as nat), sep@),
{
    let mut v: Vec<String> = Vec::new();
    let mut i: usize = 0;
    while i < e.senses.len() && i < n
        invariant
            i <= e.senses.len(),
            i <= n,
            v.len() == i,
            forall|j: int| 0 <= j < i ==> (#[trigger] v@[j])@ == e@.senses[j].text,
        decreases e.senses.len() - i,
    {
        v.push(e.senses[i].text.clone());
        i = i + 1;
    }
    assert(texts(v@) =~= first_glosses(e@.senses, n as nat));
    join_strs(&v, sep)
}

/// The glosses of a candidate row: three, with the separator of their own language. The
/// glosses of a Chinese word are English, those of an English word Chinese.
pub open spec fn row_gloss_spec(e: EntryView) -> Seq<char> {
    join(
        first_glosses(e.senses, 3),
        if e.kind == KIND_ZH {
            "; "@
        } else {
            "；"@
        },
    )
}

pub fn row_gloss(e: &Entry) -> (r: String)
    ensures
        r@ == row_gloss_spec(e@),
{
    if e.is_zh() {
        gloss_line(e, 3, "; ")
    } else {
        gloss_line(e, 3, "；")
    }
}

/// The first `n` characters of a text.
pub fn clip(s: &str, n: usize) -> (r: String)
    ensures
        r@ == if s@.len() <= n {
            s@
        } else {
            s@.take(n as int)
        },
{
    let c = chars_of(s);
    if c.len() <= n {
        string_of(&c)
    } else {
        let t = slice_subrange(&c, 0, n);
        assert(t@ =~= s@.take(n as int));
        string_of(t)
    }
}

// ───────────────────────── the entry page ─────────────────────────

/// One sense as the page shows it.
pub struct SenseRow {
    /// Its number, where there are several senses.
    pub number: Option<usize>,
    pub pos: String,
    pub text: String,
    pub note: String,
    pub reg: String,
}

#[verifier::ext_equal]
pub struct SenseRowView {
    pub number: Option<usize>,
    pub pos: Seq<char>,
    pub text: Seq<char>,
    pub note: Seq<char>,
    pub reg: Seq<char>,
}

pub open spec fn sense_row_views(v: Seq<SenseRow>) -> Seq<SenseRowView> {
    Seq::new(
        v.len(),
        |i: int|
            SenseRowView {
                number: v[i].number,
                pos: v[i].pos@,
                text: v[i].text@,
                note: v[i].note@,
                reg: v[i].reg@,
            },
    )
}

/// The senses of an entry as the page shows them: numbered where there are several, each with
/// its own part of speech or else that of the entry.
pub open spec fn sense_rows_spec(e: EntryView) -> Seq<SenseRowView> {
    Seq::new(
        e.senses.len(),
        |i: int|
            SenseRowView {
                number: if e.senses.len() > 1 {
                    Some((i + 1) as usize)
                } else {
                    None
                },
                pos: if e.senses[i].pos.len() == 0 {
                    e.pos
                } else {
                    e.senses[i].pos
                },
                text: e.senses[i].text,
                note: e.senses[i].note,
                reg: e.senses[i].reg,
            },
    )
}

pub fn sense_rows(e: &Entry) -> (r: Vec<SenseRow>)
    ensures
        sense_row_views(r@) == sense_rows_spec(e@),
{
    let n: usize = e.senses.len();
    let numbered: bool = n > 1;
    let ghost want = sense_rows_spec(e@);
    let mut r: Vec<SenseRow> = Vec::new();
    let mut i: usize = 0;
    while i < n
        invariant
            n == e.senses.len(),
            numbered == (n > 1),
            want == sense_rows_spec(e@),
            i <= n,
            r.len() == i,
            forall|j: int| 0 <= j < i ==> #[trigger] sense_row_views(r@)[j] == want[j],
        decreases n - i,
    {
        let s = &e.senses[i];
        let ghost was = r@;
        let pos = if s.pos.as_str().unicode_len() == 0 {
            e.pos.clone()
        } else {
            s.pos.clone()
        };
        let x = SenseRow {
            number: if numbered {
                Some(i + 1)
            } else {
                None
            },
            pos,
            text: s.text.clone(),
            note: s.note.clone(),
            reg: s.reg.clone(),
        };
        r.push(x);
        proof {
            assert(e@.senses[i as int] == s@);
            assert forall|j: int| 0 <= j < i + 1 implies #[trigger] sense_row_views(r@)[j]
                == want[j] by {
                if j < i {
                    assert(sense_row_views(was)[j] == want[j]);
                } else {
                    assert(sense_row_views(r@)[j] =~= want[j]);
                }
            }
        }
        i = i + 1;
    }
    assert(sense_row_views(r@) =~= want);
    r
}

/// The line below the headword: the traditional form, where there is one.
pub fn meta_line(e: &Entry) -> (r: Option<String>)
    ensures
        match r {
            Some(s) => e@.trad.len() > 0 && s@ == "繁体 "@ + e@.trad,
            None => e@.trad.len() == 0,
        },
{
    if e.trad.as_str().unicode_len() == 0 {
        None
    } else {
        let mut o = chars_of("繁体 ");
        extend_str(&mut o, e.trad.as_str());
        Some(string_of(&o))
    }
}

/// The references of an entry that lead somewhere.
pub open spec fn live_refs(v: StoreView, refs: Seq<Seq<char>>) -> Seq<Seq<char>>
    decreases refs.len(),
{
    if refs.len() == 0 {
        Seq::empty()
    } else if looked_up(v, refs.last()) is Some {
        live_refs(v, refs.drop_last()).push(refs.last())
    } else {
        live_refs(v, refs.drop_last())
    }
}

/// Every reference is to a word that can be looked up.
pub open spec fn refs_comparable(v: StoreView, refs: Seq<Seq<char>>) -> bool {
    forall|i: int| 0 <= i < refs.len() ==> word_comparable(v, #[trigger] refs[i])
}

/// The references of an entry that the page offers: those that the store has an entry for.
pub fn links(store: &Store, e: &Entry) -> (r: Vec<String>)
    requires
        store@.readable(),
        refs_comparable(store@, e@.xrefs),
    ensures
        texts(r@) == live_refs(store@, e@.xrefs),
{
    let ghost all = e@.xrefs;
    let mut r: Vec<String> = Vec::new();
    let mut i: usize = 0;
    assert(all.take(0) =~= Seq::<Seq<char>>::empty());
    assert(texts(r@) =~= Seq::<Seq<char>>::empty());
    while i < e.xrefs.len()
        invariant
            store@.readable(),
            i <= e.xrefs.len(),
            all == e@.xrefs,
            refs_comparable(store@, all),
            texts(r@) == live_refs(store@, all.take(i as int)),
        decreases e.xrefs.len() - i,
    {
        proof {
            let t = all.take(i as int + 1);
            assert(t.drop_last() =~= all.take(i as int));
            assert(t.last() == e.xrefs@[i as int]@);
            assert(all[i as int] == e.xrefs@[i as int]@);
        }
        if store.lookup_word(e.xrefs[i].as_str()).is_some() {
            let x = e.xrefs[i].clone();
            proof {
                lemma_texts_push(r@, x);
            }
            r.push(x);
        }
        i = i + 1;
    }
    assert(all.take(i as int) =~= all);
    r
}

/// The references that the page offers like `links`, or nothing where one of them cannot be
/// looked up.
pub fn try_links(store: &Store, e: &Entry) -> (r: Option<Vec<String>>)
    requires
        store@.readable(),
    ensures
        match r {
            Some(l) => refs_comparable(store@, e@.xrefs) && texts(l@) == live_refs(
                store@,
                e@.xrefs,
            ),
            None => !refs_comparable(store@, e@.xrefs),
        },
{
    let mut i: usize = 0;
    while i < e.xrefs.len()
        invariant
            store@.readable(),
            i <= e.xrefs.len(),
            forall|j: int| 0 <= j < i ==> word_comparable(store@, #[trigger] e@.xrefs[j]),
        decreases e.xrefs.len() - i,
    {
        assert(e@.xrefs[i as int] == e.xrefs@[i as int]@);
        if store.try_lookup_word(e.xrefs[i].as_str()).is_none() {
            return None;
        }
        i = i + 1;
    }
    Some(links(store, e))
}

/// Whether a text is set in the type for Chinese: it holds a Han character.
pub fn is_chinese(s: &str) -> (r: bool)
    ensures
        r == has_cjk(s@),
{
    let c = chars_of(s);
    let mut i: usize = 0;
    while i < c.len()
        invariant
            c@ == s@,
            i <= c.len(),
            forall|j: int| 0 <= j < i ==> !crate::search::is_cjk_spec(#[trigger] c@[j]),
        decreases c.len() - i,
    {
        if is_cjk(c[i]) {
            assert(crate::search::is_cjk_spec(s@[i as int]));
            return true;
        }
        i = i + 1;
    }
    false
}

/// How many entries have rewritten senses, as the settings page says it.
pub fn rewritten_label(n: usize) -> (r: String)
    ensures
        r@ == if n > 0 {
            decimal(n as nat) + " 条"@
        } else {
            "未启用"@
        },
{
    if n > 0 {
        let mut o: Vec<char> = Vec::new();
        push_decimal(&mut o, n as u64);
        extend_str(&mut o, " 条");
        assert(o@ =~= decimal(n as nat) + " 条"@);
        string_of(&o)
    } else {
        let o = chars_of("未启用");
        string_of(&o)
    }
}

// ───────────────────────── candidates ─────────────────────────

/// A candidate as it is listed.
pub struct CandidateRow {
    /// Its place among the hits.
    pub place: usize,
    pub entry: Entry,
    pub gloss: String,
}

#[verifier::ext_equal]
pub struct CandidateRowView {
    pub place: usize,
    pub entry: EntryView,
    pub gloss: Seq<char>,
}

pub open spec fn candidate_views(v: Seq<CandidateRow>) -> Seq<CandidateRowView> {
    Seq::new(
        v.len(),
        |i: int|
            CandidateRowView { place: v[i].place, entry: v[i].entry@, gloss: v[i].gloss@ },
    )
}

/// The first `n` hits as they are listed: those whose entry can be read.
pub open spec fn listed_rows(v: StoreView, hits: Seq<Hit>, n: nat) -> Seq<CandidateRowView>
    decreases n,
{
    if n == 0 {
        Seq::empty()
    } else {
        let a = listed_rows(v, hits, (n - 1) as nat);
        let id = hits[n - 1].id;
        match entry_result(v, id) {
            Ok(e) => {
                let x = with_overlay(v, id, e);
                a.push(
                    CandidateRowView {
                        place: (n - 1) as usize,
                        entry: x,
                        gloss: row_gloss_spec(x),
                    },
                )
            },
            Err(_) => a,
        }
    }
}

/// The candidates as they are listed. One whose entry cannot be read is passed over.
pub fn candidate_rows(store: &Store, hits: &Vec<Hit>) -> (r: Vec<CandidateRow>)
    requires
        records_readable(store@),
    ensures
        candidate_views(r@) == listed_rows(store@, hits@, hits@.len()),
{
    let mut r: Vec<CandidateRow> = Vec::new();
    let mut i: usize = 0;
    assert(candidate_views(r@) =~= Seq::<CandidateRowView>::empty());
    while i < hits.len()
        invariant
            records_readable(store@),
            i <= hits.len(),
            candidate_views(r@) == listed_rows(store@, hits@, i as nat),
        decreases hits.len() - i,
    {
        match store.entry(hits[i].id) {
            Ok(entry) => {
                let gloss = row_gloss(&entry);
                let x = CandidateRow { place: i, entry, gloss };
                let ghost was = r@;
                r.push(x);
                assert(candidate_views(r@) =~= candidate_views(was).push(
                    CandidateRowView { place: x.place, entry: x.entry@, gloss: x.gloss@ },
                ));
            },
            Err(_) => {},
        }
        i = i + 1;
    }
    r
}

/// Whether to say that nothing matches: something was typed, and nothing was found.
pub fn says_no_match(query: &str, found: usize) -> (r: bool)
    ensures
        r == (found == 0 && trimmed(query@).len() > 0),
{
    let c = chars_of(query);
    found == 0 && trim(&c).len() > 0
}

// ───────────────────────── the page as a whole ─────────────────────────

/// How the reading of a headword is shown.
pub enum ReadingLine {
    /// Syllables in the colours of their tones.
    Pinyin(Vec<Piece>),
    Plain(String),
    Nothing,
}

/// One line of an example, which can be read aloud.
pub struct ExampleLine {
    pub text: String,
    pub chinese: bool,
}

pub open spec fn line_views(v: Seq<ExampleLine>) -> Seq<(Seq<char>, bool)> {
    Seq::new(v.len(), |i: int| (v[i].text@, v[i].chinese))
}

/// The lines of the first `n` examples: each sentence, then its translation.
pub open spec fn example_lines(e: EntryView, n: nat) -> Seq<(Seq<char>, bool)>
    decreases n,
{
    if n == 0 {
        Seq::empty()
    } else {
        let zh = e.kind == KIND_ZH;
        example_lines(e, (n - 1) as nat).push((e.examples[n - 1].a, zh)).push(
            (e.examples[n - 1].b, !zh),
        )
    }
}

/// Everything that the page of an entry shows below the headword.
pub struct EntryPage {
    pub reading: ReadingLine,
    pub meta: Option<String>,
    pub forms: Option<String>,
    pub senses: Vec<SenseRow>,
    /// Two lines to an example.
    pub lines: Vec<ExampleLine>,
    pub links: Vec<String>,
}

pub open spec fn reading_shows(r: ReadingLine, e: EntryView) -> bool {
    match r {
        ReadingLine::Pinyin(p) => e.kind == KIND_ZH && piece_views(p@) == pieces_spec(
            e.reading,
            e.tones,
        ),
        ReadingLine::Plain(s) => e.kind != KIND_ZH && e.reading.len() > 0 && s@ == e.reading,
        ReadingLine::Nothing => e.kind != KIND_ZH && e.reading.len() == 0,
    }
}

/// What the page of an entry shows.
pub open spec fn page_shows(p: EntryPage, v: StoreView, e: EntryView) -> bool {
    &&& reading_shows(p.reading, e)
    &&& match p.meta {
        Some(s) => e.trad.len() > 0 && s@ == "繁体 "@ + e.trad,
        None => e.trad.len() == 0,
    }
    &&& match p.forms {
        Some(s) => e.forms.len() > 0 && s@ == e.forms,
        None => e.forms.len() == 0,
    }
    &&& sense_row_views(p.senses@) == sense_rows_spec(e)
    &&& line_views(p.lines@) == example_lines(e, e.examples.len())
    &&& texts(p.links@) == live_refs(v, e.xrefs)
}

fn reading_line(e: &Entry) -> (r: ReadingLine)
    ensures
        reading_shows(r, e@),
{
    if e.is_zh() {
        ReadingLine::Pinyin(pinyin_pieces(e))
    } else if e.reading.as_str().unicode_len() > 0 {
        ReadingLine::Plain(e.reading.clone())
    } else {
        ReadingLine::Nothing
    }
}

fn lines_of(e: &Entry) -> (r: Vec<ExampleLine>)
    ensures
        line_views(r@) == example_lines(e@, e@.examples.len()),
{
    let zh: bool = e.is_zh();
    let mut r: Vec<ExampleLine> = Vec::new();
    let mut i: usize = 0;
    assert(line_views(r@) =~= Seq::<(Seq<char>, bool)>::empty());
    while i < e.examples.len()
        invariant
            i <= e.examples.len(),
            zh == (e@.kind == KIND_ZH),
            line_views(r@) == example_lines(e@, i as nat),
        decreases e.examples.len() - i,
    {
        let ghost was = r@;
        let a = e.examples[i].a.clone();
        let b = e.examples[i].b.clone();
        assert(e@.examples[i as int] == e.examples@[i as int]@);
        r.push(ExampleLine { text: a, chinese: zh });
        r.push(ExampleLine { text: b, chinese: !zh });
        assert(line_views(r@) =~= line_views(was).push((a@, zh)).push((b@, !zh)));
        i = i + 1;
    }
    r
}

/// Lays the page of an entry out, or gives nothing where one of its references cannot be
/// looked up.
pub fn entry_page(store: &Store, e: &Entry) -> (r: Option<EntryPage>)
    requires
        store@.readable(),
    ensures
        match r {
            Some(p) => refs_comparable(store@, e@.xrefs) && page_shows(p, store@, e@),
            None => !refs_comparable(store@, e@.xrefs),
        },
{
    let links = match try_links(store, e) {
        Some(l) => l,
        None => {
            return None;
        },
    };
    let forms = if e.forms.as_str().unicode_len() > 0 {
        Some(e.forms.clone())
    } else {
        None
    };
    Some(
        EntryPage {
            reading: reading_line(e),
            meta: meta_line(e),
            forms,
            senses: sense_rows(e),
            lines: lines_of(e),
            links,
        },
    )
}

// ───────────────────────── the settings page ─────────────────────────

/// What the settings page says of the voice.
pub open spec fn voice_text(s: Option<Status>) -> Seq<char> {
    match s {
        Some(Status::Ready { sample_rate, model }) => model@ + " · "@ + decimal(sample_rate as nat)
            + " Hz"@,
        Some(Status::Loading) => "加载中…"@,
        Some(Status::Failed(e)) => "加载失败："@ + e@,
        None => "不可用"@,
    }
}

/// What the settings page says of the voice; `s` is missing where there is none.
pub fn voice_line(s: Option<&Status>) -> (r: String)
    ensures
        r@ == voice_text(
            match s {
                Some(x) => Some(*x),
                None => None,
            },
        ),
{
    match s {
        Some(Status::Ready { sample_rate, model }) => {
            let mut o = chars_of(model.as_str());
            extend_str(&mut o, " · ");
            push_decimal(&mut o, *sample_rate as u64);
            extend_str(&mut o, " Hz");
            string_of(&o)
        },
        Some(Status::Loading) => {
            let o = chars_of("加载中…");
            string_of(&o)
        },
        Some(Status::Failed(e)) => {
            let mut o = chars_of("加载失败：");
            extend_str(&mut o, e.as_str());
            string_of(&o)
        },
        None => {
            let o = chars_of("不可用");
            string_of(&o)
        },
    }
}

/// What is wrong with the hotkey.
#[derive(Clone, Copy, Debug, PartialEq, Eq, Structural)]
pub enum HotkeyTrouble {
    Nothing,
    /// There is no tray to register it.
    NoTray,
    /// Other programs have taken every one.
    Taken,
}

/// What is wrong with the hotkey, given what the tray registered: nothing without a tray.
pub fn hotkey_trouble(tray: Option<Option<Hotkey>>) -> (r: HotkeyTrouble)
    ensures
        r == match tray {
            None => HotkeyTrouble::NoTray,
            Some(None) => HotkeyTrouble::Taken,
            Some(Some(_)) => HotkeyTrouble::Nothing,
        },
{
    match tray {
        None => HotkeyTrouble::NoTray,
        Some(None) => HotkeyTrouble::Taken,
        Some(Some(_)) => HotkeyTrouble::Nothing,
    }
}

/// The hotkey as the settings page shows it: while a new one is caught, that it is waited for.
pub fn hotkey_text(capturing: bool, hk: Hotkey) -> (r: String)
    ensures
        r@ == if capturing {
            "按下新的组合…"@
        } else {
            join(label_parts(hk), " + "@)
        },
{
    if capturing {
        let o = chars_of("按下新的组合…");
        string_of(&o)
    } else {
        hk.label()
    }
}

} // verus!
