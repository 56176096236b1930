//! The panel: below the input field stand either candidates or an entry, never both.
//!
//! There is a way back from everywhere. Typing returns to the candidates; the arrow keys
//! return to them with the selection kept; Escape returns to them first and clears them next.
use crate::letters::{lower_str, lowercase};
use crate::model::{Entry, EntryView};
use crate::search::{newcomers, stabilize, survivors, Hit};
use crate::single::Single;
use crate::store::{
    entry_result, looked_up, records_readable, with_overlay, word_comparable, Store, StoreError, StoreView,
};
use crate::text::{chars_of, has_prefix, starts_with};
use vstd::prelude::*;
use vstd::string::*;
use vstd::utf8::*;

verus! {

#[derive(Clone, Copy, Debug, PartialEq, Eq, Structural)]
pub enum Mode {
    List,
    Entry,
}

pub struct Panel {
    pub query: String,
    /// The query that the candidates belong to.
    pub last_query: String,
    pub cands: Vec<Hit>,
    /// Which candidate is selected.
    pub sel: usize,
    pub mode: Mode,
    pub entry: Option<Entry>,
    pub entry_id: Option<u32>,
    /// Whether the bar for tuning is shown.
    pub show_bar: bool,
}

/// What the panel holds.
#[verifier::ext_equal]
pub struct PanelView {
    pub query: Seq<char>,
    pub last_query: Seq<char>,
    pub cands: Seq<Hit>,
    pub sel: nat,
    pub mode: Mode,
    pub entry: Option<EntryView>,
    pub entry_id: Option<u32>,
    pub show_bar: bool,
}

impl View for Panel {
    type V = PanelView;

    open spec fn view(&self) -> PanelView {
        PanelView {
            query: self.query@,
            last_query: self.last_query@,
            cands: self.cands@,
            sel: self.sel as nat,
            mode: self.mode,
            entry: match self.entry {
                Some(e) => Some(e@),
                None => None,
            },
            entry_id: self.entry_id,
            show_bar: self.show_bar,
        }
    }
}

/// A query goes on from the last one: it is longer and begins with it, whatever the case.
pub open spec fn extends(last: Seq<char>, q: Seq<char>) -> bool {
    &&& last.len() > 0
    &&& encode_utf8(q).len() > encode_utf8(last).len()
    &&& starts_with(lowercase(q), lowercase(last))
}

/// The panel after a lookup. Where the query goes on from the last one, what is shown stays
/// in place.
pub open spec fn refreshed(v: PanelView, hits: Seq<Hit>, stable: bool) -> PanelView {
    PanelView {
        cands: if stable && extends(v.last_query, v.query) {
            survivors(v.cands, hits) + newcomers(v.cands, hits)
        } else {
            hits
        },
        last_query: v.query,
        sel: 0,
        mode: Mode::List,
        ..v
    }
}

/// The panel after an arrow key. On an entry it only goes back.
pub open spec fn moved(v: PanelView, down: bool) -> PanelView {
    if v.mode == Mode::Entry {
        PanelView { mode: Mode::List, ..v }
    } else if v.cands.len() == 0 {
        v
    } else {
        let to = if down {
            v.sel as int + 1
        } else {
            v.sel as int - 1
        };
        PanelView {
            sel: if to < 0 {
                0
            } else if to > v.cands.len() - 1 {
                (v.cands.len() - 1) as nat
            } else {
                to as nat
            },
            ..v
        }
    }
}

/// The panel after Escape: from an entry back to the candidates, from there to nothing.
pub open spec fn escaped_from(v: PanelView) -> PanelView {
    match v.mode {
        Mode::Entry => PanelView { mode: Mode::List, ..v },
        Mode::List => PanelView {
            query: Seq::empty(),
            last_query: Seq::empty(),
            cands: Seq::empty(),
            sel: 0,
            ..v
        },
    }
}

/// The panel with an entry open.
pub open spec fn showing(v: PanelView, id: u32, e: EntryView) -> PanelView {
    PanelView { entry: Some(e), entry_id: Some(id), mode: Mode::Entry, ..v }
}

/// What opening a candidate came to.
#[derive(Clone, Copy, Debug, PartialEq, Eq, Structural)]
pub enum Opening {
    /// There is no such candidate.
    Nothing,
    Shown,
    Failed(StoreError),
}

/// The panel after candidate `i` was opened, and what came of it.
pub open spec fn opened_at(v: PanelView, s: StoreView, i: int) -> (PanelView, Opening) {
    if 0 <= i < v.cands.len() {
        let id = v.cands[i].id;
        match entry_result(s, id) {
            Ok(e) => (showing(v, id, with_overlay(s, id, e)), Opening::Shown),
            Err(x) => (v, Opening::Failed(x)),
        }
    } else {
        (v, Opening::Nothing)
    }
}

/// The keys that were pressed.
#[derive(Clone, Copy, Debug, PartialEq, Eq, Structural)]
pub struct Keys {
    pub down: bool,
    pub up: bool,
    pub enter: bool,
    pub f1: bool,
    pub esc: bool,
}

/// The panel after keys, and what opening came to: the arrows first, then Enter, which opens
/// what is selected and does not look the input up, then F1 and Escape.
pub open spec fn pressed(v: PanelView, s: StoreView, k: Keys) -> (PanelView, Opening) {
    let a = if k.down || k.up {
        moved(v, k.down)
    } else {
        v
    };
    let (b, o) = if k.enter {
        opened_at(a, s, a.sel as int)
    } else {
        (a, Opening::Nothing)
    };
    let c = if k.f1 {
        PanelView { show_bar: !b.show_bar, ..b }
    } else {
        b
    };
    (
        if k.esc {
            escaped_from(c)
        } else {
            c
        },
        o,
    )
}

/// The panel once a headword was followed: on its entry, if it has one that can be read.
pub open spec fn at_word(p: PanelView, v: StoreView, word: Seq<char>) -> PanelView {
    match looked_up(v, word) {
        Some(id) => match entry_result(v, id) {
            Ok(e) => showing(p, id, with_overlay(v, id, e)),
            Err(_) => p,
        },
        None => p,
    }
}

impl Panel {
    pub fn new() -> (r: Self)
        ensures
            r@ == (PanelView {
                query: Seq::empty(),
                last_query: Seq::empty(),
                cands: Seq::empty(),
                sel: 0,
                mode: Mode::List,
                entry: None,
                entry_id: None,
                show_bar: false,
            }),
    {
        Panel {
            query: String::new(),
            last_query: String::new(),
            cands: Vec::new(),
            sel: 0,
            mode: Mode::List,
            entry: None,
            entry_id: None,
            show_bar: false,
        }
    }

    fn goes_on(&self) -> (r: bool)
        ensures
            r == extends(self.last_query@, self.query@),
    {
        let q = self.query.as_str();
        let l = self.last_query.as_str();
        if l.unicode_len() == 0 || q.as_bytes().len() <= l.as_bytes().len() {
            return false;
        }
        let a = chars_of(lower_str(q).as_str());
        let b = chars_of(lower_str(l).as_str());
        has_prefix(&a, &b)
    }

    /// Takes over the hits of a lookup.
    pub fn refresh(&mut self, hits: Vec<Hit>, stable: bool)
        ensures
            final(self)@ == refreshed(old(self)@, hits@, stable),
    {
        if stable && self.goes_on() {
            self.cands = stabilize(&self.cands, hits);
        } else {
            self.cands = hits;
        }
        self.last_query = self.query.clone();
        self.sel = 0;
        self.mode = Mode::List;
    }

    /// Forgets what the candidates belong to, so that the next lookup is free to reorder them.
    pub fn forget_order(&mut self)
        ensures
            final(self)@ == (PanelView { last_query: Seq::empty(), ..old(self)@ }),
    {
        self.last_query = String::new();
    }

    fn step(&mut self, down: bool)
        ensures
            final(self)@ == moved(old(self)@, down),
    {
        if self.mode == Mode::Entry {
            self.mode = Mode::List;
            return ;
        }
        let n: usize = self.cands.len();
        if n == 0 {
            return ;
        }
        if down {
            self.sel = if self.sel >= n - 1 {
                n - 1
            } else {
                self.sel + 1
            };
        } else {
            self.sel = if self.sel == 0 {
                0
            } else if self.sel - 1 > n - 1 {
                n - 1
            } else {
                self.sel - 1
            };
        }
    }

    fn escape(&mut self)
        ensures
            final(self)@ == escaped_from(old(self)@),
    {
        match self.mode {
            Mode::Entry => {
                self.mode = Mode::List;
            },
            Mode::List => {
                self.query = String::new();
                self.last_query = String::new();
                self.cands = Vec::new();
                self.sel = 0;
            },
        }
    }

    fn show(&mut self, id: u32, e: Entry)
        ensures
            final(self)@ == showing(old(self)@, id, e@),
    {
        self.entry = Some(e);
        self.entry_id = Some(id);
        self.mode = Mode::Entry;
    }

    /// Opens a candidate.
    pub fn open(&mut self, store: &Store, i: usize) -> (r: Opening)
        requires
            records_readable(store@),
        ensures
            (final(self)@, r) == opened_at(old(self)@, store@, i as int),
    {
        if i >= self.cands.len() {
            return Opening::Nothing;
        }
        let id: u32 = self.cands[i].id;
        match store.entry(id) {
            Ok(e) => {
                self.show(id, e);
                Opening::Shown
            },
            Err(x) => Opening::Failed(x),
        }
    }

    /// Selects a candidate and opens it.
    pub fn click(&mut self, store: &Store, i: usize) -> (r: Opening)
        requires
            records_readable(store@),
        ensures
            (final(self)@, r) == opened_at(
                PanelView { sel: i as nat, ..old(self)@ },
                store@,
                i as int,
            ),
    {
        self.sel = i;
        self.open(store, i)
    }

    /// Opens the headword spelt so, if there is one that can be read.
    pub fn open_word(&mut self, store: &Store, word: &str)
        requires
            store@.readable(),
            word_comparable(store@, word@),
        ensures
            final(self)@ == at_word(old(self)@, store@, word@),
    {
        match store.lookup_word(word) {
            Some(id) => {
                match store.entry(id) {
                    Ok(e) => {
                        self.show(id, e);
                    },
                    Err(_) => {},
                }
            },
            None => {},
        }
    }

    /// Opens a headword like `open_word` and says so, or leaves everything as it is where the
    /// word cannot be looked up.
    pub fn try_open_word(&mut self, store: &Store, word: &str) -> (r: bool)
        requires
            store@.readable(),
        ensures
            r == word_comparable(store@, word@),
            !r ==> final(self)@ == old(self)@,
            r ==> final(self)@ == at_word(old(self)@, store@, word@),
    {
        match store.try_lookup_word(word) {
            Some(_) => {
                self.open_word(store, word);
                true
            },
            None => false,
        }
    }

    /// Handles the keys that were pressed, before the input field sees them.
    pub fn handle_keys(&mut self, store: &Store, k: Keys) -> (r: Opening)
        requires
            records_readable(store@),
        ensures
            (final(self)@, r) == pressed(old(self)@, store@, k),
    {
        let ghost was = self@;
        if k.down || k.up {
            self.step(k.down);
        }
        let mut r = Opening::Nothing;
        if k.enter {
            let at: usize = self.sel;
            r = self.open(store, at);
        }
        if k.f1 {
            self.show_bar = !self.show_bar;
        }
        if k.esc {
            self.escape();
        }
        r
    }
}

/// Whatever an entry page was reached by, one key leads back to the candidates: an arrow and
/// Escape, both with the selection and the candidates kept.
pub proof fn law_there_is_a_way_back(v: PanelView, down: bool)
    requires
        v.mode == Mode::Entry,
    ensures
        moved(v, down) == (PanelView { mode: Mode::List, ..v }),
        escaped_from(v) == (PanelView { mode: Mode::List, ..v }),
{
}

/// Escape twice clears the panel from anywhere.
pub proof fn law_escape_twice_clears(v: PanelView)
    ensures
        escaped_from(escaped_from(v)).mode == Mode::List,
        escaped_from(escaped_from(v)).query.len() == 0,
        escaped_from(escaped_from(v)).cands.len() == 0,
        escaped_from(escaped_from(v)).sel == 0,
{
}

/// Typing always leads to the candidates, with the first one selected.
pub proof fn law_typing_returns_to_the_list(v: PanelView, hits: Seq<Hit>, stable: bool)
    ensures
        refreshed(v, hits, stable).mode == Mode::List,
        refreshed(v, hits, stable).sel == 0,
{
}

/// A selection within the candidates stays within them, whatever key is pressed.
pub proof fn law_selection_stays_in_range(v: PanelView, s: StoreView, k: Keys)
    requires
        v.cands.len() == 0 || v.sel < v.cands.len(),
    ensures
        ({
            let w = pressed(v, s, k).0;
            w.cands.len() == 0 || w.sel < w.cands.len()
        }),
{
}

// ───────────────────────── tuning ─────────────────────────

/// Two numbers are equal, as IEEE 754 has it: NaN equals nothing, and the zeros are equal.
pub open spec fn same_number(a: Single, b: Single) -> bool {
    !a.is_nan_spec() && !b.is_nan_spec() && a.order() == b.order()
}

fn number_same(a: Single, b: Single) -> (r: bool)
    ensures
        r == same_number(a, b),
{
    !a.is_nan() && !b.is_nan() && !a.less(b) && !b.less(a)
}

/// Whether two sets of parameters rank alike.
pub fn params_eq(a: &crate::search::Params, b: &crate::search::Params) -> (r: bool)
    ensures
        r == (same_number(a.exact_bonus, b.exact_bonus) && same_number(a.lambda, b.lambda)
            && same_number(a.secondary, b.secondary) && a.max_secondary == b.max_secondary
            && a.limit == b.limit),
{
    number_same(a.exact_bonus, b.exact_bonus) && number_same(a.lambda, b.lambda) && number_same(
        a.secondary,
        b.secondary,
    ) && a.max_secondary == b.max_secondary && a.limit == b.limit
}

} // verus!
