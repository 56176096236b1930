//! Scoring and merging.
//!
//! ```text
//! score = weight · scale · percentile + bonus − λ · (key length − query length)
//! ```
//!
//! 1. Frequencies become percentiles first: counts and ranks have different units.
//! 2. A key matched in full earns a bonus. Who opens a dictionary mostly knows the word, so
//!    the word typed must beat a more common one.
//! 3. A hit on a headword counts in full, one on a gloss by half.
//!
//! A lookup has three steps. `Store::gather` finds the candidates, `Params::terms` says of
//! each what goes into its score, and `rank` turns scored candidates into hits. The
//! arithmetic of the formula is the caller's.
use crate::fasthash::{IdMap, IdSet};
use crate::fstmap::{value_at, with_prefix, FstEntries};
use crate::lane::{Lane, LANES};
use crate::letters::{lower, lowercase, lowers, plain_lower};
use crate::order::{arranged, lemma_arranged_complete, sort_indices, IndexOrder};
use crate::single::Single;
use crate::store::{
    find_posting, ids_of, ids_spec, keys_of, lemma_value_listed, posting, unpack_top, visited_len, IndexView, Store,
    StoreView, MAX_TOP_PREFIX,
};
pub use crate::text::{is_cjk, is_cjk_spec};
use crate::text::{
    chars_of, is_space_spec, lemma_blank_trims, lemma_trimmed_ends, lemma_trimmed_keeps,
    starts_with, string_of, trim, trimmed,
};
use vstd::prelude::*;
use vstd::std_specs::hash::*;
use vstd::string::*;
use vstd::utf8::*;

verus! {

// ───────────────────────── parameters ─────────────────────────

#[derive(Clone, Copy, Debug)]
pub struct Params {
    pub scale: Single,
    /// What a key matched in full earns.
    pub exact_bonus: Single,
    /// What each character that the key is longer than the query costs.
    pub lambda: Single,
    /// The share of `exact_bonus` that a lane of the second class earns.
    pub secondary: Single,
    pub limit: usize,
    /// How many hits of the second class a result holds at most. Their weight alone does not
    /// hold them back: a gloss matched in full earns a bonus too, and a common one matches
    /// dozens of words.
    pub max_secondary: usize,
    /// How many keys of a lane are visited at most.
    pub budget: usize,
}

impl Default for Params {
    /// Scale 8, bonus 6, λ 0.35, half of the bonus for the second class; 8 hits, 3 of them of
    /// the second class, and 250 000 keys.
    fn default() -> (r: Self)
        ensures
            r.scale.bits == 0x4100_0000,
            r.exact_bonus.bits == 0x40C0_0000,
            r.lambda.bits == 0x3EB3_3333,
            r.secondary.bits == 0x3F00_0000,
            r.limit == 8,
            r.max_secondary == 3,
            r.budget == 250_000,
    {
        Params {
            scale: Single { bits: 0x4100_0000 },
            exact_bonus: Single { bits: 0x40C0_0000 },
            lambda: Single { bits: 0x3EB3_3333 },
            secondary: Single { bits: 0x3F00_0000 },
            limit: 8,
            max_secondary: 3,
            budget: 250_000,
        }
    }
}

/// Which bonus a hit earns.
#[derive(Clone, Copy, Debug, PartialEq, Eq, Structural)]
pub enum Bonus {
    Nothing,
    /// `exact_bonus`.
    Full,
    /// `exact_bonus` times `secondary`.
    Secondary,
}

/// What goes into the score of a candidate beside its percentile.
#[derive(Clone, Copy, Debug, PartialEq, Eq, Structural)]
pub struct ScoreTerms {
    pub weight: Single,
    pub bonus: Bonus,
    /// How many characters the key is longer than the query.
    pub over: usize,
}

/// The terms of a candidate: a bonus for a key as long as the query, save inside headwords.
pub open spec fn terms_spec(lane: Lane, key_len: usize, q_len: usize) -> ScoreTerms {
    ScoreTerms {
        weight: lane.weight_spec(),
        bonus: if key_len != q_len || lane == Lane::ZhSub {
            Bonus::Nothing
        } else if lane.is_secondary_spec() {
            Bonus::Secondary
        } else {
            Bonus::Full
        },
        over: if key_len > q_len {
            (key_len - q_len) as usize
        } else {
            0
        },
    }
}

impl Params {
    /// What the score of a candidate is made of. The build step uses it as well, so that the
    /// tables of short prefixes rank as a lookup does.
    pub fn terms(lane: Lane, key_len: usize, q_len: usize) -> (r: ScoreTerms)
        ensures
            r == terms_spec(lane, key_len, q_len),
    {
        let exact: bool = key_len == q_len && lane.allows_exact_bonus();
        let bonus = if !exact {
            Bonus::Nothing
        } else if lane.is_secondary() {
            Bonus::Secondary
        } else {
            Bonus::Full
        };
        let over: usize = if key_len > q_len {
            key_len - q_len
        } else {
            0
        };
        ScoreTerms { weight: lane.weight(), bonus, over }
    }
}

#[derive(Clone, Copy, Debug, PartialEq, Eq, Structural)]
pub struct Hit {
    pub id: u32,
    pub lane: Lane,
    pub score: Single,
}

#[derive(Clone, Debug)]
pub struct Results {
    pub hits: Vec<Hit>,
    /// Some lane was cut short by the budget, so the result may be incomplete.
    pub truncated: bool,
    /// How many keys were visited.
    pub scanned: usize,
}

// ───────────────────────── gathering ─────────────────────────

/// An entry found through a key of a lane.
#[derive(Clone, Copy, Debug, PartialEq, Eq, Structural)]
pub struct Candidate {
    pub id: u32,
    pub lane: Lane,
    /// The length of the key in characters.
    pub key_len: usize,
}

/// What a lookup finds before it is scored.
#[derive(Clone, Debug)]
pub struct Gathered {
    /// The length of the query in characters.
    pub q_len: usize,
    pub candidates: Vec<Candidate>,
    pub truncated: bool,
    pub scanned: usize,
}

/// Calls `std::str::from_utf8`: the text that the bytes encode, where they are UTF-8.
#[verifier::external_body]
fn utf8_str(b: &[u8]) -> (r: Option<&str>)
    ensures
        r is Some == valid_utf8(b@),
        r matches Some(s) ==> s.spec_bytes() == b@,
{
    std::str::from_utf8(b).ok()
}

/// The length of a key: in characters, or in bytes where it is no text.
pub open spec fn key_length(k: Seq<u8>) -> nat {
    if valid_utf8(k) {
        decode_utf8(k).len()
    } else {
        k.len()
    }
}

fn key_len_of(k: &[u8]) -> (r: usize)
    ensures
        r == key_length(k@),
{
    match utf8_str(k) {
        Some(s) => {
            proof {
                encode_utf8_decode_utf8(s@);
            }
            s.unicode_len()
        },
        None => k.len(),
    }
}

pub open spec fn has_cjk(q: Seq<char>) -> bool {
    exists|i: int| 0 <= i < q.len() && is_cjk_spec(#[trigger] q[i])
}

/// The lanes that a query runs: with a Han character the Chinese side and the Chinese glosses
/// of English words, without one every lane, since Latin letters stand in Chinese headwords
/// and glosses too (`OK` in 卡拉OK).
pub open spec fn lanes_for(q: Seq<char>) -> Seq<Lane> {
    if has_cjk(q) {
        seq![Lane::Zh, Lane::ZhSub, Lane::Trans]
    } else {
        LANES@
    }
}

/// More than four letters are hardly initials, and fewer than three would drown the
/// headwords in glosses.
pub open spec fn lane_runs(lane: Lane, q_len: nat) -> bool {
    !(lane == Lane::Ini && q_len > 4) && !(lane == Lane::Gloss && q_len < 3)
}

/// The ids of one posting list as candidates.
pub open spec fn posting_candidates(ids: Seq<u32>, lane: Lane, key_len: nat) -> Seq<Candidate> {
    Seq::new(ids.len(), |i: int| Candidate { id: ids[i], lane, key_len: key_len as usize })
}

/// The candidates of the keys visited.
pub open spec fn scan_candidates(m: Seq<(Seq<u8>, Seq<u8>)>, lane: Lane) -> Seq<Candidate>
    decreases m.len(),
{
    if m.len() == 0 {
        Seq::empty()
    } else {
        scan_candidates(m.drop_last(), lane) + posting_candidates(
            ids_spec(m.last().1),
            lane,
            key_length(m.last().0),
        )
    }
}

/// The candidates of a table of short prefixes.
pub open spec fn top_candidates(packed: Seq<u32>, lane: Lane) -> Seq<Candidate> {
    Seq::new(
        packed.len(),
        |i: int|
            Candidate {
                id: packed[i] % 0x100_0000,
                lane,
                key_len: (packed[i] / 0x100_0000) as usize,
            },
    )
}

/// What one lane contributes.
pub struct LaneFinds {
    pub candidates: Seq<Candidate>,
    pub truncated: bool,
    pub scanned: nat,
}

/// What a lane contributes to a lookup: nothing where it does not run or has no index; for a
/// short query its precomputed list, where there is one; else the keys that start with the
/// query, up to the budget, and where that cut it short the exact key once more.
pub open spec fn lane_finds(v: StoreView, lane: Lane, q: Seq<char>, budget: nat) -> LaneFinds {
    if !lane_runs(lane, q.len()) || v.lanes[lane.idx_spec() as int] is None {
        LaneFinds { candidates: Seq::empty(), truncated: false, scanned: 0 }
    } else if q.len() <= MAX_TOP_PREFIX && v.top(lane, q) is Some {
        LaneFinds {
            candidates: top_candidates(ids_spec(v.top(lane, q)->0), lane),
            truncated: false,
            scanned: 0,
        }
    } else {
        let n = visited_len(v, lane, q, budget);
        let found = scan_candidates(v.matches(lane, q).take(n as int), lane);
        let rescued = match v.exact(lane, q) {
            Some(raw) => posting_candidates(ids_spec(raw), lane, q.len()),
            None => Seq::empty(),
        };
        LaneFinds {
            candidates: if n >= budget {
                found + rescued
            } else {
                found
            },
            truncated: n >= budget,
            scanned: n,
        }
    }
}

/// What several lanes contribute, one after the other.
pub open spec fn finds(v: StoreView, lanes: Seq<Lane>, q: Seq<char>, budget: nat) -> LaneFinds
    decreases lanes.len(),
{
    if lanes.len() == 0 {
        LaneFinds { candidates: Seq::empty(), truncated: false, scanned: 0 }
    } else {
        let a = finds(v, lanes.drop_last(), q, budget);
        let b = lane_finds(v, lanes.last(), q, budget);
        LaneFinds {
            candidates: a.candidates + b.candidates,
            truncated: a.truncated || b.truncated,
            scanned: a.scanned + b.scanned,
        }
    }
}

/// The query as it is looked up.
pub open spec fn folded(query: Seq<char>) -> Seq<char> {
    lowercase(trimmed(query))
}

/// What a lookup gathers. A blank query finds nothing.
pub open spec fn gathered(v: StoreView, query: Seq<char>, budget: nat) -> LaneFinds {
    if trimmed(query).len() == 0 {
        LaneFinds { candidates: Seq::empty(), truncated: false, scanned: 0 }
    } else {
        finds(v, lanes_for(folded(query)), folded(query), budget)
    }
}

/// A blank query finds nothing, visits nothing and is not cut short.
pub proof fn law_blank_queries_find_nothing(v: StoreView, query: Seq<char>, budget: nat)
    requires
        forall|i: int| 0 <= i < query.len() ==> is_space_spec(#[trigger] query[i]),
    ensures
        gathered(v, query, budget).candidates.len() == 0,
        !gathered(v, query, budget).truncated,
        gathered(v, query, budget).scanned == 0,
{
    lemma_blank_trims(query);
}

/// Surrounding blanks do not matter: what a query finds is what it finds without them.
pub proof fn law_blanks_do_not_matter(v: StoreView, query: Seq<char>, budget: nat)
    ensures
        trimmed(trimmed(query)) == trimmed(query),
        folded(trimmed(query)) == folded(query),
        gathered(v, trimmed(query), budget) == gathered(v, query, budget),
{
    lemma_trimmed_ends(query);
    lemma_trimmed_keeps(trimmed(query));
}

/// Case and surrounding blanks do not matter: what a query finds is what its trimmed form in
/// lower case finds.
pub proof fn law_case_and_blanks_do_not_matter(v: StoreView, query: Seq<char>, budget: nat)
    requires
        lowers(trimmed(query)),
    ensures
        folded(folded(query)) == folded(query),
        trimmed(query).len() == 0 <==> trimmed(folded(query)).len() == 0,
        gathered(v, folded(query), budget) == gathered(v, query, budget),
{
    let t = trimmed(query);
    lemma_trimmed_ends(query);
    lemma_trimmed_keeps(folded(query));
    if t.len() == 0 {
        assert(plain_lower(t) =~= t);
    }
}

fn any_cjk(s: &Vec<char>) -> (r: bool)
    ensures
        r == has_cjk(s@),
{
    let mut i: usize = 0;
    while i < s.len()
        invariant
            i <= s.len(),
            forall|j: int| 0 <= j < i ==> !is_cjk_spec(#[trigger] s@[j]),
        decreases s.len() - i,
    {
        if is_cjk(s[i]) {
            assert(is_cjk_spec(s@[i as int]));
            return true;
        }
        i = i + 1;
    }
    false
}

fn push_posting(out: &mut Vec<Candidate>, raw: &[u8], lane: Lane, key_len: usize)
    ensures
        final(out)@ == old(out)@ + posting_candidates(ids_spec(raw@), lane, key_len as nat),
{
    let ids = ids_of(raw);
    let ghost before = out@;
    let ghost all = posting_candidates(ids@, lane, key_len as nat);
    let mut i: usize = 0;
    while i < ids.len()
        invariant
            i <= ids.len(),
            all == posting_candidates(ids@, lane, key_len as nat),
            out@ == before + all.take(i as int),
        decreases ids.len() - i,
    {
        out.push(Candidate { id: ids[i], lane, key_len });
        assert(all.take(i as int + 1) =~= all.take(i as int).push(all[i as int]));
        i = i + 1;
    }
    assert(all.take(i as int) =~= all);
}

fn push_top(out: &mut Vec<Candidate>, raw: &[u8], lane: Lane)
    ensures
        final(out)@ == old(out)@ + top_candidates(ids_spec(raw@), lane),
{
    let packed = ids_of(raw);
    let ghost before = out@;
    let ghost all = top_candidates(packed@, lane);
    let mut i: usize = 0;
    while i < packed.len()
        invariant
            i <= packed.len(),
            all == top_candidates(packed@, lane),
            out@ == before + all.take(i as int),
        decreases packed.len() - i,
    {
        let (key_len, id) = unpack_top(packed[i]);
        out.push(Candidate { id, lane, key_len });
        assert(all.take(i as int + 1) =~= all.take(i as int).push(all[i as int]));
        i = i + 1;
    }
    assert(all.take(i as int) =~= all);
}

impl<'a> Store<'a> {
    /// Runs one lane and appends what it finds. Returns whether it was cut short and how many
    /// keys it visited.
    fn run_lane(
        &self,
        out: &mut Vec<Candidate>,
        lane: Lane,
        q: &str,
        q_len: usize,
        budget: usize,
    ) -> (r: (bool, usize))
        requires
            self@.readable(),
            q_len == q@.len(),
        ensures
            final(out)@ == old(out)@ + lane_finds(self@, lane, q@, budget as nat).candidates,
            r.0 == lane_finds(self@, lane, q@, budget as nat).truncated,
            r.1 == lane_finds(self@, lane, q@, budget as nat).scanned,
    {
        let ghost before = out@;
        let skip: bool = match lane {
            Lane::Ini => q_len > 4,
            Lane::Gloss => q_len < 3,
            _ => false,
        };
        if skip || !self.has_lane(lane) {
            assert(out@ =~= before + Seq::<Candidate>::empty());
            return (false, 0);
        }
        if q_len <= MAX_TOP_PREFIX {
            match self.top_postings(lane, q) {
                Some(raw) => {
                    push_top(out, raw, lane);
                    return (false, 0);
                },
                None => {},
            }
        }
        let seen = self.scan_prefix(lane, q, budget);
        let ghost m = self@.matches(lane, q@).take(seen.len() as int);
        let mut i: usize = 0;
        assert(m.take(0) =~= Seq::<(Seq<u8>, Seq<u8>)>::empty());
        assert(out@ =~= before + scan_candidates(m.take(0), lane));
        while i < seen.len()
            invariant
                i <= seen.len(),
                m.len() == seen.len(),
                forall|j: int|
                    0 <= j < seen.len() ==> (#[trigger] seen@[j]).0@ == m[j].0 && seen@[j].1@
                        == m[j].1,
                out@ == before + scan_candidates(m.take(i as int), lane),
            decreases seen.len() - i,
        {
            let k: usize = key_len_of(&seen[i].0);
            push_posting(out, seen[i].1, lane, k);
            proof {
                let t = m.take(i as int + 1);
                assert(t.drop_last() =~= m.take(i as int));
                assert(t.last() == m[i as int]);
                assert(out@ =~= before + scan_candidates(t, lane));
            }
            i = i + 1;
        }
        assert(m.take(i as int) =~= m);
        if seen.len() >= budget {
            match self.exact_key(lane, q) {
                Some(raw) => {
                    push_posting(out, raw, lane, q_len);
                },
                None => {},
            }
            assert(out@ =~= before + lane_finds(self@, lane, q@, budget as nat).candidates);
            (true, seen.len())
        } else {
            (false, seen.len())
        }
    }

    /// Everything that a query finds, in the order of the lanes.
    pub fn gather(&self, query: &str, budget: usize) -> (r: Gathered)
        requires
            self@.readable(),
        ensures
            r.candidates@ == gathered(self@, query@, budget as nat).candidates,
            r.truncated == gathered(self@, query@, budget as nat).truncated,
            r.scanned == if gathered(self@, query@, budget as nat).scanned < usize::MAX {
                gathered(self@, query@, budget as nat).scanned
            } else {
                usize::MAX as nat
            },
            trimmed(query@).len() > 0 ==> r.q_len == folded(query@).len(),
            trimmed(query@).len() == 0 ==> r.q_len == 0,
            gathered(self@, trimmed(query@), budget as nat) == gathered(
                self@,
                query@,
                budget as nat,
            ),
            gathered(self@, folded(query@), budget as nat) == gathered(
                self@,
                query@,
                budget as nat,
            ),
    {
        let c = chars_of(query);
        let t = trim(&c);
        let mut candidates: Vec<Candidate> = Vec::new();
        let low = lower(t);
        proof {
            law_blanks_do_not_matter(self@, query@, budget as nat);
            law_case_and_blanks_do_not_matter(self@, query@, budget as nat);
        }
        if t.len() == 0 {
            return Gathered { q_len: 0, candidates, truncated: false, scanned: 0 };
        }
        let q_len: usize = low.len();
        let q = string_of(&low);
        let lanes: Vec<Lane> = if any_cjk(&low) {
            vec![Lane::Zh, Lane::ZhSub, Lane::Trans]
        } else {
            vec![
                Lane::Zh,
                Lane::ZhSub,
                Lane::Enw,
                Lane::Py,
                Lane::Ini,
                Lane::Gloss,
                Lane::Trans,
            ]
        };
        assert(lanes@ =~= lanes_for(low@));
        let mut truncated: bool = false;
        let mut scanned: usize = 0;
        let mut i: usize = 0;
        assert(lanes@.take(0) =~= Seq::<Lane>::empty());
        while i < lanes.len()
            invariant
                self@.readable(),
                q_len == q@.len(),
                i <= lanes.len(),
                candidates@ == finds(self@, lanes@.take(i as int), q@, budget as nat).candidates,
                truncated == finds(self@, lanes@.take(i as int), q@, budget as nat).truncated,
                ({
                    let n = finds(self@, lanes@.take(i as int), q@, budget as nat).scanned;
                    scanned == if n < usize::MAX {
                        n
                    } else {
                        usize::MAX as nat
                    }
                }),
            decreases lanes.len() - i,
        {
            let (cut, seen) = self.run_lane(&mut candidates, lanes[i], q.as_str(), q_len, budget);
            proof {
                assert(lanes@.take(i as int + 1).drop_last() =~= lanes@.take(i as int));
                assert(lanes@.take(i as int + 1).last() == lanes@[i as int]);
            }
            truncated = truncated || cut;
            scanned = if scanned > usize::MAX - seen {
                usize::MAX
            } else {
                scanned + seen
            };
            i = i + 1;
        }
        assert(lanes@.take(i as int) =~= lanes@);
        Gathered { q_len, candidates, truncated, scanned }
    }
}

// ───────────────────────── ranking ─────────────────────────

/// Candidate `k`, scored.
pub open spec fn hit_at(c: Seq<Candidate>, s: Seq<Single>, k: int) -> Hit {
    Hit { id: c[k].id, lane: c[k].lane, score: s[k] }
}

/// Among the first `n` candidates, `k` stands for its entry: no other of the same id scores
/// more, and none before it as much.
pub open spec fn stands_for(c: Seq<Candidate>, s: Seq<Single>, n: int, k: int) -> bool {
    &&& 0 <= k < n
    &&& forall|j: int|
        0 <= j < n && (#[trigger] c[j]).id == c[k].id && j != k ==> if j < k {
            s[j].order() < s[k].order()
        } else {
            s[j].order() <= s[k].order()
        }
}

/// `a` ranks ahead of `b`: a higher score, or the same with a smaller id.
pub open spec fn ahead(a: Hit, b: Hit) -> bool {
    a.score.order() > b.score.order() || (a.score.order() == b.score.order() && a.id < b.id)
}

/// `h` is the candidate that stands for its entry, scored.
pub open spec fn is_best(c: Seq<Candidate>, s: Seq<Single>, h: Hit) -> bool {
    exists|k: int| #[trigger] stands_for(c, s, c.len() as int, k) && hit_at(c, s, k) == h
}

/// `r` ranks the candidates: each entry once, by the candidate that stands for it.
pub open spec fn ranks(c: Seq<Candidate>, s: Seq<Single>, r: Seq<Hit>) -> bool {
    &&& forall|i: int, j: int| 0 <= i < j < r.len() ==> #[trigger] ahead(r[i], r[j])
    &&& forall|i: int| 0 <= i < r.len() ==> is_best(c, s, #[trigger] r[i])
    &&& forall|k: int| #[trigger]
        stands_for(c, s, c.len() as int, k) ==> r.contains(hit_at(c, s, k))
}

/// The ranking of scored candidates.
pub open spec fn ranked(c: Seq<Candidate>, s: Seq<Single>) -> Seq<Hit> {
    choose|r: Seq<Hit>| ranks(c, s, r)
}

/// The hits shown: in order, up to `room` of them, of which up to `spare` of the second class.
pub open spec fn picked(r: Seq<Hit>, room: nat, spare: nat) -> Seq<Hit>
    decreases r.len(),
{
    if r.len() == 0 || room == 0 {
        Seq::empty()
    } else if !r[0].lane.is_secondary_spec() {
        seq![r[0]] + picked(r.drop_first(), (room - 1) as nat, spare)
    } else if spare == 0 {
        picked(r.drop_first(), room, spare)
    } else {
        seq![r[0]] + picked(r.drop_first(), (room - 1) as nat, (spare - 1) as nat)
    }
}

/// There is one ranking at most.
pub proof fn lemma_ranks_unique(c: Seq<Candidate>, s: Seq<Single>, a: Seq<Hit>, b: Seq<Hit>)
    requires
        ranks(c, s, a),
        ranks(c, s, b),
    ensures
        a == b,
{
    lemma_ranks_members(c, s, a, b);
    lemma_ranks_members(c, s, b, a);
    lemma_same_order(a, b);
}

proof fn lemma_ranks_members(c: Seq<Candidate>, s: Seq<Single>, a: Seq<Hit>, b: Seq<Hit>)
    requires
        ranks(c, s, a),
        ranks(c, s, b),
    ensures
        forall|i: int| 0 <= i < a.len() ==> b.contains(#[trigger] a[i]),
{
    assert forall|i: int| 0 <= i < a.len() implies b.contains(#[trigger] a[i]) by {
        assert(is_best(c, s, a[i]));
        let k = choose|k: int| #[trigger]
            stands_for(c, s, c.len() as int, k) && hit_at(c, s, k) == a[i];
        assert(b.contains(hit_at(c, s, k)));
    }
}

/// Two lists in strict order with the same members are one list.
proof fn lemma_same_order(a: Seq<Hit>, b: Seq<Hit>)
    requires
        forall|i: int, j: int| 0 <= i < j < a.len() ==> #[trigger] ahead(a[i], a[j]),
        forall|i: int, j: int| 0 <= i < j < b.len() ==> #[trigger] ahead(b[i], b[j]),
        forall|i: int| 0 <= i < a.len() ==> b.contains(#[trigger] a[i]),
        forall|i: int| 0 <= i < b.len() ==> a.contains(#[trigger] b[i]),
    ensures
        a == b,
    decreases a.len(),
{
    if a.len() == 0 {
        if b.len() > 0 {
            assert(a.contains(b[0]));
        }
        assert(a =~= b);
    } else {
        assert(b.contains(a[0]));
        let i = choose|i: int| 0 <= i < b.len() && b[i] == a[0];
        assert(a.contains(b[0]));
        let j = choose|j: int| 0 <= j < a.len() && a[j] == b[0];
        if i > 0 {
            assert(ahead(b[0], b[i]));
            if j > 0 {
                assert(ahead(a[0], a[j]));
            }
        }
        assert(a[0] == b[0]);
        let x = a.drop_first();
        let y = b.drop_first();
        assert forall|i: int, j: int| 0 <= i < j < x.len() implies #[trigger] ahead(
            x[i],
            x[j],
        ) by {
            assert(ahead(a[i + 1], a[j + 1]));
        }
        assert forall|i: int, j: int| 0 <= i < j < y.len() implies #[trigger] ahead(
            y[i],
            y[j],
        ) by {
            assert(ahead(b[i + 1], b[j + 1]));
        }
        assert forall|i: int| 0 <= i < x.len() implies y.contains(#[trigger] x[i]) by {
            assert(b.contains(a[i + 1]));
            let k = choose|k: int| 0 <= k < b.len() && b[k] == a[i + 1];
            assert(ahead(a[0], a[i + 1]));
            assert(k > 0);
            assert(y[k - 1] == x[i]);
        }
        assert forall|i: int| 0 <= i < y.len() implies x.contains(#[trigger] y[i]) by {
            assert(a.contains(b[i + 1]));
            let k = choose|k: int| 0 <= k < a.len() && a[k] == b[i + 1];
            assert(ahead(b[0], b[i + 1]));
            assert(k > 0);
            assert(x[k - 1] == y[i]);
        }
        lemma_same_order(x, y);
        assert(a =~= seq![a[0]] + x);
        assert(b =~= seq![b[0]] + y);
    }
}

/// Hits by rank.
pub struct ByRank {
    pub hits: Vec<Hit>,
}

impl IndexOrder for ByRank {
    open spec fn wf(&self) -> bool {
        &&& forall|i: int| 0 <= i < self.hits@.len() ==> !(#[trigger] self.hits@[i]).score.is_nan_spec()
        &&& forall|i: int, j: int|
            0 <= i < self.hits@.len() && 0 <= j < self.hits@.len() && i != j
                ==> self.hits@[i].id != self.hits@[j].id
    }

    open spec fn upto(&self) -> nat {
        self.hits@.len()
    }

    open spec fn before(&self, a: int, b: int) -> bool {
        ahead(self.hits@[a], self.hits@[b])
    }

    proof fn lemma_irreflexive(&self, a: int) {
    }

    proof fn lemma_transitive(&self, a: int, b: int, c: int) {
    }

    proof fn lemma_total(&self, a: int, b: int) {
    }

    fn size(&self) -> (n: usize) {
        self.hits.len()
    }

    fn test(&self, a: usize, b: usize) -> (r: bool) {
        let x = self.hits[a];
        let y = self.hits[b];
        assert(!self.hits@[a as int].score.is_nan_spec());
        assert(!self.hits@[b as int].score.is_nan_spec());
        if y.score.less(x.score) {
            true
        } else if x.score.less(y.score) {
            false
        } else {
            x.id < y.id
        }
    }
}

/// `stands_for`, kept folded.
#[verifier::opaque]
spec fn holds_place(c: Seq<Candidate>, s: Seq<Single>, n: int, k: int) -> bool {
    stands_for(c, s, n, k)
}

proof fn lemma_place_new(c: Seq<Candidate>, s: Seq<Single>, k: int)
    requires
        0 <= k < c.len(),
        forall|j: int| 0 <= j < k ==> (#[trigger] c[j]).id != c[k].id,
    ensures
        holds_place(c, s, k + 1, k),
{
    reveal(holds_place);
}

proof fn lemma_place_step(c: Seq<Candidate>, s: Seq<Single>, k: int, b: int)
    requires
        0 <= k < c.len(),
        holds_place(c, s, k, b),
    ensures
        0 <= b < k,
        c[b].id != c[k].id ==> holds_place(c, s, k + 1, b),
        c[b].id == c[k].id && s[k].order() <= s[b].order() ==> holds_place(c, s, k + 1, b),
        c[b].id == c[k].id && s[b].order() < s[k].order() ==> holds_place(c, s, k + 1, k),
{
    reveal(holds_place);
}

/// One candidate stands for an entry.
proof fn lemma_place_unique(c: Seq<Candidate>, s: Seq<Single>, a: int, b: int)
    requires
        stands_for(c, s, c.len() as int, a),
        stands_for(c, s, c.len() as int, b),
        c[a].id == c[b].id,
    ensures
        a == b,
{
    if a != b {
        assert(c[a].id == c[b].id);
    }
}

/// What is known of the best candidates among the first `n`.
spec fn best_upto(
    c: Seq<Candidate>,
    s: Seq<Single>,
    n: int,
    best: Seq<usize>,
    slot: Map<u32, usize>,
) -> bool {
    &&& forall|p: int| 0 <= p < best.len() ==> holds_place(c, s, n, #[trigger] best[p] as int)
    &&& forall|p: int| 0 <= p < best.len() ==> (#[trigger] best[p]) < n
    &&& forall|p: int|
        0 <= p < best.len() ==> slot.contains_key(c[#[trigger] best[p] as int].id)
            && slot[c[best[p] as int].id] == p
    &&& forall|id: u32| #[trigger]
        slot.contains_key(id) ==> slot[id] < best.len() && c[best[slot[id] as int] as int].id == id
    &&& forall|j: int| 0 <= j < n ==> slot.contains_key((#[trigger] c[j]).id)
}

proof fn lemma_best_found(
    c: Seq<Candidate>,
    s: Seq<Single>,
    k: int,
    was: Seq<usize>,
    best: Seq<usize>,
    slot: Map<u32, usize>,
)
    requires
        0 <= k < c.len(),
        c.len() <= usize::MAX,
        best_upto(c, s, k, was, slot),
        slot.contains_key(c[k].id),
        ({
            let p = slot[c[k].id] as int;
            best == if s[was[p] as int].order() < s[k].order() {
                was.update(p, k as usize)
            } else {
                was
            }
        }),
    ensures
        best_upto(c, s, k + 1, best, slot),
{
    let p = slot[c[k].id] as int;
    assert forall|q: int| 0 <= q < best.len() implies holds_place(
        c,
        s,
        k + 1,
        #[trigger] best[q] as int,
    ) && best[q] < k + 1 by {
        assert(holds_place(c, s, k, was[q] as int));
        lemma_place_step(c, s, k, was[q] as int);
        if q != p {
            assert(slot[c[was[q] as int].id] == q);
        }
    }
    assert forall|q: int| 0 <= q < best.len() implies slot.contains_key(
        c[#[trigger] best[q] as int].id,
    ) && slot[c[best[q] as int].id] == q by {
        assert(slot[c[was[q] as int].id] == q);
    }
    assert forall|id: u32| #[trigger] slot.contains_key(id) implies slot[id] < best.len()
        && c[best[slot[id] as int] as int].id == id by {
        assert(c[was[slot[id] as int] as int].id == id);
    }
}

proof fn lemma_best_new(
    c: Seq<Candidate>,
    s: Seq<Single>,
    k: int,
    was: Seq<usize>,
    slot: Map<u32, usize>,
)
    requires
        0 <= k < c.len(),
        c.len() <= usize::MAX,
        was.len() <= usize::MAX,
        best_upto(c, s, k, was, slot),
        !slot.contains_key(c[k].id),
    ensures
        best_upto(c, s, k + 1, was.push(k as usize), slot.insert(c[k].id, was.len() as usize)),
{
    let id = c[k].id;
    let best = was.push(k as usize);
    let next = slot.insert(id, was.len() as usize);
    lemma_place_new(c, s, k);
    assert forall|q: int| 0 <= q < best.len() implies holds_place(
        c,
        s,
        k + 1,
        #[trigger] best[q] as int,
    ) && best[q] < k + 1 by {
        if q < was.len() {
            assert(holds_place(c, s, k, was[q] as int));
            lemma_place_step(c, s, k, was[q] as int);
            assert(slot.contains_key(c[was[q] as int].id));
        }
    }
    assert forall|q: int| 0 <= q < best.len() implies next.contains_key(
        c[#[trigger] best[q] as int].id,
    ) && next[c[best[q] as int].id] == q by {
        if q < was.len() {
            assert(best[q] == was[q]);
            assert(slot.contains_key(c[was[q] as int].id));
        }
    }
    assert forall|i: u32| #[trigger] next.contains_key(i) implies next[i] < best.len()
        && c[best[next[i] as int] as int].id == i by {
        if i != id {
            assert(slot.contains_key(i));
        }
    }
}

/// The candidate that stands for each entry, in the order in which entries turn up.
fn best_of_each(c: &Vec<Candidate>, s: &Vec<Single>) -> (r: Vec<usize>)
    requires
        c.len() == s.len(),
        forall|i: int| 0 <= i < s.len() ==> !(#[trigger] s@[i]).is_nan_spec(),
    ensures
        exists|slot: Map<u32, usize>| best_upto(c@, s@, c@.len() as int, r@, slot),
{
    broadcast use group_hash_axioms;

    let mut best: Vec<usize> = Vec::new();
    let mut slot: IdMap<usize> = IdMap::new();
    let mut k: usize = 0;
    while k < c.len()
        invariant
            c.len() == s.len(),
            k <= c.len(),
            forall|i: int| 0 <= i < s.len() ==> !(#[trigger] s@[i]).is_nan_spec(),
            best_upto(c@, s@, k as int, best@, slot@),
        decreases c.len() - k,
    {
        let id: u32 = c[k].id;
        let found: Option<usize> = match slot.get(&id) {
            Some(p) => Some(*p),
            None => None,
        };
        let ghost was = best@;
        match found {
            Some(p) => {
                let at: usize = best[p];
                assert(best@[p as int] < k);
                assert(!s@[at as int].is_nan_spec() && !s@[k as int].is_nan_spec());
                if s[at].less(s[k]) {
                    best.set(p, k);
                }
                proof {
                    lemma_best_found(c@, s@, k as int, was, best@, slot@);
                }
            },
            None => {
                let n: usize = best.len();
                proof {
                    lemma_best_new(c@, s@, k as int, was, slot@);
                }
                slot.insert(id, n);
                best.push(k);
            },
        }
        k = k + 1;
    }
    best
}

fn pick(r: &Vec<Hit>, limit: usize, max_secondary: usize) -> (out: Vec<Hit>)
    ensures
        out@ == picked(r@, limit as nat, max_secondary as nat),
{
    let mut out: Vec<Hit> = Vec::new();
    let mut n: usize = 0;
    let mut i: usize = 0;
    let ghost want = picked(r@, limit as nat, max_secondary as nat);
    assert(r@.skip(0) =~= r@);
    assert(out@ + want =~= want);
    while i < r.len() && out.len() < limit
        invariant
            i <= r.len(),
            out.len() <= limit,
            n <= max_secondary,
            want == out@ + picked(
                r@.skip(i as int),
                (limit - out.len()) as nat,
                (max_secondary - n) as nat,
            ),
        decreases r.len() - i,
    {
        let h = r[i];
        let ghost rest = r@.skip(i as int);
        let ghost was = out@;
        proof {
            assert(rest.drop_first() =~= r@.skip(i as int + 1));
            assert(rest[0] == h);
        }
        if h.lane.is_secondary() {
            if n < max_secondary {
                n = n + 1;
                out.push(h);
                assert(want =~= out@ + picked(
                    r@.skip(i as int + 1),
                    (limit - out.len()) as nat,
                    (max_secondary - n) as nat,
                ));
            }
        } else {
            out.push(h);
            assert(want =~= out@ + picked(
                r@.skip(i as int + 1),
                (limit - out.len()) as nat,
                (max_secondary - n) as nat,
            ));
        }
        i = i + 1;
    }
    assert(out@ + picked(
        r@.skip(i as int),
        (limit - out.len()) as nat,
        (max_secondary - n) as nat,
    ) =~= out@);
    out
}

/// Hits in the order of their rank.
fn sorted_hits(hits: Vec<Hit>) -> (r: Vec<Hit>)
    requires
        (ByRank { hits }).wf(),
    ensures
        forall|i: int, j: int| 0 <= i < j < r@.len() ==> #[trigger] ahead(r@[i], r@[j]),
        forall|i: int| 0 <= i < r@.len() ==> hits@.contains(#[trigger] r@[i]),
        forall|i: int| 0 <= i < hits@.len() ==> r@.contains(#[trigger] hits@[i]),
{
    let o = ByRank { hits };
    let p = sort_indices(&o);
    let mut r: Vec<Hit> = Vec::new();
    let mut j: usize = 0;
    while j < p.len()
        invariant
            arranged(&o, p@),
            j <= p.len(),
            r.len() == j,
            forall|m: int| 0 <= m < j ==> #[trigger] r@[m] == o.hits@[p@[m] as int],
        decreases p.len() - j,
    {
        r.push(o.hits[p[j]]);
        j = j + 1;
    }
    proof {
        assert forall|i: int, j: int| 0 <= i < j < r@.len() implies #[trigger] ahead(
            r@[i],
            r@[j],
        ) by {
            assert(o.before(p@[i] as int, p@[j] as int));
        }
        assert forall|i: int| 0 <= i < hits@.len() implies r@.contains(#[trigger] hits@[i]) by {
            lemma_arranged_complete(&o, p@, i);
            let m = choose|m: int| 0 <= m < p@.len() && #[trigger] p@[m] == i;
            assert(r@[m] == hits@[i]);
        }
    }
    r
}

proof fn lemma_best_ranks(
    c: Seq<Candidate>,
    s: Seq<Single>,
    best: Seq<usize>,
    slot: Map<u32, usize>,
    hits: Seq<Hit>,
)
    requires
        best_upto(c, s, c.len() as int, best, slot),
        hits.len() == best.len(),
        forall|p: int| 0 <= p < best.len() ==> #[trigger] hits[p] == hit_at(c, s, best[p] as int),
    ensures
        forall|i: int| 0 <= i < hits.len() ==> is_best(c, s, #[trigger] hits[i]),
        forall|k: int| #[trigger]
            stands_for(c, s, c.len() as int, k) ==> hits.contains(hit_at(c, s, k)),
        forall|i: int, j: int|
            0 <= i < hits.len() && 0 <= j < hits.len() && i != j ==> hits[i].id != hits[j].id,
{
    reveal(holds_place);
    assert forall|i: int| 0 <= i < hits.len() implies is_best(c, s, #[trigger] hits[i]) by {
        assert(holds_place(c, s, c.len() as int, best[i] as int));
        assert(stands_for(c, s, c.len() as int, best[i] as int));
    }
    assert forall|k: int| #[trigger] stands_for(c, s, c.len() as int, k) implies hits.contains(
        hit_at(c, s, k),
    ) by {
        assert(slot.contains_key(c[k].id));
        let q = slot[c[k].id] as int;
        assert(holds_place(c, s, c.len() as int, best[q] as int));
        lemma_place_unique(c, s, best[q] as int, k);
        assert(hits[q] == hit_at(c, s, k));
    }
    assert forall|i: int, j: int|
        0 <= i < hits.len() && 0 <= j < hits.len() && i != j implies hits[i].id != hits[j].id by {
        assert(slot[c[best[i] as int].id] == i);
        assert(slot[c[best[j] as int].id] == j);
    }
}

/// The hits of scored candidates: each entry by its best candidate, by falling score and
/// rising id, as many as the parameters allow.
pub fn rank(c: &Vec<Candidate>, s: &Vec<Single>, limit: usize, max_secondary: usize) -> (r: Vec<Hit>)
    requires
        c.len() == s.len(),
        forall|i: int| 0 <= i < s.len() ==> !(#[trigger] s@[i]).is_nan_spec(),
    ensures
        ranks(c@, s@, ranked(c@, s@)),
        r@ == picked(ranked(c@, s@), limit as nat, max_secondary as nat),
{
    let best = best_of_each(c, s);
    let ghost slot = choose|slot: Map<u32, usize>|
        best_upto(c@, s@, c@.len() as int, best@, slot);
    let mut hits: Vec<Hit> = Vec::new();
    let mut i: usize = 0;
    while i < best.len()
        invariant
            c.len() == s.len(),
            i <= best.len(),
            hits.len() == i,
            forall|p: int| 0 <= p < best.len() ==> (#[trigger] best@[p]) < c.len(),
            forall|p: int| 0 <= p < i ==> #[trigger] hits@[p] == hit_at(c@, s@, best@[p] as int),
            forall|i: int| 0 <= i < s.len() ==> !(#[trigger] s@[i]).is_nan_spec(),
            forall|p: int| 0 <= p < i ==> !(#[trigger] hits@[p]).score.is_nan_spec(),
        decreases best.len() - i,
    {
        let k: usize = best[i];
        hits.push(Hit { id: c[k].id, lane: c[k].lane, score: s[k] });
        i = i + 1;
    }
    proof {
        lemma_best_ranks(c@, s@, best@, slot, hits@);
    }
    let ghost all = hits@;
    let r = sorted_hits(hits);
    proof {
        assert forall|i: int| 0 <= i < r@.len() implies is_best(c@, s@, #[trigger] r@[i]) by {
            let q = choose|q: int| 0 <= q < all.len() && all[q] == r@[i];
            assert(is_best(c@, s@, all[q]));
        }
        assert forall|k: int| #[trigger]
            stands_for(c@, s@, c@.len() as int, k) implies r@.contains(hit_at(c@, s@, k)) by {
            let q = choose|q: int| 0 <= q < all.len() && all[q] == hit_at(c@, s@, k);
            assert(r@.contains(all[q]));
        }
        assert(ranks(c@, s@, r@));
        lemma_ranks_unique(c@, s@, r@, ranked(c@, s@));
    }
    pick(&r, limit, max_secondary)
}

// ───────────────────────── keeping the order ─────────────────────────

/// The last hit on an entry.
pub open spec fn hit_on(h: Seq<Hit>, id: u32) -> Option<Hit>
    decreases h.len(),
{
    if h.len() == 0 {
        None
    } else if h.last().id == id {
        Some(h.last())
    } else {
        hit_on(h.drop_last(), id)
    }
}

impl Gathered {
    /// The result of a lookup, once every candidate has a score.
    pub fn results(self, scores: &Vec<Single>, p: &Params) -> (r: Results)
        requires
            self.candidates.len() == scores.len(),
            forall|i: int| 0 <= i < scores.len() ==> !(#[trigger] scores@[i]).is_nan_spec(),
        ensures
            ranks(self.candidates@, scores@, ranked(self.candidates@, scores@)),
            r.hits@ == picked(
                ranked(self.candidates@, scores@),
                p.limit as nat,
                p.max_secondary as nat,
            ),
            r.truncated == self.truncated,
            r.scanned == self.scanned,
    {
        let hits = rank(&self.candidates, scores, p.limit, p.max_secondary);
        Results { hits, truncated: self.truncated, scanned: self.scanned }
    }
}

/// The earlier hits that are still there, in their old order with their new scores.
pub open spec fn survivors(prev: Seq<Hit>, fresh: Seq<Hit>) -> Seq<Hit>
    decreases prev.len(),
{
    if prev.len() == 0 {
        Seq::empty()
    } else {
        match hit_on(fresh, prev.last().id) {
            Some(h) => survivors(prev.drop_last(), fresh).push(h),
            None => survivors(prev.drop_last(), fresh),
        }
    }
}

/// The hits on entries that were not there before, in their new order.
pub open spec fn newcomers(prev: Seq<Hit>, fresh: Seq<Hit>) -> Seq<Hit>
    decreases fresh.len(),
{
    if fresh.len() == 0 {
        Seq::empty()
    } else if hit_on(prev, fresh.last().id) is Some {
        newcomers(prev, fresh.drop_last())
    } else {
        newcomers(prev, fresh.drop_last()).push(fresh.last())
    }
}

proof fn lemma_hit_on(h: Seq<Hit>, id: u32)
    ensures
        hit_on(h, id) matches Some(x) ==> x.id == id && h.contains(x),
        hit_on(h, id) is None ==> forall|i: int| 0 <= i < h.len() ==> (#[trigger] h[i]).id != id,
    decreases h.len(),
{
    if h.len() > 0 && h.last().id != id {
        lemma_hit_on(h.drop_last(), id);
        if let Some(x) = hit_on(h.drop_last(), id) {
            let i = choose|i: int| 0 <= i < h.drop_last().len() && h.drop_last()[i] == x;
            assert(h[i] == x);
        } else {
            assert forall|i: int| 0 <= i < h.len() implies (#[trigger] h[i]).id != id by {
                if i < h.len() - 1 {
                    assert(h.drop_last()[i].id != id);
                }
            }
        }
    } else if h.len() > 0 {
        assert(h[h.len() - 1] == h.last());
    }
}

/// Keeps the order where a query was extended: entries that were shown stay where they were,
/// and what is new follows. The eye has settled on an entry by then, and one that jumps is
/// worse than one that comes late.
pub fn stabilize(prev: &[Hit], fresh: Vec<Hit>) -> (r: Vec<Hit>)
    ensures
        r@ == survivors(prev@, fresh@) + newcomers(prev@, fresh@),
{
    broadcast use group_hash_axioms;

    let mut keep: IdMap<usize> = IdMap::new();
    let mut i: usize = 0;
    assert(fresh@.take(0) =~= Seq::<Hit>::empty());
    while i < fresh.len()
        invariant
            i <= fresh.len(),
            forall|id: u32| #[trigger]
                keep@.contains_key(id) <==> hit_on(fresh@.take(i as int), id) is Some,
            forall|id: u32| #[trigger]
                keep@.contains_key(id) ==> keep@[id] < i && hit_on(fresh@.take(i as int), id)
                    == Some(fresh@[keep@[id] as int]),
        decreases fresh.len() - i,
    {
        keep.insert(fresh[i].id, i);
        assert(fresh@.take(i as int + 1).drop_last() =~= fresh@.take(i as int));
        i = i + 1;
    }
    assert(fresh@.take(i as int) =~= fresh@);
    let mut out: Vec<Hit> = Vec::new();
    let mut shown: IdSet = IdSet::new();
    let mut j: usize = 0;
    assert(prev@.take(0) =~= Seq::<Hit>::empty());
    while j < prev.len()
        invariant
            j <= prev.len(),
            forall|id: u32| #[trigger] keep@.contains_key(id) <==> hit_on(fresh@, id) is Some,
            forall|id: u32| #[trigger]
                keep@.contains_key(id) ==> keep@[id] < fresh.len() && hit_on(fresh@, id) == Some(
                    fresh@[keep@[id] as int],
                ),
            forall|id: u32| #[trigger]
                shown@.contains(id) <==> hit_on(prev@.take(j as int), id) is Some,
            out@ == survivors(prev@.take(j as int), fresh@),
        decreases prev.len() - j,
    {
        let id: u32 = prev[j].id;
        assert(prev@.take(j as int + 1).drop_last() =~= prev@.take(j as int));
        match keep.get(&id) {
            Some(k) => {
                out.push(fresh[*k]);
            },
            None => {},
        }
        shown.insert(id);
        j = j + 1;
    }
    assert(prev@.take(j as int) =~= prev@);
    let mut k: usize = 0;
    let ghost first = out@;
    assert(fresh@.take(0) =~= Seq::<Hit>::empty());
    while k < fresh.len()
        invariant
            k <= fresh.len(),
            forall|id: u32| #[trigger] shown@.contains(id) <==> hit_on(prev@, id) is Some,
            out@ == first + newcomers(prev@, fresh@.take(k as int)),
        decreases fresh.len() - k,
    {
        assert(fresh@.take(k as int + 1).drop_last() =~= fresh@.take(k as int));
        if !shown.contains(&fresh[k].id) {
            out.push(fresh[k]);
            assert(out@ =~= first + newcomers(prev@, fresh@.take(k as int + 1)));
        }
        k = k + 1;
    }
    assert(fresh@.take(k as int) =~= fresh@);
    out
}

/// After stabilising, exactly the entries of the new hits are shown.
pub proof fn law_stabilize_keeps_the_entries(prev: Seq<Hit>, fresh: Seq<Hit>, id: u32)
    ensures
        (exists|i: int|
            0 <= i < (survivors(prev, fresh) + newcomers(prev, fresh)).len() && (
            #[trigger] (survivors(prev, fresh) + newcomers(prev, fresh))[i]).id == id) <==> (exists|
            i: int,
        |
            0 <= i < fresh.len() && (#[trigger] fresh[i]).id == id),
{
    let s = survivors(prev, fresh);
    let n = newcomers(prev, fresh);
    lemma_survivors(prev, fresh, id);
    lemma_newcomers(prev, fresh, fresh.len(), id);
    lemma_hit_on(fresh, id);
    lemma_hit_on(prev, id);
    assert(fresh.take(fresh.len() as int) =~= fresh);
    if exists|i: int| 0 <= i < fresh.len() && (#[trigger] fresh[i]).id == id {
        if hit_on(prev, id) is Some {
            let i = choose|i: int| 0 <= i < s.len() && (#[trigger] s[i]).id == id;
            assert((s + n)[i].id == id);
        } else {
            let i = choose|i: int| 0 <= i < n.len() && (#[trigger] n[i]).id == id;
            assert((s + n)[s.len() + i].id == id);
        }
    }
    if exists|i: int| 0 <= i < (s + n).len() && (#[trigger] (s + n)[i]).id == id {
        let i = choose|i: int| 0 <= i < (s + n).len() && (#[trigger] (s + n)[i]).id == id;
        if i < s.len() {
            assert(s[i].id == id);
        } else {
            assert(n[i - s.len()].id == id);
        }
    }
}

/// The hits that survive of the first ones come first.
proof fn lemma_survivors_prefix(prev: Seq<Hit>, fresh: Seq<Hit>, k: int)
    requires
        0 <= k <= prev.len(),
    ensures
        survivors(prev.take(k), fresh).is_prefix_of(survivors(prev, fresh)),
    decreases prev.len(),
{
    if k == prev.len() {
        assert(prev.take(k) =~= prev);
    } else {
        lemma_survivors_prefix(prev.drop_last(), fresh, k);
        assert(prev.drop_last().take(k) =~= prev.take(k));
    }
}

/// Entries that were shown before and still are keep their order.
pub proof fn law_shown_entries_keep_their_order(
    prev: Seq<Hit>,
    fresh: Seq<Hit>,
    i: int,
    j: int,
)
    requires
        0 <= i < j < prev.len(),
        hit_on(fresh, prev[i].id) is Some,
        hit_on(fresh, prev[j].id) is Some,
    ensures
        exists|a: int, b: int|
            0 <= a < b < (survivors(prev, fresh) + newcomers(prev, fresh)).len() && (
            #[trigger] (survivors(prev, fresh) + newcomers(prev, fresh))[a]).id == prev[i].id && (
            #[trigger] (survivors(prev, fresh) + newcomers(prev, fresh))[b]).id == prev[j].id,
{
    let r = survivors(prev, fresh) + newcomers(prev, fresh);
    let pi = prev.take(i + 1);
    let pj = prev.take(j + 1);
    assert(pi.drop_last() =~= prev.take(i));
    assert(pj.drop_last() =~= prev.take(j));
    assert(prev.take(j).take(i + 1) =~= pi);
    lemma_hit_on(fresh, prev[i].id);
    lemma_hit_on(fresh, prev[j].id);
    lemma_survivors_prefix(prev.take(j), fresh, i + 1);
    lemma_survivors_prefix(prev, fresh, i + 1);
    lemma_survivors_prefix(prev, fresh, j + 1);
    let a = survivors(prev.take(i), fresh).len() as int;
    let b = survivors(prev.take(j), fresh).len() as int;
    assert(survivors(pi, fresh)[a].id == prev[i].id);
    assert(survivors(pj, fresh)[b].id == prev[j].id);
    assert(survivors(prev, fresh)[a] == survivors(pi, fresh)[a]);
    assert(survivors(prev, fresh)[b] == survivors(pj, fresh)[b]);
    assert(r[a].id == prev[i].id && r[b].id == prev[j].id);
}

proof fn lemma_survivors(prev: Seq<Hit>, fresh: Seq<Hit>, id: u32)
    ensures
        (exists|i: int|
            0 <= i < survivors(prev, fresh).len() && (#[trigger] survivors(prev, fresh)[i]).id
                == id) <==> hit_on(prev, id) is Some && hit_on(fresh, id) is Some,
    decreases prev.len(),
{
    if prev.len() > 0 {
        lemma_survivors(prev.drop_last(), fresh, id);
        let s = survivors(prev, fresh);
        let t = survivors(prev.drop_last(), fresh);
        lemma_hit_on(fresh, prev.last().id);
        if let Some(h) = hit_on(fresh, prev.last().id) {
            assert(s == t.push(h));
            if h.id == id {
                assert(s[t.len() as int].id == id);
            }
            if exists|i: int| 0 <= i < t.len() && (#[trigger] t[i]).id == id {
                let i = choose|i: int| 0 <= i < t.len() && (#[trigger] t[i]).id == id;
                assert(s[i].id == id);
            }
            if exists|i: int| 0 <= i < s.len() && (#[trigger] s[i]).id == id {
                let i = choose|i: int| 0 <= i < s.len() && (#[trigger] s[i]).id == id;
                if i < t.len() {
                    assert(t[i].id == id);
                }
            }
        }
    }
}

proof fn lemma_newcomers(prev: Seq<Hit>, fresh: Seq<Hit>, k: nat, id: u32)
    requires
        k <= fresh.len(),
    ensures
        (exists|i: int|
            0 <= i < newcomers(prev, fresh.take(k as int)).len() && (#[trigger] newcomers(
                prev,
                fresh.take(k as int),
            )[i]).id == id) <==> hit_on(prev, id) is None && hit_on(fresh.take(k as int), id)
            is Some,
    decreases k,
{
    if k > 0 {
        lemma_newcomers(prev, fresh, (k - 1) as nat, id);
        let f = fresh.take(k as int);
        assert(f.drop_last() =~= fresh.take(k - 1));
        let n = newcomers(prev, f);
        let t = newcomers(prev, f.drop_last());
        if hit_on(prev, f.last().id) is None {
            assert(n == t.push(f.last()));
            if f.last().id == id {
                assert(n[t.len() as int].id == id);
            }
            if exists|i: int| 0 <= i < t.len() && (#[trigger] t[i]).id == id {
                let i = choose|i: int| 0 <= i < t.len() && (#[trigger] t[i]).id == id;
                assert(n[i].id == id);
            }
            if exists|i: int| 0 <= i < n.len() && (#[trigger] n[i]).id == id {
                let i = choose|i: int| 0 <= i < n.len() && (#[trigger] n[i]).id == id;
                if i < t.len() {
                    assert(t[i].id == id);
                }
            }
        }
    }
}

// ───────────────────────── what a lookup promises ─────────────────────────

proof fn lemma_filter_keeps(e: FstEntries, prefix: Seq<u8>, i: int)
    requires
        0 <= i < e.len(),
        prefix.is_prefix_of(e[i].0),
    ensures
        exists|k: int| 0 <= k < with_prefix(e, prefix).len() && (#[trigger] with_prefix(e, prefix)[k]) == e[i],
    decreases e.len(),
{
    reveal(Seq::filter);
    let all = with_prefix(e, prefix);
    let short = with_prefix(e.drop_last(), prefix);
    if i < e.len() - 1 {
        lemma_filter_keeps(e.drop_last(), prefix, i);
        let k = choose|k: int| 0 <= k < short.len() && (#[trigger] short[k]) == e.drop_last()[i];
        assert(all[k] == e[i]);
    } else {
        assert(all[all.len() - 1] == e[i]);
    }
}

proof fn lemma_scan_holds(m: Seq<(Seq<u8>, Seq<u8>)>, lane: Lane, k: int, i: int)
    requires
        0 <= k < m.len(),
        0 <= i < ids_spec(m[k].1).len(),
    ensures
        scan_candidates(m, lane).contains(
            (Candidate { id: ids_spec(m[k].1)[i], lane, key_len: key_length(m[k].0) as usize }),
        ),
    decreases m.len(),
{
    let c = Candidate { id: ids_spec(m[k].1)[i], lane, key_len: key_length(m[k].0) as usize };
    let a = scan_candidates(m.drop_last(), lane);
    let b = posting_candidates(ids_spec(m.last().1), lane, key_length(m.last().0));
    if k < m.len() - 1 {
        lemma_scan_holds(m.drop_last(), lane, k, i);
        let j = choose|j: int| 0 <= j < a.len() && a[j] == c;
        assert((a + b)[j] == c);
    } else {
        assert(b[i] == c);
        assert((a + b)[a.len() + i] == c);
    }
}

/// What a text begins with, its bytes begin with.
proof fn lemma_encode_prefix(q: Seq<char>, key: Seq<char>)
    requires
        starts_with(key, q),
    ensures
        encode_utf8(q).is_prefix_of(encode_utf8(key)),
    decreases q.len(),
{
    if q.len() > 0 {
        assert(key.take(q.len() as int)[0] == key[0]);
        let a = q.drop_first();
        let b = key.drop_first();
        assert(b.take(a.len() as int) =~= a) by {
            assert forall|i: int| 0 <= i < a.len() implies b[i] == a[i] by {
                assert(key.take(q.len() as int)[i + 1] == key[i + 1]);
            }
        }
        lemma_encode_prefix(a, b);
    }
}

/// A lane that is not cut short finds the entries of every key that starts with the query.
proof fn lemma_lane_finds(
    v: StoreView,
    lane: Lane,
    q: Seq<char>,
    budget: nat,
    key: Seq<char>,
    i: int,
)
    requires
        v.lanes[lane.idx_spec() as int] is Some,
        lane_runs(lane, q.len()),
        q.len() > MAX_TOP_PREFIX || v.top(lane, q) is None,
        !lane_finds(v, lane, q, budget).truncated,
        starts_with(key, q),
        v.exact(lane, key) is Some,
        0 <= i < ids_spec(v.exact(lane, key)->0).len(),
    ensures
        lane_finds(v, lane, q, budget).candidates.contains(
            (Candidate {
                id: ids_spec(v.exact(lane, key)->0)[i],
                lane,
                key_len: key.len() as usize,
            }),
        ),
{
    let x = v.lanes[lane.idx_spec() as int]->0;
    let n = visited_len(v, lane, q, budget);
    let all = v.matches(lane, q);
    let e = keys_of(x);
    let bytes = encode_utf8(key);
    lemma_encode_prefix(q, key);
    lemma_value_listed(e, bytes);
    let off = value_at(e, bytes)->0;
    let at = choose|at: int| 0 <= at < e.len() && (#[trigger] e[at]) == (bytes, off);
    lemma_filter_keeps(e, encode_utf8(q), at);
    let w = with_prefix(e, encode_utf8(q));
    let k = choose|k: int| 0 <= k < w.len() && (#[trigger] w[k]) == e[at];
    assert(all[k] == (bytes, posting(x.1, off)));
    assert(all.take(n as int) =~= all);
    encode_utf8_valid_utf8(key);
    encode_utf8_decode_utf8(key);
    lemma_scan_holds(all, lane, k, i);
}

/// Where a lane is scanned, the entries of the very key typed are found.
proof fn lemma_lane_exact(v: StoreView, lane: Lane, q: Seq<char>, budget: nat, i: int)
    requires
        v.lanes[lane.idx_spec() as int] is Some,
        lane_runs(lane, q.len()),
        q.len() > MAX_TOP_PREFIX || v.top(lane, q) is None,
        v.exact(lane, q) is Some,
        0 <= i < ids_spec(v.exact(lane, q)->0).len(),
    ensures
        lane_finds(v, lane, q, budget).candidates.contains(
            (Candidate {
                id: ids_spec(v.exact(lane, q)->0)[i],
                lane,
                key_len: q.len() as usize,
            }),
        ),
{
    let raw = v.exact(lane, q)->0;
    let n = visited_len(v, lane, q, budget);
    if n >= budget {
        let found = scan_candidates(v.matches(lane, q).take(n as int), lane);
        let rescued = posting_candidates(ids_spec(raw), lane, q.len());
        let c = Candidate { id: ids_spec(raw)[i], lane, key_len: q.len() as usize };
        assert(rescued[i] == c);
        assert((found + rescued)[found.len() + i] == c);
    } else {
        assert(q.take(q.len() as int) =~= q);
        lemma_lane_finds(v, lane, q, budget, q, i);
    }
}

/// What a lane finds is found, and a lookup is cut short where one of its lanes is.
proof fn lemma_finds(v: StoreView, lanes: Seq<Lane>, q: Seq<char>, budget: nat, k: int)
    requires
        0 <= k < lanes.len(),
    ensures
        forall|c: Candidate|
            lane_finds(v, lanes[k], q, budget).candidates.contains(c) ==> #[trigger] finds(
                v,
                lanes,
                q,
                budget,
            ).candidates.contains(c),
        lane_finds(v, lanes[k], q, budget).truncated ==> finds(v, lanes, q, budget).truncated,
    decreases lanes.len(),
{
    let rest = lanes.drop_last();
    let a = finds(v, rest, q, budget);
    let b = lane_finds(v, lanes.last(), q, budget);
    let all = a.candidates + b.candidates;
    if k < rest.len() {
        lemma_finds(v, rest, q, budget, k);
        assert forall|c: Candidate| a.candidates.contains(c) implies all.contains(c) by {
            let i = choose|i: int| 0 <= i < a.candidates.len() && a.candidates[i] == c;
            assert(all[i] == c);
        }
        assert(rest[k] == lanes[k]);
    } else {
        assert forall|c: Candidate| b.candidates.contains(c) implies all.contains(c) by {
            let i = choose|i: int| 0 <= i < b.candidates.len() && b.candidates[i] == c;
            assert(all[a.candidates.len() + i] == c);
        }
    }
}

/// A lane that a lookup scans: it runs for the query, has an index, and no list was made for
/// the query in advance.
pub open spec fn scans(v: StoreView, query: Seq<char>, lane: Lane) -> bool {
    let q = folded(query);
    &&& trimmed(query).len() > 0
    &&& lanes_for(q).contains(lane)
    &&& lane_runs(lane, q.len())
    &&& v.lanes[lane.idx_spec() as int] is Some
    &&& q.len() > MAX_TOP_PREFIX || v.top(lane, q) is None
}

/// What is typed is found: in a lane that is scanned, every entry under the very key typed is
/// among the candidates with the length of the query, however tight the budget.
pub proof fn law_exact_hit_is_never_lost(
    v: StoreView,
    query: Seq<char>,
    budget: nat,
    lane: Lane,
    i: int,
)
    requires
        scans(v, query, lane),
        v.exact(lane, folded(query)) is Some,
        0 <= i < ids_spec(v.exact(lane, folded(query))->0).len(),
    ensures
        gathered(v, query, budget).candidates.contains(
            (Candidate {
                id: ids_spec(v.exact(lane, folded(query))->0)[i],
                lane,
                key_len: folded(query).len() as usize,
            }),
        ),
{
    let q = folded(query);
    let lanes = lanes_for(q);
    let k = choose|k: int| 0 <= k < lanes.len() && lanes[k] == lane;
    lemma_lane_exact(v, lane, q, budget, i);
    lemma_finds(v, lanes, q, budget, k);
}

/// A lookup that was not cut short misses nothing: in a lane that is scanned, every entry under
/// a key that starts with the query is among the candidates with the length of its key.
pub proof fn law_a_full_lookup_misses_nothing(
    v: StoreView,
    query: Seq<char>,
    budget: nat,
    lane: Lane,
    key: Seq<char>,
    i: int,
)
    requires
        scans(v, query, lane),
        !gathered(v, query, budget).truncated,
        starts_with(key, folded(query)),
        v.exact(lane, key) is Some,
        0 <= i < ids_spec(v.exact(lane, key)->0).len(),
    ensures
        gathered(v, query, budget).candidates.contains(
            (Candidate {
                id: ids_spec(v.exact(lane, key)->0)[i],
                lane,
                key_len: key.len() as usize,
            }),
        ),
{
    let q = folded(query);
    let lanes = lanes_for(q);
    let k = choose|k: int| 0 <= k < lanes.len() && lanes[k] == lane;
    lemma_finds(v, lanes, q, budget, k);
    lemma_lane_finds(v, lane, q, budget, key, i);
}

/// Entry `id` stands under key `at` of an index, and the key starts with `q`.
pub open spec fn stands_under(x: IndexView, q: Seq<char>, at: int, id: u32) -> bool {
    &&& 0 <= at < keys_of(x).len()
    &&& encode_utf8(q).is_prefix_of(keys_of(x)[at].0)
    &&& ids_spec(posting(x.1, keys_of(x)[at].1)).contains(id)
}

proof fn lemma_scan_listed(m: Seq<(Seq<u8>, Seq<u8>)>, lane: Lane, c: Candidate) -> (k: int)
    requires
        scan_candidates(m, lane).contains(c),
    ensures
        0 <= k < m.len(),
        ids_spec(m[k].1).contains(c.id),
    decreases m.len(),
{
    let a = scan_candidates(m.drop_last(), lane);
    let b = posting_candidates(ids_spec(m.last().1), lane, key_length(m.last().0));
    let i = choose|i: int| 0 <= i < (a + b).len() && (a + b)[i] == c;
    if i < a.len() {
        assert(a[i] == c);
        lemma_scan_listed(m.drop_last(), lane, c)
    } else {
        assert(b[i - a.len()] == c);
        assert(ids_spec(m.last().1)[i - a.len()] == c.id);
        m.len() - 1
    }
}

proof fn lemma_filter_listed(e: FstEntries, prefix: Seq<u8>, k: int) -> (at: int)
    requires
        0 <= k < with_prefix(e, prefix).len(),
    ensures
        0 <= at < e.len(),
        e[at] == with_prefix(e, prefix)[k],
        prefix.is_prefix_of(e[at].0),
    decreases e.len(),
{
    reveal(Seq::filter);
    let short = with_prefix(e.drop_last(), prefix);
    if k < short.len() {
        lemma_filter_listed(e.drop_last(), prefix, k)
    } else {
        e.len() - 1
    }
}

/// A scanned lane finds nothing else: every candidate of it stands under a key that starts with
/// the query.
pub proof fn law_candidates_match_the_query(
    v: StoreView,
    query: Seq<char>,
    budget: nat,
    lane: Lane,
    c: Candidate,
)
    requires
        scans(v, query, lane),
        lane_finds(v, lane, folded(query), budget).candidates.contains(c),
    ensures
        exists|at: int| #[trigger]
            stands_under(v.lanes[lane.idx_spec() as int]->0, folded(query), at, c.id),
{
    let q = folded(query);
    let x = v.lanes[lane.idx_spec() as int]->0;
    let e = keys_of(x);
    let n = visited_len(v, lane, q, budget);
    let all = v.matches(lane, q);
    let found = scan_candidates(all.take(n as int), lane);
    let fc = lane_finds(v, lane, q, budget).candidates;
    let i = choose|i: int| 0 <= i < fc.len() && fc[i] == c;
    if i < found.len() {
        assert(found[i] == c);
        let k = lemma_scan_listed(all.take(n as int), lane, c);
        assert(all.take(n as int)[k] == all[k]);
        let at = lemma_filter_listed(e, encode_utf8(q), k);
        assert(all[k] == (e[at].0, posting(x.1, e[at].1)));
        assert(stands_under(x, q, at, c.id));
    } else {
        let raw = v.exact(lane, q)->0;
        let rescued = posting_candidates(ids_spec(raw), lane, q.len());
        assert(rescued[i - found.len()] == c);
        assert(ids_spec(raw)[i - found.len()] == c.id);
        lemma_value_listed(e, encode_utf8(q));
        let off = value_at(e, encode_utf8(q))->0;
        let at = choose|at: int| 0 <= at < e.len() && (#[trigger] e[at]) == (encode_utf8(q), off);
        assert(stands_under(x, q, at, c.id));
    }
}

/// A result never exceeds its limit, nor the limit for hits of the second class.
pub proof fn law_results_are_capped(r: Seq<Hit>, room: nat, spare: nat)
    ensures
        picked(r, room, spare).len() <= room,
        secondary_count(picked(r, room, spare)) <= spare,
    decreases r.len(),
{
    if r.len() > 0 && room > 0 {
        let rest = r.drop_first();
        if !r[0].lane.is_secondary_spec() {
            law_results_are_capped(rest, (room - 1) as nat, spare);
            lemma_count_prepend(r[0], picked(rest, (room - 1) as nat, spare));
        } else if spare == 0 {
            law_results_are_capped(rest, room, spare);
        } else {
            law_results_are_capped(rest, (room - 1) as nat, (spare - 1) as nat);
            lemma_count_prepend(r[0], picked(rest, (room - 1) as nat, (spare - 1) as nat));
        }
    }
}

/// How many hits are of the second class.
pub open spec fn secondary_count(h: Seq<Hit>) -> nat
    decreases h.len(),
{
    if h.len() == 0 {
        0
    } else {
        secondary_count(h.drop_first()) + if h[0].lane.is_secondary_spec() {
            1nat
        } else {
            0nat
        }
    }
}

proof fn lemma_count_prepend(x: Hit, h: Seq<Hit>)
    ensures
        secondary_count(seq![x] + h) == secondary_count(h) + if x.lane.is_secondary_spec() {
            1nat
        } else {
            0nat
        },
{
    assert((seq![x] + h).drop_first() =~= h);
}

/// No entry is shown twice.
pub proof fn law_no_entry_twice(c: Seq<Candidate>, s: Seq<Single>, r: Seq<Hit>, i: int, j: int)
    requires
        ranks(c, s, r),
        0 <= i < j < r.len(),
    ensures
        r[i].id != r[j].id,
{
    assert(is_best(c, s, r[i]));
    assert(is_best(c, s, r[j]));
    let a = choose|k: int| #[trigger]
        stands_for(c, s, c.len() as int, k) && hit_at(c, s, k) == r[i];
    let b = choose|k: int| #[trigger]
        stands_for(c, s, c.len() as int, k) && hit_at(c, s, k) == r[j];
    if r[i].id == r[j].id {
        lemma_place_unique(c, s, a, b);
        assert(ahead(r[i], r[j]));
    }
}

// ───────────────────────── which lanes answer ─────────────────────────

/// No character of a text is in one of the blocks of Han characters.
pub open spec fn without_han(q: Seq<char>) -> bool {
    forall|j: int|
        0 <= j < q.len() ==> {
            let u = #[trigger] q[j] as u32;
            !(0x3400 <= u <= 0x4DBF) && !(0x4E00 <= u <= 0x9FFF) && !(0xF900 <= u <= 0xFAFF) && !(
            0x20000 <= u <= 0x2FA1F)
        }
}

/// The lanes that a query means, by what it is made of and how long it is: the Chinese headwords,
/// the inside of Chinese headwords and the Chinese glosses for every query; without a Han
/// character the English headwords and the pinyin as well, with up to four characters the
/// initials, and from three on the English glosses.
pub open spec fn means(lane: Lane, q: Seq<char>) -> bool {
    match lane {
        Lane::Zh => true,
        Lane::ZhSub => true,
        Lane::Trans => true,
        Lane::Enw => without_han(q),
        Lane::Py => without_han(q),
        Lane::Ini => without_han(q) && q.len() <= 4,
        Lane::Gloss => without_han(q) && q.len() >= 3,
    }
}

pub proof fn lemma_means(lane: Lane, q: Seq<char>)
    ensures
        has_cjk(q) == !without_han(q),
        (lanes_for(q).contains(lane) && lane_runs(lane, q.len())) == means(lane, q),
{
    if has_cjk(q) {
        let i = choose|i: int| 0 <= i < q.len() && is_cjk_spec(#[trigger] q[i]);
        assert(!without_han(q));
        let l = seq![Lane::Zh, Lane::ZhSub, Lane::Trans];
        assert(l[0] == Lane::Zh && l[1] == Lane::ZhSub && l[2] == Lane::Trans);
    } else {
        assert(without_han(q)) by {
            assert forall|j: int| 0 <= j < q.len() implies {
                let u = #[trigger] q[j] as u32;
                !(0x3400 <= u <= 0x4DBF) && !(0x4E00 <= u <= 0x9FFF) && !(0xF900 <= u <= 0xFAFF)
                    && !(0x20000 <= u <= 0x2FA1F)
            } by {
                assert(!is_cjk_spec(q[j]));
            }
        }
        assert(LANES@[lane.idx_spec() as int] == lane);
    }
}

/// The very key typed is found, whatever its length and however tight the budget: every entry
/// under it, in every lane that the query means and that has an index. Only a query of one or
/// two characters may have a list made in advance instead.
pub proof fn law_the_key_typed_is_found(
    v: StoreView,
    query: Seq<char>,
    budget: nat,
    lane: Lane,
    i: int,
)
    requires
        trimmed(query).len() > 0,
        means(lane, lowercase(trimmed(query))),
        v.lanes[lane.idx_spec() as int] is Some,
        lowercase(trimmed(query)).len() > 2 || v.top(lane, lowercase(trimmed(query))) is None,
        v.exact(lane, lowercase(trimmed(query))) is Some,
        0 <= i < ids_spec(v.exact(lane, lowercase(trimmed(query)))->0).len(),
    ensures
        gathered(v, query, budget).candidates.contains(
            (Candidate {
                id: ids_spec(v.exact(lane, lowercase(trimmed(query)))->0)[i],
                lane,
                key_len: lowercase(trimmed(query)).len() as usize,
            }),
        ),
{
    lemma_means(lane, folded(query));
    law_exact_hit_is_never_lost(v, query, budget, lane, i);
}

/// An English headword is found by its spelling, whatever its length: a query without Han
/// characters that is a key of the English lane has every entry under it among the candidates.
pub proof fn law_english_headwords_are_found(
    v: StoreView,
    query: Seq<char>,
    budget: nat,
    i: int,
)
    requires
        lowercase(trimmed(query)).len() > 2,
        trimmed(query).len() > 0,
        without_han(lowercase(trimmed(query))),
        v.lanes[2] is Some,
        find_posting(v.lanes[2], lowercase(trimmed(query))) is Some,
        0 <= i < ids_spec(find_posting(v.lanes[2], lowercase(trimmed(query)))->0).len(),
    ensures
        gathered(v, query, budget).candidates.contains(
            (Candidate {
                id: ids_spec(find_posting(v.lanes[2], lowercase(trimmed(query)))->0)[i],
                lane: Lane::Enw,
                key_len: lowercase(trimmed(query)).len() as usize,
            }),
        ),
{
    law_the_key_typed_is_found(v, query, budget, Lane::Enw, i);
}

/// A lookup that was not cut short has every entry under every key that begins with the query,
/// in every lane that the query means, with the length of the key.
pub proof fn law_what_begins_so_is_found(
    v: StoreView,
    query: Seq<char>,
    budget: nat,
    lane: Lane,
    key: Seq<char>,
    i: int,
)
    requires
        trimmed(query).len() > 0,
        means(lane, lowercase(trimmed(query))),
        v.lanes[lane.idx_spec() as int] is Some,
        lowercase(trimmed(query)).len() > 2 || v.top(lane, lowercase(trimmed(query))) is None,
        !gathered(v, query, budget).truncated,
        lowercase(trimmed(query)).is_prefix_of(key),
        v.exact(lane, key) is Some,
        0 <= i < ids_spec(v.exact(lane, key)->0).len(),
    ensures
        gathered(v, query, budget).candidates.contains(
            (Candidate {
                id: ids_spec(v.exact(lane, key)->0)[i],
                lane,
                key_len: key.len() as usize,
            }),
        ),
{
    lemma_means(lane, folded(query));
    assert(key.take(folded(query).len() as int) =~= folded(query));
    law_a_full_lookup_misses_nothing(v, query, budget, lane, key, i);
}

/// A list made in advance is used whole for a query of one or two characters: each of its
/// numbers gives the entry of its low 24 bits with the length of its high 8.
pub proof fn law_lists_made_in_advance_are_used(
    v: StoreView,
    query: Seq<char>,
    budget: nat,
    lane: Lane,
    i: int,
)
    requires
        trimmed(query).len() > 0,
        means(lane, lowercase(trimmed(query))),
        v.lanes[lane.idx_spec() as int] is Some,
        lowercase(trimmed(query)).len() <= 2,
        v.top(lane, lowercase(trimmed(query))) is Some,
        0 <= i < ids_spec(v.top(lane, lowercase(trimmed(query)))->0).len(),
    ensures
        gathered(v, query, budget).candidates.contains(
            (Candidate {
                id: ids_spec(v.top(lane, lowercase(trimmed(query)))->0)[i] % 0x100_0000,
                lane,
                key_len: (ids_spec(v.top(lane, lowercase(trimmed(query)))->0)[i] / 0x100_0000)
                    as usize,
            }),
        ),
{
    let q = folded(query);
    lemma_means(lane, q);
    let lanes = lanes_for(q);
    let k = choose|k: int| 0 <= k < lanes.len() && lanes[k] == lane;
    lemma_finds(v, lanes, q, budget, k);
    let packed = ids_spec(v.top(lane, q)->0);
    let c = top_candidates(packed, lane);
    assert(lane_finds(v, lane, q, budget).candidates == c);
    assert(c[i].id == packed[i] % 0x100_0000);
    assert(c.contains(c[i]));
}

/// Entry `id` stands under a key of an index that begins with `q` and has `n` characters.
pub open spec fn reached(x: IndexView, q: Seq<char>, id: u32, n: usize) -> bool {
    exists|at: int|
        0 <= at < keys_of(x).len() && encode_utf8(q).is_prefix_of((#[trigger] keys_of(x)[at]).0)
            && ids_spec(posting(x.1, keys_of(x)[at].1)).contains(id) && n == (if valid_utf8(
            keys_of(x)[at].0,
        ) {
            decode_utf8(keys_of(x)[at].0).len()
        } else {
            keys_of(x)[at].0.len()
        }) as usize
}

proof fn lemma_scan_reached(m: Seq<(Seq<u8>, Seq<u8>)>, lane: Lane, c: Candidate) -> (k: int)
    requires
        scan_candidates(m, lane).contains(c),
    ensures
        0 <= k < m.len(),
        ids_spec(m[k].1).contains(c.id),
        c.lane == lane,
        c.key_len == key_length(m[k].0) as usize,
    decreases m.len(),
{
    let a = scan_candidates(m.drop_last(), lane);
    let b = posting_candidates(ids_spec(m.last().1), lane, key_length(m.last().0));
    let i = choose|i: int| 0 <= i < (a + b).len() && (a + b)[i] == c;
    if i < a.len() {
        assert(a[i] == c);
        lemma_scan_reached(m.drop_last(), lane, c)
    } else {
        assert(b[i - a.len()] == c);
        assert(ids_spec(m.last().1)[i - a.len()] == c.id);
        m.len() - 1
    }
}

proof fn lemma_lane_reached(v: StoreView, lane: Lane, q: Seq<char>, budget: nat, c: Candidate)
    requires
        lane_finds(v, lane, q, budget).candidates.contains(c),
    ensures
        c.lane == lane,
        lane_runs(lane, q.len()),
        v.lanes[lane.idx_spec() as int] is Some,
        q.len() > MAX_TOP_PREFIX || v.top(lane, q) is None ==> reached(
            v.lanes[lane.idx_spec() as int]->0,
            q,
            c.id,
            c.key_len,
        ),
        q.len() <= MAX_TOP_PREFIX && v.top(lane, q) is Some ==> exists|i: int|
            0 <= i < ids_spec(v.top(lane, q)->0).len() && c.id == (#[trigger] ids_spec(
                v.top(lane, q)->0,
            )[i]) % 0x100_0000,
{
    let fc = lane_finds(v, lane, q, budget).candidates;
    let i = choose|i: int| 0 <= i < fc.len() && fc[i] == c;
    if q.len() <= MAX_TOP_PREFIX && v.top(lane, q) is Some {
        assert(ids_spec(v.top(lane, q)->0)[i] % 0x100_0000 == c.id);
    } else {
        let x = v.lanes[lane.idx_spec() as int]->0;
        let e = keys_of(x);
        let n = visited_len(v, lane, q, budget);
        let all = v.matches(lane, q);
        let found = scan_candidates(all.take(n as int), lane);
        if i < found.len() {
            assert(found[i] == c);
            let k = lemma_scan_reached(all.take(n as int), lane, c);
            assert(all.take(n as int)[k] == all[k]);
            let at = lemma_filter_listed(e, encode_utf8(q), k);
            assert(all[k] == (e[at].0, posting(x.1, e[at].1)));
            assert(reached(x, q, c.id, c.key_len));
        } else {
            let raw = v.exact(lane, q)->0;
            let rescued = posting_candidates(ids_spec(raw), lane, q.len());
            assert(rescued[i - found.len()] == c);
            assert(ids_spec(raw)[i - found.len()] == c.id);
            lemma_value_listed(e, encode_utf8(q));
            let off = value_at(e, encode_utf8(q))->0;
            let at = choose|at: int|
                0 <= at < e.len() && (#[trigger] e[at]) == (encode_utf8(q), off);
            encode_utf8_valid_utf8(q);
            encode_utf8_decode_utf8(q);
            assert(reached(x, q, c.id, c.key_len));
        }
    }
}

proof fn lemma_finds_from(v: StoreView, lanes: Seq<Lane>, q: Seq<char>, budget: nat, c: Candidate)
    requires
        finds(v, lanes, q, budget).candidates.contains(c),
    ensures
        lanes.contains(c.lane),
        lane_finds(v, c.lane, q, budget).candidates.contains(c),
    decreases lanes.len(),
{
    let rest = lanes.drop_last();
    let a = finds(v, rest, q, budget).candidates;
    let b = lane_finds(v, lanes.last(), q, budget).candidates;
    let i = choose|i: int| 0 <= i < (a + b).len() && (a + b)[i] == c;
    if i < a.len() {
        assert(a[i] == c);
        lemma_finds_from(v, rest, q, budget, c);
        let k = choose|k: int| 0 <= k < rest.len() && rest[k] == c.lane;
        assert(lanes[k] == c.lane);
    } else {
        assert(b[i - a.len()] == c);
        lemma_lane_reached(v, lanes.last(), q, budget, c);
        assert(lanes[lanes.len() - 1] == c.lane);
    }
}

/// Nothing else is found: a candidate is of a lane that the query means, and stands under a
/// key that begins with the query and is as long as the candidate says, or in a list made in
/// advance for a query of one or two characters.
pub proof fn law_what_is_found_begins_so(
    v: StoreView,
    query: Seq<char>,
    budget: nat,
    c: Candidate,
)
    requires
        gathered(v, query, budget).candidates.contains(c),
    ensures
        means(c.lane, lowercase(trimmed(query))),
        v.lanes[c.lane.idx_spec() as int] is Some,
        lowercase(trimmed(query)).len() > 2 || v.top(c.lane, lowercase(trimmed(query))) is None
            ==> reached(
            v.lanes[c.lane.idx_spec() as int]->0,
            lowercase(trimmed(query)),
            c.id,
            c.key_len,
        ),
        lowercase(trimmed(query)).len() <= 2 && v.top(c.lane, lowercase(trimmed(query))) is Some
            ==> exists|i: int|
            0 <= i < ids_spec(v.top(c.lane, lowercase(trimmed(query)))->0).len() && c.id == (
            #[trigger] ids_spec(v.top(c.lane, lowercase(trimmed(query)))->0)[i]) % 0x100_0000,
{
    let q = folded(query);
    lemma_finds_from(v, lanes_for(q), q, budget, c);
    lemma_lane_reached(v, c.lane, q, budget, c);
    lemma_means(c.lane, q);
}

/// What one lane has visited: nothing where it does not run or has a list made in advance, and
/// else the keys that begin with the query, up to the budget.
proof fn lemma_finds_count(v: StoreView, lanes: Seq<Lane>, q: Seq<char>, budget: nat)
    ensures
        finds(v, lanes, q, budget).scanned <= lanes.len() * budget,
        finds(v, lanes, q, budget).truncated <==> exists|k: int|
            0 <= k < lanes.len() && (#[trigger] lane_finds(v, lanes[k], q, budget)).truncated,
    decreases lanes.len(),
{
    if lanes.len() > 0 {
        let rest = lanes.drop_last();
        lemma_finds_count(v, rest, q, budget);
        assert(lanes.len() * budget == rest.len() * budget + budget) by (nonlinear_arith)
            requires
                lanes.len() == rest.len() + 1,
        ;
        let f = finds(v, lanes, q, budget);
        if f.truncated {
            if finds(v, rest, q, budget).truncated {
                let k = choose|k: int|
                    0 <= k < rest.len() && (#[trigger] lane_finds(v, rest[k], q, budget)).truncated;
                assert(lane_finds(v, lanes[k], q, budget).truncated);
            } else {
                assert(lane_finds(v, lanes[lanes.len() - 1], q, budget).truncated);
            }
        }
        if exists|k: int|
            0 <= k < lanes.len() && (#[trigger] lane_finds(v, lanes[k], q, budget)).truncated {
            let k = choose|k: int|
                0 <= k < lanes.len() && (#[trigger] lane_finds(v, lanes[k], q, budget)).truncated;
            if k < rest.len() {
                assert(lane_finds(v, rest[k], q, budget).truncated);
            }
        }
    } else {
        assert(0 * budget == 0);
    }
}

/// A lookup says that it was cut short exactly where some lane that the query means, with an
/// index and no list made in advance, has as many keys that begin with the query as the budget
/// allows; and it visits no more than the budget in each of seven lanes.
pub proof fn law_a_lookup_says_when_it_was_cut_short(v: StoreView, query: Seq<char>, budget: nat)
    requires
        trimmed(query).len() > 0,
    ensures
        gathered(v, query, budget).scanned <= 7 * budget,
        gathered(v, query, budget).truncated <==> exists|lane: Lane|
            means(lane, lowercase(trimmed(query))) && v.lanes[lane.idx_spec() as int] is Some && (
            lowercase(trimmed(query)).len() > 2 || v.top(lane, lowercase(trimmed(query))) is None)
                && (#[trigger] v.matches(lane, lowercase(trimmed(query)))).len() >= budget,
{
    let q = folded(query);
    let lanes = lanes_for(q);
    lemma_finds_count(v, lanes, q, budget);
    assert(lanes.len() * budget <= 7 * budget) by (nonlinear_arith)
        requires
            lanes.len() <= 7,
    ;
    let g = gathered(v, query, budget);
    if g.truncated {
        let k = choose|k: int|
            0 <= k < lanes.len() && (#[trigger] lane_finds(v, lanes[k], q, budget)).truncated;
        lemma_means(lanes[k], q);
        assert(lanes.contains(lanes[k]));
        assert(v.matches(lanes[k], q).len() >= budget);
    }
    if exists|lane: Lane|
        means(lane, q) && v.lanes[lane.idx_spec() as int] is Some && (q.len() > 2 || v.top(
            lane,
            q,
        ) is None) && (#[trigger] v.matches(lane, q)).len() >= budget {
        let lane = choose|lane: Lane|
            means(lane, q) && v.lanes[lane.idx_spec() as int] is Some && (q.len() > 2 || v.top(
                lane,
                q,
            ) is None) && (#[trigger] v.matches(lane, q)).len() >= budget;
        lemma_means(lane, q);
        let k = choose|k: int| 0 <= k < lanes.len() && lanes[k] == lane;
        assert(lane_finds(v, lanes[k], q, budget).truncated);
    }
}

// ───────────────────────── what a result shows ─────────────────────────

/// Among candidates of one entry, some candidate stands for it.
proof fn lemma_someone_stands(c: Seq<Candidate>, s: Seq<Single>, n: int, j: int) -> (k: int)
    requires
        c.len() == s.len(),
        0 <= j < n <= c.len(),
    ensures
        stands_for(c, s, n, k),
        c[k].id == c[j].id,
    decreases n,
{
    let id = c[j].id;
    if n == 1 {
        0
    } else if c[n - 1].id != id {
        let k = lemma_someone_stands(c, s, n - 1, j);
        assert(stands_for(c, s, n, k));
        k
    } else if exists|m: int| 0 <= m < n - 1 && (#[trigger] c[m]).id == id {
        let m = choose|m: int| 0 <= m < n - 1 && (#[trigger] c[m]).id == id;
        let k = lemma_someone_stands(c, s, n - 1, m);
        if s[n - 1].order() > s[k].order() {
            assert forall|j: int|
                0 <= j < n && (#[trigger] c[j]).id == c[n - 1].id && j != n - 1 implies if j < n - 1 {
                s[j].order() < s[n - 1].order()
            } else {
                s[j].order() <= s[n - 1].order()
            } by {
                if j != k {
                    assert(c[j].id == c[k].id);
                }
            }
            assert(stands_for(c, s, n, n - 1));
            n - 1
        } else {
            assert(stands_for(c, s, n, k));
            k
        }
    } else {
        assert(stands_for(c, s, n, n - 1));
        n - 1
    }
}

/// A ranking has every entry that was found, by its best score: whatever candidate an entry
/// has, the ranking gives the entry at least that score.
pub proof fn law_entries_rank_by_their_best(
    c: Seq<Candidate>,
    s: Seq<Single>,
    r: Seq<Hit>,
    k: int,
)
    requires
        c.len() == s.len(),
        ranks(c, s, r),
        0 <= k < c.len(),
    ensures
        exists|i: int|
            0 <= i < r.len() && (#[trigger] r[i]).id == c[k].id && s[k].order()
                <= r[i].score.order(),
{
    let b = lemma_someone_stands(c, s, c.len() as int, k);
    assert(r.contains(hit_at(c, s, b)));
    let i = choose|i: int| 0 <= i < r.len() && r[i] == hit_at(c, s, b);
    assert(r[i].id == c[k].id);
    assert(k == b || c[k].id == c[b].id);
}

/// A ranking has nothing else: the entry, the lane and the score of every hit are those of one
/// candidate.
pub proof fn law_hits_come_of_candidates(c: Seq<Candidate>, s: Seq<Single>, r: Seq<Hit>, i: int)
    requires
        ranks(c, s, r),
        0 <= i < r.len(),
    ensures
        exists|k: int|
            0 <= k < c.len() && (#[trigger] c[k]).id == r[i].id && c[k].lane == r[i].lane && s[k]
                == r[i].score,
{
    assert(is_best(c, s, r[i]));
    let k = choose|k: int| #[trigger]
        stands_for(c, s, c.len() as int, k) && hit_at(c, s, k) == r[i];
    assert(c[k].id == r[i].id);
}

/// A ranking falls by score, and among equal scores rises by entry.
pub proof fn law_a_ranking_falls_by_score(
    c: Seq<Candidate>,
    s: Seq<Single>,
    r: Seq<Hit>,
    i: int,
    j: int,
)
    requires
        ranks(c, s, r),
        0 <= i < j < r.len(),
    ensures
        r[i].score.order() > r[j].score.order() || (r[i].score.order() == r[j].score.order()
            && r[i].id < r[j].id),
{
    assert(ahead(r[i], r[j]));
}

/// A hit on the gloss of a word rather than on a headword.
pub open spec fn by_gloss(h: Hit) -> bool {
    h.lane == Lane::Gloss || h.lane == Lane::Trans
}

/// How many hits are on glosses.
pub open spec fn gloss_count(h: Seq<Hit>) -> nat {
    h.filter(|x: Hit| by_gloss(x)).len()
}

proof fn lemma_gloss_count_prepend(x: Hit, h: Seq<Hit>)
    ensures
        gloss_count(seq![x] + h) == gloss_count(h) + if by_gloss(x) {
            1nat
        } else {
            0nat
        },
    decreases h.len(),
{
    reveal(Seq::filter);
    let f = |x: Hit| by_gloss(x);
    let all = seq![x] + h;
    if h.len() == 0 {
        assert(all.drop_last() =~= Seq::<Hit>::empty());
        assert(all.last() == x);
        assert(all.drop_last().filter(f).len() == 0);
    } else {
        assert(all.drop_last() =~= seq![x] + h.drop_last());
        lemma_gloss_count_prepend(x, h.drop_last());
        assert(all.last() == h.last());
    }
}

/// What a result shows of a ranking: hits of the ranking in its order, at most `room`, at most
/// `spare` of them on glosses; and it leaves a hit out only where it is full of hits ahead of
/// it, or, for a hit on a gloss, where it has its `spare` hits on glosses.
pub proof fn law_a_result_leaves_out_only_what_has_no_room(r: Seq<Hit>, room: nat, spare: nat)
    requires
        forall|i: int, j: int| 0 <= i < j < r.len() ==> #[trigger] ahead(r[i], r[j]),
    ensures
        picked(r, room, spare).len() <= room,
        gloss_count(picked(r, room, spare)) <= spare,
        forall|i: int|
            0 <= i < picked(r, room, spare).len() ==> r.contains(
                #[trigger] picked(r, room, spare)[i],
            ),
        forall|i: int, j: int|
            0 <= i < j < picked(r, room, spare).len() ==> #[trigger] ahead(
                picked(r, room, spare)[i],
                picked(r, room, spare)[j],
            ),
        forall|i: int|
            0 <= i < r.len() && !picked(r, room, spare).contains(#[trigger] r[i]) ==> (picked(
                r,
                room,
                spare,
            ).len() == room && forall|j: int|
                0 <= j < room ==> ahead(#[trigger] picked(r, room, spare)[j], r[i])) || (by_gloss(
                r[i],
            ) && gloss_count(picked(r, room, spare)) == spare),
    decreases r.len(),
{
    let p = picked(r, room, spare);
    reveal(Seq::filter);
    if r.len() == 0 || room == 0 {
        assert(p.filter(|x: Hit| by_gloss(x)).len() == 0);
    } else {
        let t = r.drop_first();
        assert forall|i: int, j: int| 0 <= i < j < t.len() implies #[trigger] ahead(t[i], t[j]) by {
            assert(ahead(r[i + 1], r[j + 1]));
        }
        let skip = by_gloss(r[0]) && spare == 0;
        let room1 = if skip {
            room
        } else {
            (room - 1) as nat
        };
        let spare1 = if by_gloss(r[0]) && !skip {
            (spare - 1) as nat
        } else {
            spare
        };
        let q = picked(t, room1, spare1);
        law_a_result_leaves_out_only_what_has_no_room(t, room1, spare1);
        assert(p == if skip {
            q
        } else {
            seq![r[0]] + q
        });
        if !skip {
            lemma_gloss_count_prepend(r[0], q);
        }
        assert forall|i: int| 0 <= i < p.len() implies r.contains(#[trigger] p[i]) by {
            if !skip && i == 0 {
                assert(r[0] == p[0]);
            } else {
                let m = if skip {
                    i
                } else {
                    i - 1
                };
                assert(t.contains(q[m]));
                let k = choose|k: int| 0 <= k < t.len() && t[k] == q[m];
                assert(r[k + 1] == p[i]);
            }
        }
        assert forall|i: int, j: int| 0 <= i < j < p.len() implies #[trigger] ahead(p[i], p[j]) by {
            if skip {
                assert(ahead(q[i], q[j]));
            } else if i > 0 {
                assert(ahead(q[i - 1], q[j - 1]));
            } else {
                assert(t.contains(q[j - 1]));
                let k = choose|k: int| 0 <= k < t.len() && t[k] == q[j - 1];
                assert(ahead(r[0], r[k + 1]));
            }
        }
        assert forall|i: int| 0 <= i < r.len() && !p.contains(#[trigger] r[i]) implies (p.len()
            == room && forall|j: int| 0 <= j < room ==> ahead(#[trigger] p[j], r[i])) || (by_gloss(
            r[i],
        ) && gloss_count(p) == spare) by {
            if i == 0 {
                if !skip {
                    assert(p[0] == r[0]);
                }
            } else {
                assert(t[i - 1] == r[i]);
                if q.contains(t[i - 1]) {
                    let k = choose|k: int| 0 <= k < q.len() && q[k] == t[i - 1];
                    assert(p[if skip {
                        k
                    } else {
                        k + 1
                    }] == r[i]);
                }
                if q.len() == room1 && forall|j: int| 0 <= j < room1 ==> ahead(#[trigger] q[j], t[i - 1]) {
                    assert forall|j: int| 0 <= j < room implies ahead(#[trigger] p[j], r[i]) by {
                        if skip {
                            assert(ahead(q[j], t[i - 1]));
                        } else if j == 0 {
                            assert(ahead(r[0], r[i]));
                        } else {
                            assert(ahead(q[j - 1], t[i - 1]));
                        }
                    }
                }
            }
        }
    }
}

/// What a score is made of: the weight of the lane; a bonus where the key is as long as the
/// query, in full on a headword, a share of it on a gloss, none inside a headword; and how many
/// characters the key is longer.
pub proof fn law_terms_of_a_score(lane: Lane, key_len: usize, q_len: usize)
    ensures
        terms_spec(lane, key_len, q_len).weight.bits == match lane {
            Lane::Zh => 0x3F80_0000u32,
            Lane::Enw => 0x3F80_0000u32,
            Lane::Py => 0x3F73_3333u32,
            Lane::ZhSub => 0x3F59_999Au32,
            Lane::Ini => 0x3F33_3333u32,
            Lane::Gloss => 0x3F00_0000u32,
            Lane::Trans => 0x3F00_0000u32,
        },
        terms_spec(lane, key_len, q_len).bonus == Bonus::Full <==> key_len == q_len && (lane
            == Lane::Zh || lane == Lane::Enw || lane == Lane::Py || lane == Lane::Ini),
        terms_spec(lane, key_len, q_len).bonus == Bonus::Secondary <==> key_len == q_len && (lane
            == Lane::Gloss || lane == Lane::Trans),
        q_len <= key_len ==> terms_spec(lane, key_len, q_len).over + q_len == key_len,
        q_len >= key_len ==> terms_spec(lane, key_len, q_len).over == 0,
{
}

/// After stabilising, a hit has its new score, and hits on entries that were not shown before
/// stand behind all others in their new order.
pub proof fn law_stabilized_hits_are_new_ones(prev: Seq<Hit>, fresh: Seq<Hit>)
    requires
        forall|i: int, j: int| 0 <= i < j < fresh.len() ==> (#[trigger] fresh[i]).id != (
        #[trigger] fresh[j]).id,
    ensures
        forall|i: int|
            0 <= i < (survivors(prev, fresh) + newcomers(prev, fresh)).len() ==> fresh.contains(
                #[trigger] (survivors(prev, fresh) + newcomers(prev, fresh))[i],
            ),
        forall|i: int|
            0 <= i < fresh.len() && (forall|k: int|
                0 <= k < prev.len() ==> (#[trigger] prev[k]).id != fresh[i].id) ==> newcomers(
                prev,
                fresh,
            ).contains(#[trigger] fresh[i]),
        forall|i: int|
            0 <= i < survivors(prev, fresh).len() ==> exists|k: int|
                0 <= k < prev.len() && (#[trigger] prev[k]).id == (#[trigger] survivors(
                    prev,
                    fresh,
                )[i]).id,
{
    let s = survivors(prev, fresh);
    let n = newcomers(prev, fresh);
    lemma_survivors_from(prev, fresh);
    lemma_newcomers_from(prev, fresh);
    assert forall|i: int| 0 <= i < (s + n).len() implies fresh.contains(#[trigger] (s + n)[i]) by {
        if i < s.len() {
            assert(fresh.contains(s[i]));
        } else {
            assert(fresh.contains(n[i - s.len()]));
        }
    }
}

proof fn lemma_survivors_from(prev: Seq<Hit>, fresh: Seq<Hit>)
    ensures
        forall|i: int|
            0 <= i < survivors(prev, fresh).len() ==> fresh.contains(
                #[trigger] survivors(prev, fresh)[i],
            ) && exists|k: int|
                0 <= k < prev.len() && (#[trigger] prev[k]).id == survivors(prev, fresh)[i].id,
    decreases prev.len(),
{
    if prev.len() > 0 {
        let p = prev.drop_last();
        lemma_survivors_from(p, fresh);
        lemma_hit_on(fresh, prev.last().id);
        let s = survivors(prev, fresh);
        let t = survivors(p, fresh);
        assert forall|i: int| 0 <= i < s.len() implies fresh.contains(#[trigger] s[i]) && exists|
            k: int,
        |
            0 <= k < prev.len() && (#[trigger] prev[k]).id == s[i].id by {
            if i < t.len() {
                assert(s[i] == t[i]);
                let k = choose|k: int| 0 <= k < p.len() && (#[trigger] p[k]).id == t[i].id;
                assert(prev[k].id == s[i].id);
            } else {
                assert(prev[prev.len() - 1].id == s[i].id);
            }
        }
    }
}

proof fn lemma_newcomers_from(prev: Seq<Hit>, fresh: Seq<Hit>)
    ensures
        forall|i: int|
            0 <= i < newcomers(prev, fresh).len() ==> fresh.contains(
                #[trigger] newcomers(prev, fresh)[i],
            ),
        forall|i: int|
            0 <= i < fresh.len() && (forall|k: int|
                0 <= k < prev.len() ==> (#[trigger] prev[k]).id != fresh[i].id) ==> newcomers(
                prev,
                fresh,
            ).contains(#[trigger] fresh[i]),
    decreases fresh.len(),
{
    if fresh.len() > 0 {
        let f = fresh.drop_last();
        lemma_newcomers_from(prev, f);
        lemma_hit_on(prev, fresh.last().id);
        let n = newcomers(prev, fresh);
        let m = newcomers(prev, f);
        assert forall|i: int| 0 <= i < n.len() implies fresh.contains(#[trigger] n[i]) by {
            if i < m.len() {
                assert(f.contains(m[i]));
                let k = choose|k: int| 0 <= k < f.len() && f[k] == m[i];
                assert(fresh[k] == n[i]);
            } else {
                assert(fresh[fresh.len() - 1] == n[i]);
            }
        }
        assert forall|i: int|
            0 <= i < fresh.len() && (forall|k: int|
                0 <= k < prev.len() ==> (#[trigger] prev[k]).id != fresh[i].id) implies n.contains(
            #[trigger] fresh[i],
        ) by {
            if i < f.len() {
                assert(f[i] == fresh[i]);
                assert(m.contains(f[i]));
                let k = choose|k: int| 0 <= k < m.len() && m[k] == f[i];
                assert(n[k] == fresh[i]);
            } else {
                if let Some(x) = hit_on(prev, fresh.last().id) {
                    let k = choose|k: int| 0 <= k < prev.len() && prev[k] == x;
                    assert(prev[k].id == fresh[i].id);
                }
                assert(n[n.len() - 1] == fresh[i]);
            }
        }
    }
}

/// How many keys of one lane a lookup visits.
pub open spec fn visits(v: StoreView, lane: Lane, q: Seq<char>, budget: nat) -> nat {
    if means(lane, q) && v.lanes[lane.idx_spec() as int] is Some && (q.len() > 2 || v.top(
        lane,
        q,
    ) is None) {
        if v.matches(lane, q).len() < budget {
            v.matches(lane, q).len()
        } else {
            budget
        }
    } else {
        0
    }
}

proof fn lemma_lane_scanned(v: StoreView, lane: Lane, q: Seq<char>, budget: nat)
    requires
        lanes_for(q).contains(lane),
    ensures
        lane_finds(v, lane, q, budget).scanned == visits(v, lane, q, budget),
{
    lemma_means(lane, q);
}

/// The number of keys visited is what the seven lanes visit together.
pub proof fn law_visited_keys_are_counted(v: StoreView, query: Seq<char>, budget: nat)
    requires
        trimmed(query).len() > 0,
    ensures
        ({
            let q = lowercase(trimmed(query));
            gathered(v, query, budget).scanned == visits(v, Lane::Zh, q, budget) + visits(
                v,
                Lane::ZhSub,
                q,
                budget,
            ) + visits(v, Lane::Enw, q, budget) + visits(v, Lane::Py, q, budget) + visits(
                v,
                Lane::Ini,
                q,
                budget,
            ) + visits(v, Lane::Gloss, q, budget) + visits(v, Lane::Trans, q, budget)
        }),
{
    let q = folded(query);
    let l = lanes_for(q);
    lemma_means(Lane::Zh, q);
    let n = l.len() as int;
    assert forall|i: int| 0 <= i < n implies lane_finds(v, #[trigger] l[i], q, budget).scanned
        == visits(v, l[i], q, budget) by {
        assert(l.contains(l[i]));
        lemma_lane_scanned(v, l[i], q, budget);
    }
    lemma_finds_step(v, l, q, budget, n);
    lemma_finds_step(v, l, q, budget, n - 1);
    lemma_finds_step(v, l, q, budget, n - 2);
    assert(l.take(n) =~= l);
    if has_cjk(q) {
        assert(l[0] == Lane::Zh && l[1] == Lane::ZhSub && l[2] == Lane::Trans);
        assert(l.take(0).len() == 0);
    } else {
        lemma_finds_step(v, l, q, budget, 4);
        lemma_finds_step(v, l, q, budget, 3);
        lemma_finds_step(v, l, q, budget, 2);
        lemma_finds_step(v, l, q, budget, 1);
        assert(l[0] == Lane::Zh && l[1] == Lane::ZhSub && l[2] == Lane::Enw && l[3] == Lane::Py
            && l[4] == Lane::Ini && l[5] == Lane::Gloss && l[6] == Lane::Trans);
        assert(l.take(0).len() == 0);
    }
}

proof fn lemma_finds_step(v: StoreView, l: Seq<Lane>, q: Seq<char>, budget: nat, k: int)
    requires
        0 < k <= l.len(),
    ensures
        finds(v, l.take(k), q, budget).scanned == finds(v, l.take(k - 1), q, budget).scanned
            + lane_finds(v, l[k - 1], q, budget).scanned,
        finds(v, l.take(0), q, budget).scanned == 0,
{
    assert(l.take(k).drop_last() =~= l.take(k - 1));
    assert(l.take(k).last() == l[k - 1]);
    assert(l.take(0).len() == 0);
}

/// No candidate of the same entry scores better than candidate `k`, and none before it as well.
pub open spec fn first_best(c: Seq<Candidate>, s: Seq<Single>, k: int) -> bool {
    &&& 0 <= k < c.len()
    &&& forall|j: int|
        0 <= j < c.len() && (#[trigger] c[j]).id == c[k].id ==> s[j].order() <= s[k].order()
    &&& forall|j: int| 0 <= j < k && (#[trigger] c[j]).id == c[k].id ==> s[j].order() < s[k].order()
}

/// The hit of an entry is its candidate of the best score, the first of them where several
/// score alike.
pub proof fn law_the_first_of_the_best_stands(
    c: Seq<Candidate>,
    s: Seq<Single>,
    r: Seq<Hit>,
    i: int,
)
    requires
        c.len() == s.len(),
        ranks(c, s, r),
        0 <= i < r.len(),
    ensures
        exists|k: int| #[trigger]
            first_best(c, s, k) && c[k].id == r[i].id && c[k].lane == r[i].lane && s[k]
                == r[i].score,
{
    assert(is_best(c, s, r[i]));
    let k = choose|k: int| #[trigger]
        stands_for(c, s, c.len() as int, k) && hit_at(c, s, k) == r[i];
    assert forall|j: int| 0 <= j < c.len() && (#[trigger] c[j]).id == c[k].id implies s[j].order()
        <= s[k].order() by {}
    assert(first_best(c, s, k));
}

/// Entries shown before stay first, in their old order and with their new scores; new ones
/// follow in the order of the lookup.
pub proof fn law_who_comes_after_whom(prev: Seq<Hit>, fresh: Seq<Hit>, h: Hit, i: int)
    ensures
        survivors(Seq::empty(), fresh).len() == 0,
        newcomers(prev, Seq::empty()).len() == 0,
        no_hit_on(fresh, 0, h.id) ==> survivors(prev.push(h), fresh) == survivors(prev, fresh),
        0 <= i < fresh.len() && fresh[i].id == h.id && no_hit_on(fresh, i + 1, h.id) ==> survivors(
            prev.push(h),
            fresh,
        ) == survivors(prev, fresh).push(fresh[i]),
        no_hit_on(prev, 0, h.id) ==> newcomers(prev, fresh.push(h)) == newcomers(prev, fresh).push(
            h,
        ),
        0 <= i < prev.len() && prev[i].id == h.id ==> newcomers(prev, fresh.push(h)) == newcomers(
            prev,
            fresh,
        ),
{
    assert(prev.push(h).drop_last() =~= prev);
    assert(fresh.push(h).drop_last() =~= fresh);
    lemma_hit_is_last(fresh, h.id, i);
    lemma_hit_is_last(prev, h.id, i);
}

/// No hit from place `from` on is on entry `id`.
pub open spec fn no_hit_on(f: Seq<Hit>, from: int, id: u32) -> bool {
    forall|j: int| from <= j < f.len() ==> (#[trigger] f[j]).id != id
}

proof fn lemma_hit_is_last(f: Seq<Hit>, id: u32, i: int)
    ensures
        no_hit_on(f, 0, id) ==> hit_on(f, id) is None,
        0 <= i < f.len() && f[i].id == id ==> hit_on(f, id) is Some,
        0 <= i < f.len() && f[i].id == id && no_hit_on(f, i + 1, id) ==> hit_on(f, id) == Some(f[i]),
    decreases f.len(),
{
    if f.len() > 0 {
        let u = f.drop_last();
        lemma_hit_is_last(u, id, i);
        assert(f[f.len() - 1] == f.last());
        if no_hit_on(f, 0, id) {
            assert forall|j: int| 0 <= j < u.len() implies (#[trigger] u[j]).id != id by {
                assert(u[j] == f[j]);
            }
        }
        if 0 <= i < u.len() {
            assert(u[i] == f[i]);
            if no_hit_on(f, i + 1, id) {
                assert forall|j: int| i + 1 <= j < u.len() implies (#[trigger] u[j]).id != id by {
                    assert(u[j] == f[j]);
                }
            }
        }
    }
}

/// A candidate out of a list made in advance has the length of key that the list gives.
pub proof fn law_lists_made_in_advance_tell_lengths(
    v: StoreView,
    lane: Lane,
    q: Seq<char>,
    budget: nat,
    i: int,
)
    requires
        means(lane, q),
        v.lanes[lane.idx_spec() as int] is Some,
        q.len() <= 2,
        v.top(lane, q) is Some,
    ensures
        lane_finds(v, lane, q, budget).candidates.len() == ids_spec(v.top(lane, q)->0).len(),
        0 <= i < ids_spec(v.top(lane, q)->0).len() ==> {
            let x = ids_spec(v.top(lane, q)->0)[i];
            let c = lane_finds(v, lane, q, budget).candidates[i];
            c.lane == lane && c.id + 0x100_0000 * c.key_len == x && c.id < 0x100_0000
        },
        !lane_finds(v, lane, q, budget).truncated,
        lane_finds(v, lane, q, budget).scanned == 0,
{
    lemma_means(lane, q);
    if 0 <= i < ids_spec(v.top(lane, q)->0).len() {
        let x = ids_spec(v.top(lane, q)->0)[i];
        assert(x / 0x100_0000 < 256);
        vstd::arithmetic::div_mod::lemma_fundamental_div_mod(x as int, 0x100_0000);
    }
}

} // verus!
