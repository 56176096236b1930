//! Tables of short prefixes.
//!
//! The prefix `a` has some ninety thousand English keys, too many to walk on the first
//! keystroke. For prefixes with many keys the best candidates are chosen when the store is
//! built. They are scored with the default parameters; the table is far deeper than a result.
use crate::cedict::at_most;
use crate::fasthash::IdSet;
use crate::order::{
    lemma_arranged_complete, permuted, sort_indices, stable_perm, stable_sort, IndexOrder,
};
use crate::single::Single;
use crate::sorted::{text_less, ByText};
use crate::store::{pack_top, packed_top, MAX_TOP_PREFIX};
use crate::text::{chars_of, starts_with, string_of};
use crate::writer::keyed;
use vstd::hash_map::StringHashMap;
use vstd::prelude::*;
use vstd::slice::*;
use vstd::std_specs::hash::*;
use vstd::string::*;

verus! {

/// How many candidates a table keeps for a prefix.
pub const TOP_N: usize = 400;

/// A prefix with more keys than this gets a table; fewer are walked as fast.
pub const TOP_THRESHOLD: usize = 1500;

/// An entry found under a prefix, with the length of its key.
#[derive(Clone, Copy, Debug, PartialEq, Eq, Structural)]
pub struct TopCandidate {
    pub key_len: usize,
    pub id: u32,
}

/// A prefix and everything found under it.
pub struct TopSlot {
    pub prefix: String,
    pub candidates: Vec<TopCandidate>,
}

/// The first `n` characters of a text that has as many.
pub open spec fn prefix_spec(s: Seq<char>, n: int) -> Option<Seq<char>> {
    if n <= s.len() {
        Some(s.take(n))
    } else {
        None
    }
}

pub fn prefix_of(s: &str, n: usize) -> (r: Option<String>)
    ensures
        match r {
            Some(p) => prefix_spec(s@, n as int) == Some(p@),
            None => prefix_spec(s@, n as int) is None,
        },
{
    let c = chars_of(s);
    if n <= c.len() {
        let p = slice_subrange(&c, 0, n);
        assert(p@ =~= s@.take(n as int));
        Some(string_of(p))
    } else {
        None
    }
}

/// How many keys start with a prefix.
pub open spec fn count_under(keys: Seq<(Seq<char>, Seq<u32>)>, p: Seq<char>) -> nat
    decreases keys.len(),
{
    if keys.len() == 0 {
        0
    } else {
        count_under(keys.drop_last(), p) + if starts_with(keys.last().0, p) {
            1nat
        } else {
            0nat
        }
    }
}

/// The entries of one key.
pub open spec fn key_candidates(key_len: nat, ids: Seq<u32>) -> Seq<TopCandidate> {
    Seq::new(ids.len(), |i: int| TopCandidate { key_len: key_len as usize, id: ids[i] })
}

/// The entries of all keys that start with a prefix.
pub open spec fn candidates_under(keys: Seq<(Seq<char>, Seq<u32>)>, p: Seq<char>) -> Seq<
    TopCandidate,
>
    decreases keys.len(),
{
    if keys.len() == 0 {
        Seq::empty()
    } else {
        let a = candidates_under(keys.drop_last(), p);
        if starts_with(keys.last().0, p) {
            a + key_candidates(keys.last().0.len(), keys.last().1)
        } else {
            a
        }
    }
}

/// A prefix of one or two characters with more keys than the threshold.
pub open spec fn is_heavy(keys: Seq<(Seq<char>, Seq<u32>)>, p: Seq<char>) -> bool {
    1 <= p.len() <= MAX_TOP_PREFIX && count_under(keys, p) > TOP_THRESHOLD
}

/// Prefixes in the making.
struct Table {
    slot: StringHashMap<usize>,
    prefixes: Vec<String>,
    counts: Vec<usize>,
    candidates: Vec<Vec<TopCandidate>>,
}

/// The keys that count for prefixes of a length: `a` for one character, `b` for two.
spec fn counted(
    a: Seq<(Seq<char>, Seq<u32>)>,
    b: Seq<(Seq<char>, Seq<u32>)>,
    p: Seq<char>,
) -> Seq<(Seq<char>, Seq<u32>)> {
    if p.len() == 1 {
        a
    } else if p.len() == 2 {
        b
    } else {
        Seq::empty()
    }
}

impl Table {
    spec fn wf(self) -> bool {
        &&& self.counts@.len() == self.prefixes@.len()
        &&& self.candidates@.len() == self.prefixes@.len()
        &&& forall|i: int|
            0 <= i < self.prefixes@.len() ==> self.slot@.contains_key(
                (#[trigger] self.prefixes@[i])@,
            ) && self.slot@[self.prefixes@[i]@] == i
        &&& forall|k: Seq<char>| #[trigger]
            self.slot@.contains_key(k) ==> self.slot@[k] < self.prefixes@.len()
                && self.prefixes@[self.slot@[k] as int]@ == k
    }

    spec fn count(self, p: Seq<char>) -> nat {
        if self.slot@.contains_key(p) {
            self.counts@[self.slot@[p] as int] as nat
        } else {
            0
        }
    }

    spec fn found(self, p: Seq<char>) -> Seq<TopCandidate> {
        if self.slot@.contains_key(p) {
            self.candidates@[self.slot@[p] as int]@
        } else {
            Seq::empty()
        }
    }

    /// The table holds what the keys say.
    spec fn holds(self, a: Seq<(Seq<char>, Seq<u32>)>, b: Seq<(Seq<char>, Seq<u32>)>) -> bool {
        &&& self.wf()
        &&& forall|p: Seq<char>| #[trigger] self.count(p) == count_under(counted(a, b, p), p)
        &&& forall|p: Seq<char>| #[trigger] self.found(p) == candidates_under(counted(a, b, p), p)
    }

    fn add(&mut self, p: String, key_len: usize, ids: &Vec<u32>)
        requires
            old(self).wf(),
            old(self).count(p@) < usize::MAX,
        ensures
            final(self).wf(),
            forall|q: Seq<char>| #[trigger]
                final(self).count(q) == old(self).count(q) + if q == p@ {
                    1nat
                } else {
                    0nat
                },
            forall|q: Seq<char>| #[trigger]
                final(self).found(q) == if q == p@ {
                    old(self).found(q) + key_candidates(key_len as nat, ids@)
                } else {
                    old(self).found(q)
                },
    {
        let ghost was = *self;
        let ghost pv = p@;
        let at: usize = match self.slot.get(p.as_str()) {
            Some(k) => *k,
            None => {
                let n: usize = self.prefixes.len();
                self.slot.insert(p.clone(), n);
                self.prefixes.push(p);
                self.counts.push(0);
                self.candidates.push(Vec::new());
                n
            },
        };
        let ghost mid = *self;
        proof {
            assert(mid.wf()) by {
                assert forall|i: int| 0 <= i < mid.prefixes@.len() implies mid.slot@.contains_key(
                    (#[trigger] mid.prefixes@[i])@,
                ) && mid.slot@[mid.prefixes@[i]@] == i by {
                    if i < was.prefixes@.len() {
                        assert(mid.prefixes@[i] == was.prefixes@[i]);
                        assert(was.slot@.contains_key(was.prefixes@[i]@));
                    }
                }
            }
            assert(mid.slot@.contains_key(pv) && mid.slot@[pv] == at);
            assert forall|q: Seq<char>| #[trigger] mid.count(q) == was.count(q) by {
                if was.slot@.contains_key(q) {
                    assert(was.prefixes@[was.slot@[q] as int]@ == q);
                }
            }
            assert forall|q: Seq<char>| #[trigger] mid.found(q) == was.found(q) by {
                if was.slot@.contains_key(q) {
                    assert(was.prefixes@[was.slot@[q] as int]@ == q);
                } else if q == pv {
                    assert(mid.found(q) =~= Seq::<TopCandidate>::empty());
                }
            }
            assert(mid.count(pv) == mid.counts@[at as int]);
        }
        let c: usize = self.counts[at];
        self.counts.set(at, c + 1);
        let mut l: Vec<TopCandidate> = Vec::new();
        std::mem::swap(&mut l, &mut self.candidates[at]);
        let ghost base = l@;
        let ghost more = key_candidates(key_len as nat, ids@);
        let mut i: usize = 0;
        assert(l@ =~= base + more.take(0));
        while i < ids.len()
            invariant
                i <= ids.len(),
                more == key_candidates(key_len as nat, ids@),
                l@ == base + more.take(i as int),
            decreases ids.len() - i,
        {
            l.push(TopCandidate { key_len, id: ids[i] });
            assert(more.take(i as int + 1) =~= more.take(i as int).push(more[i as int]));
            i = i + 1;
        }
        assert(more.take(i as int) =~= more);
        self.candidates.set(at, l);
        proof {
            assert forall|q: Seq<char>| #[trigger] self.count(q) == was.count(q) + if q == pv {
                1nat
            } else {
                0nat
            } by {
                assert(mid.count(q) == was.count(q));
                if self.slot@.contains_key(q) && q != pv {
                    assert(mid.prefixes@[mid.slot@[q] as int]@ == q);
                    assert(mid.slot@[q] != at);
                }
            }
            assert forall|q: Seq<char>| #[trigger] self.found(q) == if q == pv {
                was.found(q) + more
            } else {
                was.found(q)
            } by {
                assert(mid.found(q) == was.found(q));
                if self.slot@.contains_key(q) && q != pv {
                    assert(mid.prefixes@[mid.slot@[q] as int]@ == q);
                    assert(mid.slot@[q] != at);
                }
            }
        }
    }
}

proof fn lemma_count_bound(keys: Seq<(Seq<char>, Seq<u32>)>, p: Seq<char>)
    ensures
        count_under(keys, p) <= keys.len(),
    decreases keys.len(),
{
    if keys.len() > 0 {
        lemma_count_bound(keys.drop_last(), p);
    }
}

/// Counts one more key for prefixes of `n` characters.
fn count_key(t: &mut Table, key: &str, ids: &Vec<u32>, n: usize, Ghost(a): Ghost<
    Seq<(Seq<char>, Seq<u32>)>,
>, Ghost(b): Ghost<Seq<(Seq<char>, Seq<u32>)>>)
    requires
        n == 1 || n == 2,
        old(t).holds(a, b),
        n == 1 ==> a.len() < usize::MAX,
        n == 2 ==> b.len() < usize::MAX,
    ensures
        final(t).holds(
            if n == 1 {
                a.push((key@, ids@))
            } else {
                a
            },
            if n == 2 {
                b.push((key@, ids@))
            } else {
                b
            },
        ),
{
    let ghost x = (key@, ids@);
    let ghost a2 = if n == 1 {
        a.push(x)
    } else {
        a
    };
    let ghost b2 = if n == 2 {
        b.push(x)
    } else {
        b
    };
    let ghost was = *t;
    assert(a.push(x).drop_last() =~= a);
    assert(b.push(x).drop_last() =~= b);
    match prefix_of(key, n) {
        Some(p) => {
            let ghost pv = p@;
            proof {
                lemma_count_bound(counted(a, b, pv), pv);
                assert(was.count(pv) == count_under(counted(a, b, pv), pv));
            }
            let key_len: usize = key.unicode_len();
            t.add(p, key_len, ids);
            proof {
                assert forall|q: Seq<char>| #[trigger] t.count(q) == count_under(
                    counted(a2, b2, q),
                    q,
                ) by {
                    assert(was.count(q) == count_under(counted(a, b, q), q));
                    if q.len() == n {
                        assert(starts_with(key@, q) <==> q == pv);
                    }
                }
                assert forall|q: Seq<char>| #[trigger] t.found(q) == candidates_under(
                    counted(a2, b2, q),
                    q,
                ) by {
                    assert(was.found(q) == candidates_under(counted(a, b, q), q));
                    if q.len() == n {
                        assert(starts_with(key@, q) <==> q == pv);
                    }
                }
            }
        },
        None => {
            proof {
                assert forall|q: Seq<char>| #[trigger] t.count(q) == count_under(
                    counted(a2, b2, q),
                    q,
                ) by {
                    assert(was.count(q) == count_under(counted(a, b, q), q));
                }
                assert forall|q: Seq<char>| #[trigger] t.found(q) == candidates_under(
                    counted(a2, b2, q),
                    q,
                ) by {
                    assert(was.found(q) == candidates_under(counted(a, b, q), q));
                }
            }
        },
    }
}

/// The prefixes that get a table, by ascending bytes, with everything found under each.
pub fn heavy_prefixes(keys: &Vec<(String, Vec<u32>)>) -> (r: Vec<TopSlot>)
    ensures
        forall|i: int, j: int|
            0 <= i < j < r@.len() ==> text_less((#[trigger] r@[i]).prefix@, (#[trigger] r@[j]).prefix@),
        forall|i: int|
            0 <= i < r@.len() ==> is_heavy(keyed(keys@), (#[trigger] r@[i]).prefix@)
                && r@[i].candidates@ == candidates_under(keyed(keys@), r@[i].prefix@),
        forall|p: Seq<char>| #[trigger]
            is_heavy(keyed(keys@), p) ==> exists|i: int|
                0 <= i < r@.len() && (#[trigger] r@[i]).prefix@ == p,
{
    let mut t = Table {
        slot: StringHashMap::new(),
        prefixes: Vec::new(),
        counts: Vec::new(),
        candidates: Vec::new(),
    };
    let ghost all = keyed(keys@);
    let mut i: usize = 0;
    proof {
        assert(all.take(0) =~= Seq::<(Seq<char>, Seq<u32>)>::empty());
        assert(t.holds(all.take(0), all.take(0)));
    }
    while i < keys.len()
        invariant
            i <= keys.len(),
            all == keyed(keys@),
            t.holds(all.take(i as int), all.take(i as int)),
        decreases keys.len() - i,
    {
        let key = keys[i].0.as_str();
        let ghost a = all.take(i as int);
        let ghost b = all.take(i as int + 1);
        assert(b =~= a.push((keys@[i as int].0@, keys@[i as int].1@)));
        count_key(&mut t, key, &keys[i].1, 1, Ghost(a), Ghost(a));
        count_key(&mut t, key, &keys[i].1, 2, Ghost(b), Ghost(a));
        i = i + 1;
    }
    assert(all.take(i as int) =~= all);
    sort_heavy(t, Ghost(all))
}

/// The places of the heavy prefixes.
fn heavy_places(counts: &Vec<usize>) -> (r: Vec<usize>)
    ensures
        forall|j: int|
            0 <= j < r@.len() ==> (#[trigger] r@[j]) < counts@.len() && counts@[r@[j] as int]
                > TOP_THRESHOLD,
        forall|i: int, j: int| 0 <= i < j < r@.len() ==> (#[trigger] r@[i]) < (#[trigger] r@[j]),
        forall|at: usize|
            at < counts@.len() && counts@[at as int] > TOP_THRESHOLD ==> #[trigger] r@.contains(at),
{
    let mut r: Vec<usize> = Vec::new();
    let mut i: usize = 0;
    while i < counts.len()
        invariant
            i <= counts.len(),
            forall|j: int|
                0 <= j < r@.len() ==> (#[trigger] r@[j]) < i && counts@[r@[j] as int]
                    > TOP_THRESHOLD,
            forall|i: int, j: int|
                0 <= i < j < r@.len() ==> (#[trigger] r@[i]) < (#[trigger] r@[j]),
            forall|at: usize|
                at < i && counts@[at as int] > TOP_THRESHOLD ==> #[trigger] r@.contains(at),
        decreases counts.len() - i,
    {
        let ghost was = r@;
        if counts[i] > TOP_THRESHOLD {
            r.push(i);
            assert forall|at: usize|
                at < i + 1 && counts@[at as int] > TOP_THRESHOLD implies #[trigger] r@.contains(
                at,
            ) by {
                if at < i {
                    assert(was.contains(at));
                    let j = choose|j: int| 0 <= j < was.len() && was[j] == at;
                    assert(r@[j] == at);
                } else {
                    assert(r@[was.len() as int] == at);
                }
            }
        }
        i = i + 1;
    }
    r
}

fn sort_heavy(t: Table, Ghost(all): Ghost<Seq<(Seq<char>, Seq<u32>)>>) -> (r: Vec<TopSlot>)
    requires
        t.holds(all, all),
    ensures
        forall|i: int, j: int|
            0 <= i < j < r@.len() ==> text_less((#[trigger] r@[i]).prefix@, (#[trigger] r@[j]).prefix@),
        forall|i: int|
            0 <= i < r@.len() ==> is_heavy(all, (#[trigger] r@[i]).prefix@)
                && r@[i].candidates@ == candidates_under(all, r@[i].prefix@),
        forall|p: Seq<char>| #[trigger]
            is_heavy(all, p) ==> exists|i: int|
                0 <= i < r@.len() && (#[trigger] r@[i]).prefix@ == p,
{
    let h = heavy_places(&t.counts);
    let mut names: Vec<String> = Vec::new();
    let mut i: usize = 0;
    while i < h.len()
        invariant
            i <= h.len(),
            names.len() == i,
            forall|j: int| 0 <= j < h@.len() ==> (#[trigger] h@[j]) < t.prefixes@.len(),
            forall|j: int| 0 <= j < i ==> (#[trigger] names@[j])@ == t.prefixes@[h@[j] as int]@,
        decreases h.len() - i,
    {
        names.push(t.prefixes[h[i]].clone());
        i = i + 1;
    }
    let o = ByText { v: names };
    let p = sort_indices(&o);
    let mut r: Vec<TopSlot> = Vec::new();
    let mut k: usize = 0;
    while k < p.len()
        invariant
            k <= p.len(),
            r.len() == k,
            o.v@.len() == h@.len(),
            t.candidates@.len() == t.prefixes@.len(),
            forall|j: int| 0 <= j < p@.len() ==> (#[trigger] p@[j]) < h@.len(),
            forall|j: int| 0 <= j < h@.len() ==> (#[trigger] h@[j]) < t.prefixes@.len(),
            forall|j: int|
                0 <= j < k ==> (#[trigger] r@[j]).prefix@ == o.v@[p@[j] as int]@
                    && r@[j].candidates@ == t.candidates@[h@[p@[j] as int] as int]@,
        decreases p.len() - k,
    {
        let at: usize = p[k];
        let x = TopSlot { prefix: o.v[at].clone(), candidates: t.candidates[h[at]].clone() };
        assert(x.candidates@ =~= t.candidates@[h@[at as int] as int]@);
        r.push(x);
        k = k + 1;
    }
    proof {
        assert forall|i: int| 0 <= i < r@.len() implies is_heavy(all, (#[trigger] r@[i]).prefix@)
            && r@[i].candidates@ == candidates_under(all, r@[i].prefix@) by {
            let at = h@[p@[i] as int] as int;
            let q = t.prefixes@[at]@;
            assert(o.v@[p@[i] as int]@ == q);
            assert(t.slot@[q] == at);
            assert(t.count(q) == count_under(counted(all, all, q), q));
            assert(t.found(q) == candidates_under(counted(all, all, q), q));
            assert(t.counts@[at] > TOP_THRESHOLD);
            assert(count_under(Seq::<(Seq<char>, Seq<u32>)>::empty(), q) == 0);
        }
        assert forall|i: int, j: int| 0 <= i < j < r@.len() implies text_less(
            (#[trigger] r@[i]).prefix@,
            (#[trigger] r@[j]).prefix@,
        ) by {
            let a = h@[p@[i] as int] as int;
            let b = h@[p@[j] as int] as int;
            assert(o.before(p@[i] as int, p@[j] as int));
            if t.prefixes@[a]@ == t.prefixes@[b]@ {
                assert(t.slot@[t.prefixes@[a]@] == a);
                assert(t.slot@[t.prefixes@[b]@] == b);
                if p@[i] < p@[j] {
                    assert(h@[p@[i] as int] < h@[p@[j] as int]);
                }
                o.lemma_irreflexive(p@[i] as int);
            }
        }
        assert forall|q: Seq<char>| #[trigger] is_heavy(all, q) implies exists|i: int|
            0 <= i < r@.len() && (#[trigger] r@[i]).prefix@ == q by {
            assert(t.count(q) == count_under(counted(all, all, q), q));
            assert(t.slot@.contains_key(q));
            let at = t.slot@[q];
            assert(h@.contains(at));
            let j = choose|j: int| 0 <= j < h@.len() && h@[j] == at;
            lemma_arranged_complete(&o, p@, j);
            let m = choose|m: int| 0 <= m < p@.len() && #[trigger] p@[m] == j;
            assert(r@[m].prefix@ == q);
        }
    }
    r
}

// ───────────────────────── choosing the best ─────────────────────────

/// Keys that sort by falling score.
pub open spec fn falling_scores(s: Seq<Single>) -> Seq<i128> {
    Seq::new(s.len(), |i: int| (-s[i].order()) as i128)
}

/// Some candidate has this id.
pub open spec fn lists_id(c: Seq<TopCandidate>, id: u32) -> bool
    decreases c.len(),
{
    c.len() > 0 && (c.last().id == id || lists_id(c.drop_last(), id))
}

/// The first candidate of each id.
pub open spec fn first_of_each(c: Seq<TopCandidate>) -> Seq<TopCandidate>
    decreases c.len(),
{
    if c.len() == 0 {
        Seq::empty()
    } else if lists_id(c.drop_last(), c.last().id) {
        first_of_each(c.drop_last())
    } else {
        first_of_each(c.drop_last()).push(c.last())
    }
}

/// The best candidates by falling score, equal ones as they came, each id once.
pub open spec fn best_candidates(c: Seq<TopCandidate>, s: Seq<Single>) -> Seq<TopCandidate> {
    at_most(first_of_each(permuted(c, stable_perm(falling_scores(s)))), TOP_N as int)
}

/// Candidates as a table stores them.
pub open spec fn packed(c: Seq<TopCandidate>) -> Seq<u32> {
    Seq::new(c.len(), |i: int| packed_top(c[i].key_len as nat, c[i].id))
}

fn score_order(p: Single) -> (r: i128)
    ensures
        r == p.order(),
{
    if p.bits < 0x8000_0000 {
        p.bits as i128
    } else {
        0 - ((p.bits - 0x8000_0000) as i128)
    }
}

/// The list that a table stores for scored candidates.
pub fn choose_top(c: &Vec<TopCandidate>, s: &Vec<Single>) -> (r: Vec<u32>)
    requires
        c.len() == s.len(),
        forall|i: int| 0 <= i < s.len() ==> !(#[trigger] s@[i]).is_nan_spec(),
        forall|i: int| 0 <= i < c.len() ==> (#[trigger] c@[i]).id < 0x100_0000,
    ensures
        r@ == packed(best_candidates(c@, s@)),
{
    broadcast use group_hash_axioms;

    let mut keys: Vec<i128> = Vec::new();
    let mut i: usize = 0;
    while i < s.len()
        invariant
            i <= s.len(),
            keys.len() == i,
            forall|j: int| 0 <= j < i ==> #[trigger] keys@[j] == falling_scores(s@)[j],
        decreases s.len() - i,
    {
        let k: i128 = 0 - score_order(s[i]);
        keys.push(k);
        i = i + 1;
    }
    assert(keys@ =~= falling_scores(s@));
    let p = stable_sort(keys);
    let ghost t = permuted(c@, p@);
    let mut seen: IdSet = IdSet::new();
    let mut r: Vec<u32> = Vec::new();
    let mut k: usize = 0;
    assert(t.take(0) =~= Seq::<TopCandidate>::empty());
    assert(r@ =~= packed(at_most(first_of_each(t.take(0)), TOP_N as int)));
    while k < p.len()
        invariant
            k <= p.len(),
            t == permuted(c@, p@),
            forall|j: int| 0 <= j < p@.len() ==> (#[trigger] p@[j]) < c.len(),
            forall|i: int| 0 <= i < c.len() ==> (#[trigger] c@[i]).id < 0x100_0000,
            forall|id: u32| #[trigger] seen@.contains(id) <==> lists_id(t.take(k as int), id),
            r@ == packed(at_most(first_of_each(t.take(k as int)), TOP_N as int)),
        decreases p.len() - k,
    {
        let x = c[p[k]];
        let ghost f = first_of_each(t.take(k as int));
        proof {
            assert(t.take(k as int + 1).drop_last() =~= t.take(k as int));
            assert(t.take(k as int + 1).last() == x);
        }
        let fresh: bool = seen.insert(x.id);
        if fresh {
            if r.len() < TOP_N {
                r.push(pack_top(x.key_len, x.id));
                assert(r@ =~= packed(at_most(f.push(x), TOP_N as int)));
            } else {
                assert(at_most(f.push(x), TOP_N as int) =~= at_most(f, TOP_N as int));
            }
        }
        k = k + 1;
    }
    assert(t.take(k as int) =~= t);
    r
}

proof fn lemma_first_of_each(c: Seq<TopCandidate>)
    ensures
        forall|id: u32| #[trigger] lists_id(first_of_each(c), id) <==> lists_id(c, id),
        forall|i: int, j: int|
            0 <= i < j < first_of_each(c).len() ==> (#[trigger] first_of_each(c)[i]).id != (
            #[trigger] first_of_each(c)[j]).id,
    decreases c.len(),
{
    if c.len() > 0 {
        lemma_first_of_each(c.drop_last());
        let a = first_of_each(c.drop_last());
        let b = first_of_each(c);
        if !lists_id(c.drop_last(), c.last().id) {
            assert(b.drop_last() =~= a);
            assert forall|id: u32| #[trigger] lists_id(b, id) <==> lists_id(c, id) by {
                assert(lists_id(a, id) <==> lists_id(c.drop_last(), id));
            }
            assert forall|i: int, j: int| 0 <= i < j < b.len() implies (#[trigger] b[i]).id != (
            #[trigger] b[j]).id by {
                if j == a.len() {
                    lemma_lists(a, i);
                } else {
                    assert(a[i].id != a[j].id);
                }
            }
        } else {
            assert forall|id: u32| #[trigger] lists_id(b, id) <==> lists_id(c, id) by {
                assert(lists_id(a, id) <==> lists_id(c.drop_last(), id));
            }
        }
    }
}

proof fn lemma_lists(c: Seq<TopCandidate>, i: int)
    requires
        0 <= i < c.len(),
    ensures
        lists_id(c, c[i].id),
    decreases c.len(),
{
    if i < c.len() - 1 {
        lemma_lists(c.drop_last(), i);
    }
}

/// A table lists at most its depth, and no entry twice.
pub proof fn law_top_lists_an_entry_once(c: Seq<TopCandidate>, s: Seq<Single>, i: int, j: int)
    requires
        0 <= i < j < best_candidates(c, s).len(),
    ensures
        best_candidates(c, s).len() <= TOP_N,
        best_candidates(c, s)[i].id != best_candidates(c, s)[j].id,
{
    let t = permuted(c, stable_perm(falling_scores(s)));
    lemma_first_of_each(t);
    assert(first_of_each(t)[i].id != first_of_each(t)[j].id);
}

} // verus!
