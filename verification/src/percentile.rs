//! Raw frequencies to ranks within their own corpus.
//!
//! A percentile is a rank spread over 0.10 to 1.00; an unknown frequency lies below all of
//! them. The ranks are made here, the arithmetic is the caller's.
use crate::order::{
    arranged, lemma_arranged_complete, lemma_ascending_distinct, sort_indices, IndexOrder,
};
use crate::single::Double;
use vstd::prelude::*;
use vstd::slice::*;

verus! {

/// Word `a` is more common than word `b`. `bigger` says that a bigger number is more common
/// (a count) and not less (a rank). Known frequencies come before unknown ones, and equal
/// ones keep their order.
pub open spec fn commoner(f: Seq<Option<Double>>, bigger: bool, a: int, b: int) -> bool {
    match (f[a], f[b]) {
        (Some(x), Some(y)) => {
            let (hi, lo) = if bigger {
                (x.order(), y.order())
            } else {
                (y.order(), x.order())
            };
            hi > lo || (hi == lo && a < b)
        },
        (Some(_), None) => true,
        (None, Some(_)) => false,
        (None, None) => a < b,
    }
}

/// None of the frequencies is NaN.
pub open spec fn no_nan(f: Seq<Option<Double>>) -> bool {
    forall|i: int| 0 <= i < f.len() ==> (#[trigger] f[i] matches Some(x) ==> !x.is_nan_spec())
}

/// How many frequencies are known.
pub open spec fn known_count(f: Seq<Option<Double>>) -> nat
    decreases f.len(),
{
    if f.len() == 0 {
        0
    } else {
        known_count(f.drop_last()) + if f.last() is Some {
            1nat
        } else {
            0nat
        }
    }
}

/// The ranks of the known frequencies: 0 for the most common, and so on without a gap.
pub open spec fn are_ranks(f: Seq<Option<Double>>, bigger: bool, r: Seq<Option<usize>>) -> bool {
    &&& r.len() == f.len()
    &&& forall|i: int| 0 <= i < f.len() ==> ((#[trigger] r[i]) is Some <==> f[i] is Some)
    &&& forall|i: int, j: int|
        0 <= i < f.len() && 0 <= j < f.len() && f[i] is Some && f[j] is Some ==> ((
        #[trigger] r[i])->0 < (#[trigger] r[j])->0 <==> commoner(f, bigger, i, j))
    &&& forall|i: int, k: usize|
        0 <= i < f.len() && (#[trigger] r[i]) is Some && k < r[i]->0 ==> #[trigger] r.contains(Some(k))
}

/// Positions from the most common to the least.
pub struct ByCommonness {
    pub f: Vec<Option<Double>>,
    pub bigger: bool,
}

impl IndexOrder for ByCommonness {
    open spec fn wf(&self) -> bool {
        no_nan(self.f@)
    }

    open spec fn upto(&self) -> nat {
        self.f@.len()
    }

    open spec fn before(&self, a: int, b: int) -> bool {
        commoner(self.f@, self.bigger, a, b)
    }

    proof fn lemma_irreflexive(&self, a: int) {
    }

    proof fn lemma_transitive(&self, a: int, b: int, c: int) {
    }

    proof fn lemma_total(&self, a: int, b: int) {
    }

    fn size(&self) -> (n: usize) {
        self.f.len()
    }

    fn test(&self, a: usize, b: usize) -> (r: bool) {
        assert(self.f@[a as int] matches Some(x) ==> !x.is_nan_spec());
        assert(self.f@[b as int] matches Some(x) ==> !x.is_nan_spec());
        match (self.f[a], self.f[b]) {
            (Some(x), Some(y)) => {
                let (hi, lo) = if self.bigger {
                    (x, y)
                } else {
                    (y, x)
                };
                if lo.less(hi) {
                    true
                } else if hi.less(lo) {
                    false
                } else {
                    a < b
                }
            },
            (Some(_), None) => true,
            (None, Some(_)) => false,
            (None, None) => a < b,
        }
    }
}

/// How many frequencies are known: what the ranks are spread over.
pub fn known(f: &Vec<Option<Double>>) -> (r: usize)
    ensures
        r == known_count(f@),
{
    let mut r: usize = 0;
    let mut i: usize = 0;
    assert(f@.take(0) =~= Seq::<Option<Double>>::empty());
    while i < f.len()
        invariant
            i <= f.len(),
            r <= i,
            r == known_count(f@.take(i as int)),
        decreases f.len() - i,
    {
        assert(f@.take(i as int + 1).drop_last() =~= f@.take(i as int));
        if f[i].is_some() {
            r = r + 1;
        }
        i = i + 1;
    }
    assert(f@.take(i as int) =~= f@);
    r
}

/// The rank of each known frequency, from the most common on.
pub fn percentile_ranks(f: Vec<Option<Double>>, bigger_is_more_common: bool) -> (r: Vec<
    Option<usize>,
>)
    requires
        no_nan(f@),
    ensures
        are_ranks(f@, bigger_is_more_common, r@),
{
    let n: usize = f.len();
    let o = ByCommonness { f, bigger: bigger_is_more_common };
    let p = sort_indices(&o);
    let mut r: Vec<Option<usize>> = Vec::new();
    let mut i: usize = 0;
    while i < n
        invariant
            i <= n,
            r.len() == i,
            forall|j: int| 0 <= j < i ==> (#[trigger] r@[j]) is None,
        decreases n - i,
    {
        r.push(None);
        i = i + 1;
    }
    proof {
        lemma_ascending_distinct(&o, p@, 0, n as int);
    }
    let mut k: usize = 0;
    while k < n
        invariant
            n == o.f@.len(),
            p@.len() == n,
            r.len() == n,
            k <= n,
            p@.no_duplicates(),
            forall|m: int| 0 <= m < n ==> 0 <= #[trigger] p@[m] < n,
            forall|m: int|
                0 <= m < k ==> r@[#[trigger] p@[m] as int] == if o.f@[p@[m] as int] is Some {
                    Some(m as usize)
                } else {
                    None
                },
            forall|m: int| k <= m < n ==> r@[#[trigger] p@[m] as int] is None,
        decreases n - k,
    {
        let at: usize = p[k];
        if o.f[at].is_some() {
            r.set(at, Some(k));
        }
        k = k + 1;
    }
    proof {
        lemma_ranks(&o, p@, r@);
    }
    r
}

proof fn lemma_ranks(o: &ByCommonness, p: Seq<usize>, r: Seq<Option<usize>>)
    requires
        o.wf(),
        arranged(o, p),
        p.len() <= usize::MAX,
        r.len() == o.f@.len(),
        forall|m: int|
            0 <= m < p.len() ==> r[#[trigger] p[m] as int] == if o.f@[p[m] as int] is Some {
                Some(m as usize)
            } else {
                None
            },
    ensures
        are_ranks(o.f@, o.bigger, r),
{
    let f = o.f@;
    assert forall|i: int| 0 <= i < f.len() implies ((#[trigger] r[i]) is Some <==> f[i]
        is Some) by {
        lemma_arranged_complete(o, p, i);
        let m = choose|m: int| 0 <= m < p.len() && #[trigger] p[m] == i;
        assert(r[p[m] as int] is Some <==> f[p[m] as int] is Some);
    }
    assert forall|i: int, j: int|
        0 <= i < f.len() && 0 <= j < f.len() && f[i] is Some && f[j] is Some implies ((
    #[trigger] r[i])->0 < (#[trigger] r[j])->0 <==> commoner(f, o.bigger, i, j)) by {
        lemma_arranged_complete(o, p, i);
        let m = choose|m: int| 0 <= m < p.len() && #[trigger] p[m] == i;
        lemma_arranged_complete(o, p, j);
        let q = choose|m: int| 0 <= m < p.len() && #[trigger] p[m] == j;
        assert(r[p[m] as int] == Some(m as usize));
        assert(r[p[q] as int] == Some(q as usize));
        if m < q {
            assert(o.before(p[m] as int, p[q] as int));
        } else if q < m {
            assert(o.before(p[q] as int, p[m] as int));
            if o.before(i, j) {
                o.lemma_transitive(i, j, i);
                o.lemma_irreflexive(i);
            }
        } else {
            o.lemma_irreflexive(i);
        }
    }
    assert forall|i: int, k: usize|
        0 <= i < f.len() && (#[trigger] r[i]) is Some && k < r[i]->0 implies #[trigger] r.contains(
        Some(k),
    ) by {
        lemma_arranged_complete(o, p, i);
        let m = choose|m: int| 0 <= m < p.len() && #[trigger] p[m] == i;
        assert(r[p[m] as int] == Some(m as usize));
        assert(o.before(p[k as int] as int, p[m] as int));
        assert(f[p[k as int] as int] is Some);
        assert(r[p[k as int] as int] == Some(k));
    }
}

/// Different known positions are no more than there are known frequencies.
proof fn lemma_known_count(f: Seq<Option<Double>>, q: Seq<int>)
    requires
        q.no_duplicates(),
        forall|k: int| 0 <= k < q.len() ==> 0 <= #[trigger] q[k] < f.len() && f[q[k]] is Some,
    ensures
        q.len() <= known_count(f),
    decreases f.len(),
{
    if f.len() > 0 {
        let g = f.drop_last();
        let z = f.len() - 1;
        if q.contains(z) {
            let at = choose|k: int| 0 <= k < q.len() && q[k] == z;
            let r = q.remove(at);
            assert forall|k: int| 0 <= k < r.len() implies 0 <= #[trigger] r[k] < g.len()
                && g[r[k]] is Some by {
                let m = if k < at {
                    k
                } else {
                    k + 1
                };
                assert(r[k] == q[m]);
                assert(q[m] != q[at]);
            }
            lemma_known_count(g, r);
        } else {
            assert forall|k: int| 0 <= k < q.len() implies 0 <= #[trigger] q[k] < g.len()
                && g[q[k]] is Some by {
                assert(q.contains(q[k]));
            }
            lemma_known_count(g, q);
        }
    } else if q.len() > 0 {
        assert(0 <= q[0] < f.len());
    }
}

/// Ranks are spread over the known frequencies alone: each lies below their number, so that
/// the last one gives the least percentile and none falls below it. Of two known words the
/// more common one has the smaller rank, and an unknown one has none.
pub proof fn law_ranks_stay_among_the_known(
    f: Seq<Option<Double>>,
    bigger: bool,
    r: Seq<Option<usize>>,
    i: int,
)
    requires
        are_ranks(f, bigger, r),
        0 <= i < f.len(),
    ensures
        r[i] is Some <==> f[i] is Some,
        r[i] matches Some(k) ==> k < known_count(f),
        forall|j: int|
            0 <= j < f.len() && f[i] is Some && f[j] is Some && commoner(f, bigger, i, j)
                ==> r[i]->0 < (#[trigger] r[j])->0,
{
    if let Some(k) = r[i] {
        let q = Seq::new(
            (k + 1) as nat,
            |m: int| choose|p: int| 0 <= p < r.len() && r[p] == Some(m as usize),
        );
        assert forall|m: int| 0 <= m < q.len() implies 0 <= #[trigger] q[m] < r.len() && r[q[m]]
            == Some(m as usize) by {
            if m < k {
                assert(r.contains(Some(m as usize)));
            } else {
                assert(r[i] == Some(m as usize));
            }
            assert(exists|p: int| 0 <= p < r.len() && r[p] == Some(m as usize));
        }
        assert forall|m: int, n: int| 0 <= m < q.len() && 0 <= n < q.len() && m != n implies q[m]
            != q[n] by {
            assert(r[q[m]] == Some(m as usize));
            assert(r[q[n]] == Some(n as usize));
        }
        assert forall|m: int| 0 <= m < q.len() implies 0 <= #[trigger] q[m] < f.len() && f[q[m]]
            is Some by {
            assert(r[q[m]] is Some);
        }
        lemma_known_count(f, q);
    }
}

} // verus!
