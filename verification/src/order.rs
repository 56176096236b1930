//! Sorting by a strict total order on positions.
//!
//! Every ordered list of the dictionary is described the same way: a strict
//! total order on the positions of a table, and the one arrangement of those
//! positions that follows it. Breaking ties by position makes a sort stable.
use vstd::prelude::*;
use vstd::set_lib::*;

verus! {

/// A strict total order on the positions `0..upto()` of some table.
pub trait IndexOrder {
    /// What has to hold of the table for the order to be strict and total.
    spec fn wf(&self) -> bool;

    spec fn upto(&self) -> nat;

    /// Position `a` comes strictly before position `b`.
    spec fn before(&self, a: int, b: int) -> bool;

    proof fn lemma_irreflexive(&self, a: int)
        requires
            self.wf(),
            0 <= a < self.upto(),
        ensures
            !self.before(a, a),
    ;

    proof fn lemma_transitive(&self, a: int, b: int, c: int)
        requires
            self.wf(),
            0 <= a < self.upto(),
            0 <= b < self.upto(),
            0 <= c < self.upto(),
            self.before(a, b),
            self.before(b, c),
        ensures
            self.before(a, c),
    ;

    proof fn lemma_total(&self, a: int, b: int)
        requires
            self.wf(),
            0 <= a < self.upto(),
            0 <= b < self.upto(),
            a != b,
        ensures
            self.before(a, b) || self.before(b, a),
    ;

    fn size(&self) -> (n: usize)
        requires
            self.wf(),
        ensures
            n == self.upto(),
    ;

    fn test(&self, a: usize, b: usize) -> (r: bool)
        requires
            self.wf(),
            a < self.upto(),
            b < self.upto(),
        ensures
            r == self.before(a as int, b as int),
    ;
}

/// `p` lists positions of `lo..hi`, each strictly before the next ones.
pub open spec fn ascending<O: IndexOrder>(o: &O, p: Seq<usize>, lo: int, hi: int) -> bool {
    &&& forall|i: int| 0 <= i < p.len() ==> lo <= #[trigger] p[i] < hi
    &&& forall|i: int, j: int|
        0 <= i < j < p.len() ==> o.before(#[trigger] p[i] as int, #[trigger] p[j] as int)
}

/// `p` is the arrangement of all positions of `o` that follows the order.
pub open spec fn arranged<O: IndexOrder>(o: &O, p: Seq<usize>) -> bool {
    &&& p.len() == o.upto()
    &&& ascending(o, p, 0, o.upto() as int)
}

/// An ascending list never repeats a position.
pub proof fn lemma_ascending_distinct<O: IndexOrder>(o: &O, p: Seq<usize>, lo: int, hi: int)
    requires
        o.wf(),
        0 <= lo <= hi <= o.upto(),
        ascending(o, p, lo, hi),
    ensures
        p.no_duplicates(),
{
    assert forall|i: int, j: int| 0 <= i < p.len() && 0 <= j < p.len() && i != j implies p[i]
        != p[j] by {
        if p[i] == p[j] {
            if i < j {
                o.lemma_irreflexive(p[i] as int);
            } else {
                o.lemma_irreflexive(p[j] as int);
            }
        }
    }
}

/// An arrangement holds every position.
pub proof fn lemma_arranged_complete<O: IndexOrder>(o: &O, p: Seq<usize>, k: int)
    requires
        o.wf(),
        arranged(o, p),
        0 <= k < o.upto(),
    ensures
        exists|i: int| 0 <= i < p.len() && #[trigger] p[i] == k,
{
    lemma_ascending_distinct(o, p, 0, o.upto() as int);
    let q = p.map_values(|x: usize| x as int);
    assert(q.no_duplicates());
    q.unique_seq_to_set();
    lemma_int_range(0, o.upto() as int);
    let all = set_int_range(0, o.upto() as int);
    assert(q.to_set().subset_of(all)) by {
        assert forall|x: int| q.to_set().contains(x) implies all.contains(x) by {
            let i = choose|i: int| 0 <= i < q.len() && q[i] == x;
            assert(p[i] == x);
        }
    }
    lemma_subset_equality(q.to_set(), all);
    assert(q.to_set().contains(k));
    let i = choose|i: int| 0 <= i < q.len() && q[i] == k;
    assert(p[i] == k);
}

/// Two arrangements of one order are the same list.
pub proof fn lemma_arranged_unique<O: IndexOrder>(o: &O, p: Seq<usize>, q: Seq<usize>)
    requires
        o.wf(),
        arranged(o, p),
        arranged(o, q),
    ensures
        p == q,
{
    lemma_ascending_distinct(o, p, 0, o.upto() as int);
    lemma_ascending_distinct(o, q, 0, o.upto() as int);
    assert forall|k: nat| k <= p.len() implies p.take(k as int) =~= q.take(k as int) by {
        lemma_arranged_prefix(o, p, q, k);
    }
    assert(p.take(p.len() as int) =~= p);
    assert(q.take(p.len() as int) =~= q);
}

proof fn lemma_arranged_prefix<O: IndexOrder>(o: &O, p: Seq<usize>, q: Seq<usize>, k: nat)
    requires
        o.wf(),
        arranged(o, p),
        arranged(o, q),
        p.no_duplicates(),
        q.no_duplicates(),
        k <= p.len(),
    ensures
        p.take(k as int) == q.take(k as int),
    decreases k,
{
    if k > 0 {
        let m = (k - 1) as int;
        lemma_arranged_prefix(o, p, q, (k - 1) as nat);
        assert forall|i: int| 0 <= i < m implies p[i] == q[i] by {
            assert(p.take(m)[i] == q.take(m)[i]);
        }
        if p[m] != q[m] {
            lemma_arranged_complete(o, q, p[m] as int);
            let i = choose|i: int| 0 <= i < q.len() && q[i] == p[m];
            lemma_arranged_complete(o, p, q[m] as int);
            let j = choose|j: int| 0 <= j < p.len() && p[j] == q[m];
            assert(i > m);
            assert(j > m);
            assert(o.before(q[m] as int, q[i] as int));
            assert(o.before(p[m] as int, p[j] as int));
            o.lemma_transitive(p[m] as int, q[m] as int, p[m] as int);
            o.lemma_irreflexive(p[m] as int);
        }
        assert(p.take(k as int) =~= q.take(k as int));
    }
}

fn merge<O: IndexOrder>(o: &O, a: &Vec<usize>, b: &Vec<usize>, lo: usize, mid: usize, hi: usize) -> (r:
    Vec<usize>)
    requires
        o.wf(),
        lo <= mid <= hi <= o.upto(),
        a.len() == mid - lo,
        b.len() == hi - mid,
        ascending(o, a@, lo as int, mid as int),
        ascending(o, b@, mid as int, hi as int),
    ensures
        r.len() == hi - lo,
        ascending(o, r@, lo as int, hi as int),
{
    let mut r: Vec<usize> = Vec::new();
    let mut i: usize = 0;
    let mut j: usize = 0;
    while i < a.len() || j < b.len()
        invariant
            o.wf(),
            lo <= mid <= hi <= o.upto(),
            a.len() == mid - lo,
            b.len() == hi - mid,
            ascending(o, a@, lo as int, mid as int),
            ascending(o, b@, mid as int, hi as int),
            i <= a.len(),
            j <= b.len(),
            r.len() == i + j,
            ascending(o, r@, lo as int, hi as int),
            forall|k: int, m: int|
                0 <= k < r.len() && i <= m < a.len() ==> o.before(
                    #[trigger] r[k] as int,
                    #[trigger] a[m] as int,
                ),
            forall|k: int, m: int|
                0 <= k < r.len() && j <= m < b.len() ==> o.before(
                    #[trigger] r[k] as int,
                    #[trigger] b[m] as int,
                ),
        decreases a.len() - i + b.len() - j,
    {
        let left: bool = if i == a.len() {
            false
        } else if j == b.len() {
            true
        } else {
            o.test(a[i], b[j])
        };
        if left {
            proof {
                if j < b.len() {
                    assert forall|m: int| j <= m < b.len() implies o.before(
                        a[i as int] as int,
                        #[trigger] b[m] as int,
                    ) by {
                        if m > j {
                            o.lemma_transitive(a[i as int] as int, b[j as int] as int, b[m] as int);
                        }
                    }
                }
            }
            r.push(a[i]);
            i = i + 1;
        } else {
            proof {
                if i < a.len() {
                    o.lemma_total(a[i as int] as int, b[j as int] as int);
                    assert forall|m: int| i <= m < a.len() implies o.before(
                        b[j as int] as int,
                        #[trigger] a[m] as int,
                    ) by {
                        if m > i {
                            o.lemma_transitive(b[j as int] as int, a[i as int] as int, a[m] as int);
                        }
                    }
                }
            }
            r.push(b[j]);
            j = j + 1;
        }
    }
    r
}

fn sort_range<O: IndexOrder>(o: &O, lo: usize, hi: usize) -> (r: Vec<usize>)
    requires
        o.wf(),
        lo <= hi <= o.upto(),
    ensures
        r.len() == hi - lo,
        ascending(o, r@, lo as int, hi as int),
    decreases hi - lo,
{
    if hi - lo <= 1 {
        let mut r: Vec<usize> = Vec::new();
        if lo < hi {
            r.push(lo);
        }
        r
    } else {
        let mid: usize = lo + (hi - lo) / 2;
        let a = sort_range(o, lo, mid);
        let b = sort_range(o, mid, hi);
        merge(o, &a, &b, lo, mid, hi)
    }
}

/// The positions of the table in the order that `o` gives them.
pub fn sort_indices<O: IndexOrder>(o: &O) -> (p: Vec<usize>)
    requires
        o.wf(),
    ensures
        arranged(o, p@),
{
    let n: usize = o.size();
    sort_range(o, 0, n)
}

// ───────────────────────── stable sorting by a number ─────────────────────────

/// `p` lists all positions by rising key, equal keys by position.
pub open spec fn stable_order(keys: Seq<i128>, p: Seq<usize>) -> bool {
    &&& p.len() == keys.len()
    &&& forall|i: int| 0 <= i < p.len() ==> 0 <= #[trigger] p[i] < keys.len()
    &&& forall|i: int, j: int|
        0 <= i < j < p.len() ==> keys[#[trigger] p[i] as int] < keys[#[trigger] p[j] as int] || (
        keys[p[i] as int] == keys[p[j] as int] && p[i] < p[j])
}

/// The positions by rising key, equal keys by position.
pub open spec fn stable_perm(keys: Seq<i128>) -> Seq<usize> {
    choose|p: Seq<usize>| stable_order(keys, p)
}

/// How many of the positions listed have a key up to `x`; in a stable order they come first.
proof fn lemma_place_after(keys: Seq<i128>, p: Seq<usize>, x: i128) -> (k: int)
    requires
        stable_order(keys, p),
    ensures
        0 <= k <= p.len(),
        forall|i: int| 0 <= i < k ==> keys[#[trigger] p[i] as int] <= x,
        forall|i: int| k <= i < p.len() ==> keys[#[trigger] p[i] as int] > x,
{
    lemma_place_within(keys, p, x, p.len() as int)
}

proof fn lemma_place_within(keys: Seq<i128>, p: Seq<usize>, x: i128, n: int) -> (k: int)
    requires
        stable_order(keys, p),
        0 <= n <= p.len(),
    ensures
        0 <= k <= n,
        forall|i: int| 0 <= i < k ==> keys[#[trigger] p[i] as int] <= x,
        forall|i: int| k <= i < n ==> keys[#[trigger] p[i] as int] > x,
    decreases n,
{
    if n == 0 {
        0
    } else if keys[p[n - 1] as int] <= x {
        assert forall|i: int| 0 <= i < n implies keys[#[trigger] p[i] as int] <= x by {
            if i < n - 1 {
                assert(keys[p[i] as int] <= keys[p[n - 1] as int]);
            }
        }
        n
    } else {
        lemma_place_within(keys, p, x, n - 1)
    }
}

proof fn lemma_stable_order_exists(keys: Seq<i128>) -> (p: Seq<usize>)
    requires
        keys.len() <= usize::MAX,
    ensures
        stable_order(keys, p),
    decreases keys.len(),
{
    if keys.len() == 0 {
        Seq::empty()
    } else {
        let n = keys.len() - 1;
        let short = keys.drop_last();
        let a = lemma_stable_order_exists(short);
        let x = keys[n];
        let k = lemma_place_after(short, a, x);
        let p = a.insert(k, n as usize);
        assert forall|i: int| 0 <= i < a.len() implies short[#[trigger] a[i] as int]
            == keys[a[i] as int] && a[i] < n by {}
        assert forall|i: int| 0 <= i < p.len() implies 0 <= #[trigger] p[i] < keys.len() by {
            if i < k {
                assert(p[i] == a[i]);
            } else if i > k {
                assert(p[i] == a[i - 1]);
            }
        }
        assert forall|i: int, j: int| 0 <= i < j < p.len() implies keys[#[trigger] p[i] as int]
            < keys[#[trigger] p[j] as int] || (keys[p[i] as int] == keys[p[j] as int] && p[i]
            < p[j]) by {
            let u = if i < k {
                i
            } else {
                i - 1
            };
            let w = if j < k {
                j
            } else {
                j - 1
            };
            if i == k {
                assert(p[j] == a[w]);
                assert(short[a[w] as int] > x);
            } else if j == k {
                assert(p[i] == a[u]);
                assert(short[a[u] as int] <= x);
            } else {
                assert(p[i] == a[u] && p[j] == a[w]);
                assert(short[a[u] as int] < short[a[w] as int] || (short[a[u] as int]
                    == short[a[w] as int] && a[u] < a[w]));
            }
        }
        p
    }
}

/// Whatever the keys, there is a stable order of them, and `stable_perm` is it.
pub proof fn law_keys_can_be_ordered(keys: Seq<i128>)
    requires
        keys.len() <= usize::MAX,
    ensures
        stable_order(keys, stable_perm(keys)),
{
    let p = lemma_stable_order_exists(keys);
}

/// The items in the order that `p` lists their positions.
pub open spec fn permuted<T>(s: Seq<T>, p: Seq<usize>) -> Seq<T> {
    Seq::new(p.len(), |i: int| s[p[i] as int])
}

/// Positions by a number.
pub struct ByKey {
    pub keys: Vec<i128>,
}

impl IndexOrder for ByKey {
    open spec fn wf(&self) -> bool {
        true
    }

    open spec fn upto(&self) -> nat {
        self.keys@.len()
    }

    open spec fn before(&self, a: int, b: int) -> bool {
        self.keys@[a] < self.keys@[b] || (self.keys@[a] == self.keys@[b] && a < b)
    }

    proof fn lemma_irreflexive(&self, a: int) {
    }

    proof fn lemma_transitive(&self, a: int, b: int, c: int) {
    }

    proof fn lemma_total(&self, a: int, b: int) {
    }

    fn size(&self) -> (n: usize) {
        self.keys.len()
    }

    fn test(&self, a: usize, b: usize) -> (r: bool) {
        self.keys[a] < self.keys[b] || (self.keys[a] == self.keys[b] && a < b)
    }
}

/// The positions by rising key, equal keys by position.
pub fn stable_sort(keys: Vec<i128>) -> (p: Vec<usize>)
    ensures
        stable_order(keys@, p@),
        p@ == stable_perm(keys@),
        forall|k: usize| k < keys@.len() ==> #[trigger] p@.contains(k),
{
    let o = ByKey { keys };
    let p = sort_indices(&o);
    proof {
        assert(stable_order(keys@, p@)) by {
            assert forall|i: int, j: int| 0 <= i < j < p@.len() implies keys@[#[trigger] p@[i] as int]
                < keys@[#[trigger] p@[j] as int] || (keys@[p@[i] as int] == keys@[p@[j] as int]
                && p@[i] < p@[j]) by {
                assert(o.before(p@[i] as int, p@[j] as int));
            }
        }
        let q = stable_perm(keys@);
        assert(stable_order(keys@, q));
        assert(arranged(&o, q)) by {
            assert forall|i: int, j: int| 0 <= i < j < q.len() implies o.before(
                #[trigger] q[i] as int,
                #[trigger] q[j] as int,
            ) by {
                assert(keys@[q[i] as int] <= keys@[q[j] as int]);
            }
        }
        lemma_arranged_unique(&o, p@, q);
        assert forall|k: usize| k < keys@.len() implies #[trigger] p@.contains(k) by {
            lemma_arranged_complete(&o, p@, k as int);
        }
    }
    p
}

/// A stable order lists every position.
pub proof fn lemma_perm_reaches(keys: Seq<i128>, p: Seq<usize>, k: int) -> (z: int)
    requires
        stable_order(keys, p),
        0 <= k < keys.len(),
    ensures
        0 <= z < p.len(),
        p[z] == k,
{
    let s = Seq::new(p.len(), |i: int| p[i] as int);
    assert forall|i: int, j: int| 0 <= i < j < s.len() implies s[i] != s[j] by {
        assert(keys[p[i] as int] < keys[p[j] as int] || p[i] < p[j]);
    }
    assert(s.no_duplicates());
    s.unique_seq_to_set();
    let all = vstd::set_lib::set_int_range(0, keys.len() as int);
    vstd::set_lib::lemma_int_range(0, keys.len() as int);
    assert forall|x: int| s.to_set().contains(x) implies all.contains(x) by {
        let i = choose|i: int| 0 <= i < s.len() && s[i] == x;
        assert(0 <= p[i] < keys.len());
    }
    assert(s.to_set().subset_of(all));
    vstd::set_lib::lemma_subset_equality(s.to_set(), all);
    assert(all.contains(k));
    assert(s.to_set().contains(k));
    let z = choose|z: int| 0 <= z < s.len() && s[z] == k;
    z
}

} // verus!
