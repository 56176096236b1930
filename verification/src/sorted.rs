//! Lists sorted with every value once.
use crate::bytes::{
    bytes_less, lemma_bytes_irreflexive, lemma_bytes_total, lemma_bytes_transitive, less_bytes,
    same_bytes,
};
use crate::order::{arranged, lemma_arranged_complete, sort_indices, IndexOrder};
use crate::text::texts;
use vstd::prelude::*;
use vstd::string::*;
use vstd::utf8::*;

verus! {

/// `r` holds the values of `s`, each once, in strict order.
pub open spec fn is_sorted_set<T>(less: spec_fn(T, T) -> bool, r: Seq<T>, s: Seq<T>) -> bool {
    &&& forall|i: int, j: int| 0 <= i < j < r.len() ==> less(#[trigger] r[i], #[trigger] r[j])
    &&& forall|x: T| #[trigger] r.contains(x) <==> s.contains(x)
}

/// A list sorted with every value once is determined by the values.
pub proof fn lemma_sorted_set_unique<T>(
    less: spec_fn(T, T) -> bool,
    a: Seq<T>,
    b: Seq<T>,
    s: Seq<T>,
)
    requires
        forall|x: T, y: T| #[trigger] less(x, y) ==> !less(y, x),
        is_sorted_set(less, a, s),
        is_sorted_set(less, b, s),
    ensures
        a == b,
{
    lemma_same_members(less, a, b);
}

proof fn lemma_same_members<T>(less: spec_fn(T, T) -> bool, a: Seq<T>, b: Seq<T>)
    requires
        forall|x: T, y: T| #[trigger] less(x, y) ==> !less(y, x),
        forall|i: int, j: int| 0 <= i < j < a.len() ==> less(#[trigger] a[i], #[trigger] a[j]),
        forall|i: int, j: int| 0 <= i < j < b.len() ==> less(#[trigger] b[i], #[trigger] b[j]),
        forall|x: T| #[trigger] a.contains(x) <==> b.contains(x),
    ensures
        a == b,
    decreases a.len(),
{
    if a.len() == 0 {
        if b.len() > 0 {
            assert(b.contains(b[0]));
            assert(a.contains(b[0]));
        }
        assert(a =~= b);
    } else {
        assert(a.contains(a[0]));
        assert(b.contains(a[0]));
        let i = choose|i: int| 0 <= i < b.len() && b[i] == a[0];
        assert(b.contains(b[0]));
        assert(a.contains(b[0]));
        let j = choose|j: int| 0 <= j < a.len() && a[j] == b[0];
        if i > 0 && j > 0 {
            assert(less(b[0], b[i]));
            assert(less(a[0], a[j]));
        }
        assert(a[0] == b[0]);
        let x = a.drop_first();
        let y = b.drop_first();
        assert forall|v: T| #[trigger] x.contains(v) <==> y.contains(v) by {
            if x.contains(v) {
                let k = choose|k: int| 0 <= k < x.len() && x[k] == v;
                assert(a[k + 1] == v);
                assert(a.contains(v));
                assert(b.contains(v));
                let m = choose|m: int| 0 <= m < b.len() && b[m] == v;
                if m == 0 {
                    assert(less(a[0], a[k + 1]));
                }
                assert(y[m - 1] == v);
            }
            if y.contains(v) {
                let k = choose|k: int| 0 <= k < y.len() && y[k] == v;
                assert(b[k + 1] == v);
                assert(b.contains(v));
                assert(a.contains(v));
                let m = choose|m: int| 0 <= m < a.len() && a[m] == v;
                if m == 0 {
                    assert(less(b[0], b[k + 1]));
                }
                assert(x[m - 1] == v);
            }
        }
        assert forall|i: int, j: int| 0 <= i < j < x.len() implies less(
            #[trigger] x[i],
            #[trigger] x[j],
        ) by {
            assert(less(a[i + 1], a[j + 1]));
        }
        assert forall|i: int, j: int| 0 <= i < j < y.len() implies less(
            #[trigger] y[i],
            #[trigger] y[j],
        ) by {
            assert(less(b[i + 1], b[j + 1]));
        }
        lemma_same_members(less, x, y);
        assert(a =~= seq![a[0]] + x);
        assert(b =~= seq![b[0]] + y);
    }
}

/// A strict total order.
pub open spec fn is_order<T>(less: spec_fn(T, T) -> bool) -> bool {
    &&& forall|x: T, y: T| #[trigger] less(x, y) ==> !less(y, x)
    &&& forall|x: T, y: T, z: T| #[trigger] less(x, y) && #[trigger] less(y, z) ==> less(x, z)
    &&& forall|x: T, y: T| x == y || #[trigger] less(x, y) || less(y, x)
}

/// A value has a place in a sorted list that it is not in.
proof fn lemma_place<T>(less: spec_fn(T, T) -> bool, a: Seq<T>, x: T) -> (k: int)
    requires
        is_order(less),
        forall|i: int, j: int| 0 <= i < j < a.len() ==> less(#[trigger] a[i], #[trigger] a[j]),
        !a.contains(x),
    ensures
        0 <= k <= a.len(),
        forall|i: int| 0 <= i < k ==> less(#[trigger] a[i], x),
        forall|i: int| k <= i < a.len() ==> less(x, #[trigger] a[i]),
    decreases a.len(),
{
    if a.len() == 0 {
        0
    } else {
        let z = a.len() - 1;
        assert(a.contains(a[z]));
        assert(a[z] == x || less(a[z], x) || less(x, a[z]));
        if less(a[z], x) {
            assert forall|i: int| 0 <= i < a.len() implies less(#[trigger] a[i], x) by {
                if i < z {
                    assert(less(a[i], a[z]) && less(a[z], x));
                }
            }
            a.len() as int
        } else {
            let b = a.drop_last();
            assert forall|i: int, j: int| 0 <= i < j < b.len() implies less(
                #[trigger] b[i],
                #[trigger] b[j],
            ) by {
                assert(less(a[i], a[j]));
            }
            if b.contains(x) {
                let i = choose|i: int| 0 <= i < b.len() && b[i] == x;
                assert(a[i] == x);
            }
            let k = lemma_place(less, b, x);
            assert forall|i: int| 0 <= i < k implies less(#[trigger] a[i], x) by {
                assert(b[i] == a[i]);
            }
            assert forall|i: int| k <= i < a.len() implies less(x, #[trigger] a[i]) by {
                if i < z {
                    assert(b[i] == a[i]);
                }
            }
            k
        }
    }
}

/// Every list can be sorted with every value once.
proof fn lemma_sorted_set_exists<T>(less: spec_fn(T, T) -> bool, s: Seq<T>) -> (r: Seq<T>)
    requires
        is_order(less),
    ensures
        is_sorted_set(less, r, s),
    decreases s.len(),
{
    if s.len() == 0 {
        Seq::empty()
    } else {
        let t = s.drop_last();
        let x = s.last();
        let a = lemma_sorted_set_exists(less, t);
        assert forall|v: T| #[trigger] s.contains(v) <==> t.contains(v) || v == x by {
            if s.contains(v) && v != x {
                let i = choose|i: int| 0 <= i < s.len() && s[i] == v;
                assert(t[i] == v);
            }
            if t.contains(v) {
                let i = choose|i: int| 0 <= i < t.len() && t[i] == v;
                assert(s[i] == v);
            }
            assert(s[s.len() - 1] == x);
        }
        if a.contains(x) {
            a
        } else {
            let k = lemma_place(less, a, x);
            let r = a.insert(k, x);
            assert forall|i: int, j: int| 0 <= i < j < r.len() implies less(
                #[trigger] r[i],
                #[trigger] r[j],
            ) by {
                let p = if i < k {
                    i
                } else {
                    i - 1
                };
                let q = if j < k {
                    j
                } else {
                    j - 1
                };
                if i == k {
                    assert(less(x, a[q]));
                } else if j == k {
                    assert(less(a[p], x));
                } else {
                    assert(less(a[p], a[q]));
                }
            }
            assert forall|v: T| #[trigger] r.contains(v) <==> s.contains(v) by {
                if r.contains(v) {
                    let i = choose|i: int| 0 <= i < r.len() && r[i] == v;
                    if i < k {
                        assert(a[i] == v);
                    } else if i > k {
                        assert(a[i - 1] == v);
                    }
                    assert(v == x || a.contains(v));
                }
                if a.contains(v) {
                    let i = choose|i: int| 0 <= i < a.len() && a[i] == v;
                    if i < k {
                        assert(r[i] == v);
                    } else {
                        assert(r[i + 1] == v);
                    }
                }
                assert(r[k] == x);
            }
            r
        }
    }
}

// ───────────────────────── texts ─────────────────────────

/// The order of texts: that of their UTF-8 bytes.
pub open spec fn text_less(a: Seq<char>, b: Seq<char>) -> bool {
    bytes_less(encode_utf8(a), encode_utf8(b))
}

/// The order of texts, as a value.
pub open spec fn text_order() -> spec_fn(Seq<char>, Seq<char>) -> bool {
    |a: Seq<char>, b: Seq<char>| text_less(a, b)
}

/// The texts of a list, sorted, each once.
pub open spec fn sorted_texts(s: Seq<Seq<char>>) -> Seq<Seq<char>> {
    choose|r: Seq<Seq<char>>| is_sorted_set(text_order(), r, s)
}

pub proof fn lemma_text_irreflexive(a: Seq<char>)
    ensures
        !text_less(a, a),
{
    lemma_bytes_irreflexive(encode_utf8(a));
}

pub proof fn lemma_text_transitive(a: Seq<char>, b: Seq<char>, c: Seq<char>)
    requires
        text_less(a, b),
        text_less(b, c),
    ensures
        text_less(a, c),
{
    lemma_bytes_transitive(encode_utf8(a), encode_utf8(b), encode_utf8(c));
}

pub proof fn lemma_text_total(a: Seq<char>, b: Seq<char>)
    requires
        a != b,
    ensures
        text_less(a, b) || text_less(b, a),
{
    encode_utf8_decode_utf8(a);
    encode_utf8_decode_utf8(b);
    lemma_bytes_total(encode_utf8(a), encode_utf8(b));
}

/// A list sorted with every text once is the one that `sorted_texts` names.
pub proof fn lemma_sorted_texts(r: Seq<Seq<char>>, s: Seq<Seq<char>>)
    requires
        is_sorted_set(text_order(), r, s),
    ensures
        r == sorted_texts(s),
{
    assert forall|x: Seq<char>, y: Seq<char>| #[trigger]
        text_order()(x, y) implies !text_order()(y, x) by {
        if text_less(y, x) {
            lemma_text_transitive(x, y, x);
            lemma_text_irreflexive(x);
        }
    }
    lemma_sorted_set_unique(text_order(), r, sorted_texts(s), s);
}

/// Sorting texts keeps them all: `sorted_texts` holds the texts of a list, each once, by
/// ascending bytes.
pub proof fn law_sorted_texts_are_sorted(s: Seq<Seq<char>>)
    ensures
        is_sorted_set(text_order(), sorted_texts(s), s),
{
    let less = text_order();
    assert forall|x: Seq<char>, y: Seq<char>| #[trigger] less(x, y) implies !less(y, x) by {
        if text_less(y, x) {
            lemma_text_transitive(x, y, x);
            lemma_text_irreflexive(x);
        }
    }
    assert forall|x: Seq<char>, y: Seq<char>, z: Seq<char>| #[trigger]
        less(x, y) && #[trigger] less(y, z) implies less(x, z) by {
        lemma_text_transitive(x, y, z);
    }
    assert forall|x: Seq<char>, y: Seq<char>| x == y || #[trigger] less(x, y) || less(y, x) by {
        if x != y {
            lemma_text_total(x, y);
        }
    }
    let r = lemma_sorted_set_exists(less, s);
}

pub fn text_before(a: &str, b: &str) -> (r: bool)
    ensures
        r == text_less(a@, b@),
{
    less_bytes(a.as_bytes(), b.as_bytes())
}

/// Texts by their order, equal ones by place.
pub struct ByText {
    pub v: Vec<String>,
}

impl IndexOrder for ByText {
    open spec fn wf(&self) -> bool {
        true
    }

    open spec fn upto(&self) -> nat {
        self.v@.len()
    }

    open spec fn before(&self, a: int, b: int) -> bool {
        text_less(self.v@[a]@, self.v@[b]@) || (self.v@[a]@ == self.v@[b]@ && a < b)
    }

    proof fn lemma_irreflexive(&self, a: int) {
        lemma_text_irreflexive(self.v@[a]@);
    }

    proof fn lemma_transitive(&self, a: int, b: int, c: int) {
        if text_less(self.v@[a]@, self.v@[b]@) && text_less(self.v@[b]@, self.v@[c]@) {
            lemma_text_transitive(self.v@[a]@, self.v@[b]@, self.v@[c]@);
        }
    }

    proof fn lemma_total(&self, a: int, b: int) {
        if self.v@[a]@ != self.v@[b]@ {
            lemma_text_total(self.v@[a]@, self.v@[b]@);
        }
    }

    fn size(&self) -> (n: usize) {
        self.v.len()
    }

    fn test(&self, a: usize, b: usize) -> (r: bool) {
        let x = self.v[a].as_str();
        let y = self.v[b].as_str();
        if text_before(x, y) {
            true
        } else if text_before(y, x) {
            proof {
                lemma_text_irreflexive(x@);
                if text_less(x@, y@) {
                    lemma_text_transitive(x@, y@, x@);
                }
            }
            false
        } else {
            proof {
                if x@ != y@ {
                    lemma_text_total(x@, y@);
                }
            }
            a < b
        }
    }
}

/// Sorts texts and keeps each once.
pub fn sort_texts(v: Vec<String>) -> (r: Vec<String>)
    ensures
        texts(r@) == sorted_texts(texts(v@)),
        is_sorted_set(text_order(), texts(r@), texts(v@)),
{
    let o = ByText { v };
    let p = sort_indices(&o);
    let mut r: Vec<String> = Vec::new();
    let mut i: usize = 0;
    while i < p.len()
        invariant
            arranged(&o, p@),
            i <= p.len(),
            i > 0 <==> r.len() > 0,
            forall|a: int, b: int|
                0 <= a < b < r.len() ==> text_less((#[trigger] r@[a])@, (#[trigger] r@[b])@),
            i > 0 ==> r@[r.len() - 1]@ == o.v@[p@[i as int - 1] as int]@,
            forall|a: int|
                0 <= a < r.len() ==> exists|k: int|
                    0 <= k < o.v@.len() && (#[trigger] o.v@[k])@ == (#[trigger] r@[a])@,
            forall|k: int|
                0 <= k < i ==> exists|a: int|
                    0 <= a < r.len() && (#[trigger] r@[a])@ == o.v@[#[trigger] p@[k] as int]@,
        decreases p.len() - i,
    {
        let at: usize = p[i];
        let fresh: bool = if i == 0 {
            true
        } else {
            let n: usize = r.len();
            let last = r[n - 1].as_str();
            proof {
                encode_utf8_decode_utf8(last@);
                encode_utf8_decode_utf8(o.v@[at as int]@);
            }
            !same_bytes(last.as_bytes(), o.v[at].as_str().as_bytes())
        };
        let ghost was = r@;
        proof {
            if i > 0 {
                assert(o.before(p@[i as int - 1] as int, p@[i as int] as int));
            }
        }
        if fresh {
            let s = o.v[at].clone();
            r.push(s);
            proof {
                assert forall|a: int, b: int| 0 <= a < b < r.len() implies text_less(
                    (#[trigger] r@[a])@,
                    (#[trigger] r@[b])@,
                ) by {
                    if b == was.len() && a < was.len() - 1 {
                        assert(text_less(was[a]@, was[was.len() - 1]@));
                        lemma_text_transitive(r@[a]@, was[was.len() - 1]@, r@[b]@);
                    }
                }
                assert forall|k: int| 0 <= k < i + 1 implies exists|a: int|
                    0 <= a < r.len() && (#[trigger] r@[a])@ == o.v@[#[trigger] p@[k] as int]@ by {
                    if k < i {
                        let a = choose|a: int|
                            0 <= a < was.len() && (#[trigger] was[a])@ == o.v@[p@[k] as int]@;
                        assert(r@[a]@ == o.v@[p@[k] as int]@);
                    } else {
                        assert(r@[was.len() as int]@ == o.v@[p@[k] as int]@);
                    }
                }
                assert forall|a: int| 0 <= a < r.len() implies exists|k: int|
                    0 <= k < o.v@.len() && (#[trigger] o.v@[k])@ == (#[trigger] r@[a])@ by {
                    if a == was.len() {
                        assert(o.v@[at as int]@ == r@[a]@);
                    } else {
                        assert(r@[a] == was[a]);
                    }
                }
            }
        } else {
            proof {
                assert forall|k: int| 0 <= k < i + 1 implies exists|a: int|
                    0 <= a < r.len() && (#[trigger] r@[a])@ == o.v@[#[trigger] p@[k] as int]@ by {
                    if k == i {
                        assert(r@[r.len() - 1]@ == o.v@[p@[k] as int]@);
                    }
                }
            }
        }
        i = i + 1;
    }
    proof {
        let t = texts(r@);
        let s = texts(v@);
        assert forall|x: Seq<char>| #[trigger] t.contains(x) <==> s.contains(x) by {
            if t.contains(x) {
                let a = choose|a: int| 0 <= a < t.len() && t[a] == x;
                assert(r@[a]@ == x);
                let k = choose|k: int| 0 <= k < o.v@.len() && (#[trigger] o.v@[k])@ == r@[a]@;
                assert(s[k] == x);
            }
            if s.contains(x) {
                let k = choose|k: int| 0 <= k < s.len() && s[k] == x;
                lemma_arranged_complete(&o, p@, k);
                let m = choose|m: int| 0 <= m < p@.len() && #[trigger] p@[m] == k;
                let a = choose|a: int|
                    0 <= a < r.len() && (#[trigger] r@[a])@ == o.v@[p@[m] as int]@;
                assert(t[a] == x);
            }
        }
        assert forall|i: int, j: int| 0 <= i < j < t.len() implies text_order()(
            #[trigger] t[i],
            #[trigger] t[j],
        ) by {
            assert(text_less(r@[i]@, r@[j]@));
        }
        lemma_sorted_texts(t, s);
    }
    r
}

// ───────────────────────── numbers ─────────────────────────

/// The order of numbers, as a value.
pub open spec fn number_order() -> spec_fn(u32, u32) -> bool {
    |a: u32, b: u32| a < b
}

/// The numbers of a list, sorted, each once.
pub open spec fn sorted_numbers(s: Seq<u32>) -> Seq<u32> {
    choose|r: Seq<u32>| is_sorted_set(number_order(), r, s)
}

/// A list sorted with every number once is the one that `sorted_numbers` names.
pub proof fn lemma_sorted_numbers(r: Seq<u32>, s: Seq<u32>)
    requires
        is_sorted_set(number_order(), r, s),
    ensures
        r == sorted_numbers(s),
{
    assert forall|x: u32, y: u32| #[trigger] number_order()(x, y) implies !number_order()(y, x) by {
    }
    lemma_sorted_set_unique(number_order(), r, sorted_numbers(s), s);
}

/// Sorting numbers keeps them all: `sorted_numbers` holds the numbers of a list, each once, in
/// ascending order.
pub proof fn law_sorted_numbers_are_sorted(s: Seq<u32>)
    ensures
        is_sorted_set(number_order(), sorted_numbers(s), s),
{
    let less = number_order();
    assert forall|x: u32, y: u32| x == y || #[trigger] less(x, y) || less(y, x) by {}
    let r = lemma_sorted_set_exists(less, s);
}

/// Numbers by size, equal ones by place.
pub struct ByNumber {
    pub v: Vec<u32>,
}

impl IndexOrder for ByNumber {
    open spec fn wf(&self) -> bool {
        true
    }

    open spec fn upto(&self) -> nat {
        self.v@.len()
    }

    open spec fn before(&self, a: int, b: int) -> bool {
        self.v@[a] < self.v@[b] || (self.v@[a] == self.v@[b] && a < b)
    }

    proof fn lemma_irreflexive(&self, a: int) {
    }

    proof fn lemma_transitive(&self, a: int, b: int, c: int) {
    }

    proof fn lemma_total(&self, a: int, b: int) {
    }

    fn size(&self) -> (n: usize) {
        self.v.len()
    }

    fn test(&self, a: usize, b: usize) -> (r: bool) {
        self.v[a] < self.v[b] || (self.v[a] == self.v[b] && a < b)
    }
}

/// Sorts numbers and keeps each once.
pub fn sort_numbers(v: Vec<u32>) -> (r: Vec<u32>)
    ensures
        r@ == sorted_numbers(v@),
        is_sorted_set(number_order(), r@, v@),
{
    let o = ByNumber { v };
    let p = sort_indices(&o);
    let mut r: Vec<u32> = Vec::new();
    let mut i: usize = 0;
    while i < p.len()
        invariant
            arranged(&o, p@),
            i <= p.len(),
            i > 0 <==> r.len() > 0,
            forall|a: int, b: int| 0 <= a < b < r.len() ==> (#[trigger] r@[a]) < #[trigger] r@[b],
            i > 0 ==> r@[r.len() - 1] == o.v@[p@[i as int - 1] as int],
            forall|a: int| 0 <= a < r.len() ==> o.v@.contains(#[trigger] r@[a]),
            forall|k: int| 0 <= k < i ==> r@.contains(o.v@[#[trigger] p@[k] as int]),
        decreases p.len() - i,
    {
        let x: u32 = o.v[p[i]];
        let ghost was = r@;
        let n: usize = r.len();
        proof {
            if i > 0 {
                assert(o.before(p@[i as int - 1] as int, p@[i as int] as int));
            }
        }
        if i == 0 || r[n - 1] != x {
            r.push(x);
            proof {
                assert(o.v@.contains(x));
                assert forall|k: int| 0 <= k < i + 1 implies r@.contains(
                    o.v@[#[trigger] p@[k] as int],
                ) by {
                    if k < i {
                        let a = choose|a: int|
                            0 <= a < was.len() && was[a] == o.v@[p@[k] as int];
                        assert(r@[a] == o.v@[p@[k] as int]);
                    } else {
                        assert(r@[was.len() as int] == x);
                    }
                }
            }
        } else {
            assert(r@[r.len() - 1] == x);
        }
        i = i + 1;
    }
    proof {
        assert forall|x: u32| #[trigger] r@.contains(x) <==> v@.contains(x) by {
            if r@.contains(x) {
                let a = choose|a: int| 0 <= a < r@.len() && r@[a] == x;
                assert(o.v@.contains(r@[a]));
            }
            if v@.contains(x) {
                let k = choose|k: int| 0 <= k < v@.len() && v@[k] == x;
                lemma_arranged_complete(&o, p@, k);
                let m = choose|m: int| 0 <= m < p@.len() && #[trigger] p@[m] == k;
                assert(r@.contains(o.v@[p@[m] as int]));
            }
        }
        lemma_sorted_numbers(r@, v@);
    }
    r
}

} // verus!
