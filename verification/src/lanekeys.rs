//! The keys of one lane while the store is built.
use crate::order::{arranged, lemma_arranged_complete, sort_indices, IndexOrder};
use crate::sorted::{
    is_sorted_set, number_order, sort_numbers, text_less, ByText,
};
use crate::writer::{key_follows, keyed, keys_ascend};
use vstd::hash_map::StringHashMap;
use vstd::prelude::*;
use vstd::string::*;
use vstd::utf8::*;

verus! {

/// Keys with the ids of the entries they lead to.
pub struct LaneKeys {
    /// Where a key stands.
    pub slot: StringHashMap<usize>,
    pub keys: Vec<String>,
    pub ids: Vec<Vec<u32>>,
}

impl LaneKeys {
    /// The keys are listed once each, and the table knows where.
    pub open spec fn wf(self) -> bool {
        &&& self.keys@.len() == self.ids@.len()
        &&& forall|i: int|
            0 <= i < self.keys@.len() ==> self.slot@.contains_key((#[trigger] self.keys@[i])@)
                && self.slot@[self.keys@[i]@] == i
        &&& forall|k: Seq<char>| #[trigger]
            self.slot@.contains_key(k) ==> self.slot@[k] < self.keys@.len()
                && self.keys@[self.slot@[k] as int]@ == k
        &&& forall|i: int| 0 <= i < self.ids@.len() ==> (#[trigger] self.ids@[i])@.len() > 0
    }

    /// The ids noted for a key, in the order they came.
    pub open spec fn of(self, k: Seq<char>) -> Seq<u32> {
        if self.slot@.contains_key(k) {
            self.ids@[self.slot@[k] as int]@
        } else {
            Seq::empty()
        }
    }

    pub fn new() -> (r: Self)
        ensures
            r.wf(),
            forall|k: Seq<char>| #[trigger] r.of(k) == Seq::<u32>::empty(),
    {
        LaneKeys { slot: StringHashMap::new(), keys: Vec::new(), ids: Vec::new() }
    }

    /// Notes an id for a key. An empty key leads nowhere.
    pub fn add(&mut self, key: &str, id: u32)
        requires
            old(self).wf(),
        ensures
            final(self).wf(),
            forall|k: Seq<char>| #[trigger]
                final(self).of(k) == if k == key@ && k.len() > 0 {
                    old(self).of(k).push(id)
                } else {
                    old(self).of(k)
                },
    {
        if key.unicode_len() == 0 {
            return ;
        }
        let ghost was = *self;
        let at: Option<usize> = match self.slot.get(key) {
            Some(p) => Some(*p),
            None => None,
        };
        match at {
            Some(p) => {
                let mut l: Vec<u32> = Vec::new();
                std::mem::swap(&mut l, &mut self.ids[p]);
                l.push(id);
                self.ids.set(p, l);
            },
            None => {
                let n: usize = self.keys.len();
                let owned = key.to_owned();
                self.slot.insert(key.to_owned(), n);
                self.keys.push(owned);
                let mut l: Vec<u32> = Vec::new();
                l.push(id);
                assert(l@ =~= Seq::<u32>::empty().push(id));
                self.ids.push(l);
            },
        }
        proof {
            assert forall|i: int| 0 <= i < self.keys@.len() implies self.slot@.contains_key(
                (#[trigger] self.keys@[i])@,
            ) && self.slot@[self.keys@[i]@] == i by {
                if i < was.keys@.len() {
                    assert(self.keys@[i] == was.keys@[i]);
                    assert(was.slot@.contains_key(was.keys@[i]@));
                }
            }
            assert forall|k: Seq<char>| #[trigger] self.of(k) == if k == key@ && k.len() > 0 {
                was.of(k).push(id)
            } else {
                was.of(k)
            } by {
                if was.slot@.contains_key(k) {
                    assert(was.keys@[was.slot@[k] as int]@ == k);
                }
            }
        }
    }

    /// The keys by ascending bytes, each with its ids sorted and once each, as an index is
    /// written.
    pub fn finish(self) -> (r: Vec<(String, Vec<u32>)>)
        requires
            self.wf(),
        ensures
            keys_ascend(keyed(r@)),
            forall|i: int|
                0 <= i < r@.len() ==> is_sorted_set(
                    number_order(),
                    (#[trigger] r@[i]).1@,
                    self.of(r@[i].0@),
                ) && self.of(r@[i].0@).len() > 0,
            forall|k: Seq<char>|
                (#[trigger] self.of(k)).len() > 0 ==> exists|i: int|
                    0 <= i < r@.len() && (#[trigger] r@[i]).0@ == k,
    {
        let LaneKeys { slot: _, keys, ids } = self;
        let o = ByText { v: keys };
        let p = sort_indices(&o);
        let mut r: Vec<(String, Vec<u32>)> = Vec::new();
        let mut i: usize = 0;
        while i < p.len()
            invariant
                arranged(&o, p@),
                self.wf(),
                o.v@ == self.keys@,
                ids@ == self.ids@,
                i <= p.len(),
                r.len() == i,
                forall|j: int|
                    0 <= j < i ==> (#[trigger] r@[j]).0@ == self.keys@[p@[j] as int]@
                        && is_sorted_set(number_order(), r@[j].1@, self.of(r@[j].0@)) && self.of(
                        r@[j].0@,
                    ).len() > 0,
            decreases p.len() - i,
        {
            let at: usize = p[i];
            let k = o.v[at].clone();
            let l = sort_numbers(ids[at].clone());
            proof {
                assert(self.slot@[self.keys@[at as int]@] == at);
                assert(self.ids@[at as int]@.len() > 0);
            }
            r.push((k, l));
            i = i + 1;
        }
        proof {
            let s = keyed(r@);
            assert forall|i: int| 0 <= i < s.len() implies #[trigger] key_follows(s, i) by {
                if i > 0 {
                    assert(o.before(p@[i - 1] as int, p@[i] as int));
                    let a = p@[i - 1] as int;
                    let b = p@[i] as int;
                    if self.keys@[a]@ == self.keys@[b]@ {
                        assert(self.slot@[self.keys@[a]@] == a);
                        assert(self.slot@[self.keys@[b]@] == b);
                    }
                    assert(r@[i - 1].0@ == self.keys@[a]@);
                    assert(r@[i].0@ == self.keys@[b]@);
                    assert(text_less(s[i - 1].0, s[i].0));
                }
            }
            assert forall|k: Seq<char>| (#[trigger] self.of(k)).len() > 0 implies exists|i: int|
                0 <= i < r@.len() && (#[trigger] r@[i]).0@ == k by {
                let at = self.slot@[k] as int;
                lemma_arranged_complete(&o, p@, at);
                let m = choose|m: int| 0 <= m < p@.len() && #[trigger] p@[m] == at;
                assert(r@[m].0@ == k);
            }
        }
        r
    }
}

} // verus!
