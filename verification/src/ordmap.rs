//! A map from texts to values that keeps its keys in order.
use vstd::prelude::*;

use crate::order;
use crate::text;

verus! {

/// A map from texts to values: its entries stand in ascending order of their keys, each key once.
#[derive(Debug)]
pub struct OrdMap<V> {
    pub keys: Vec<String>,
    pub values: Vec<V>,
}

/// The position of `x` among `k`, or -1.
pub open spec fn position(k: Seq<Seq<char>>, x: Seq<char>) -> int {
    if exists|i: int| 0 <= i < k.len() && k[i] == x {
        choose|i: int| 0 <= i < k.len() && k[i] == x
    } else {
        -1
    }
}

/// In ascending texts a text has one position.
pub proof fn lemma_position(k: Seq<Seq<char>>, i: int)
    requires
        order::ascending(k),
        0 <= i < k.len(),
    ensures
        position(k, k[i]) == i,
{
    let p = position(k, k[i]);
    assert(0 <= p < k.len() && k[p] == k[i]);
    order::lemma_text_total(k[p], k[i]);
    if p < i {
        assert(order::text_lt(k[p], k[i]));
    } else if i < p {
        assert(order::text_lt(k[i], k[p]));
    }
}

impl<V> OrdMap<V> {
    /// The keys, in order.
    pub open spec fn key_seq(&self) -> Seq<Seq<char>> {
        text::views(self.keys@)
    }

    /// As many values as keys, and the keys strictly ascending.
    pub open spec fn wf(&self) -> bool {
        &&& self.keys@.len() == self.values@.len()
        &&& order::ascending(self.key_seq())
    }

    /// Whether `x` is a key.
    pub open spec fn has(&self, x: Seq<char>) -> bool {
        text::holds(self.keys@, x)
    }

    /// The mathematical map.
    pub open spec fn map(&self) -> Map<Seq<char>, V> {
        Map::new(|x: Seq<char>| self.has(x), |x: Seq<char>| self.values@[position(self.key_seq(), x)])
    }

    /// What the map says of the entry at position `i`.
    pub proof fn lemma_entry(&self, i: int)
        requires
            self.wf(),
            0 <= i < self.keys@.len(),
        ensures
            self.has(self.keys@[i]@),
            self.map().dom().contains(self.keys@[i]@),
            self.map()[self.keys@[i]@] == self.values@[i],
    {
        assert(self.key_seq()[i] == self.keys@[i]@);
        lemma_position(self.key_seq(), i);
    }

    /// The empty map.
    pub fn new() -> (r: OrdMap<V>)
        ensures
            r.wf(),
            r.keys@.len() == 0,
            r.map() == Map::<Seq<char>, V>::empty(),
    {
        let r = OrdMap { keys: Vec::new(), values: Vec::new() };
        assert(r.map() =~= Map::<Seq<char>, V>::empty());
        r
    }

    /// The number of entries.
    pub fn len(&self) -> (r: usize)
        ensures
            r == self.keys@.len(),
    {
        self.keys.len()
    }

    /// The position of the first key that does not come before `x`.
    fn lower_bound(&self, x: &str) -> (r: usize)
        requires
            self.wf(),
        ensures
            r <= self.keys@.len(),
            forall|j: int| 0 <= j < r ==> order::text_lt((#[trigger] self.keys@[j])@, x@),
            forall|j: int| r <= j < self.keys@.len() ==> !order::text_lt((#[trigger] self.keys@[j])@, x@),
    {
        let mut i: usize = 0;
        while i < self.keys.len() && order::text_less(self.keys[i].as_str(), x)
            invariant
                i <= self.keys@.len(),
                forall|j: int| 0 <= j < i ==> order::text_lt((#[trigger] self.keys@[j])@, x@),
            decreases self.keys@.len() - i,
        {
            i = i + 1;
        }
        assert forall|j: int| i <= j < self.keys@.len() implies !order::text_lt(
            (#[trigger] self.keys@[j])@,
            x@,
        ) by {
            if j > i {
                assert(order::text_lt(self.key_seq()[i as int], self.key_seq()[j]));
                if order::text_lt(self.keys@[j]@, x@) {
                    order::lemma_text_trans(self.keys@[i as int]@, self.keys@[j]@, x@);
                }
            }
        }
        i
    }

    /// The position of the key `x`, if it is one.
    pub fn find(&self, x: &str) -> (r: Option<usize>)
        requires
            self.wf(),
        ensures
            match r {
                Some(i) => i < self.keys@.len() && i < self.values@.len() && self.keys@[i as int]@ == x@
                    && self.map().dom().contains(x@) && self.map()[x@] == self.values@[i as int],
                None => !self.map().dom().contains(x@),
            },
            r is Some == self.has(x@),
    {
        let i = self.lower_bound(x);
        if i < self.keys.len() && text::same(self.keys[i].as_str(), x) {
            proof {
                self.lemma_entry(i as int);
            }
            return Some(i);
        }
        assert(!self.has(x@)) by {
            if self.has(x@) {
                let j = choose|j: int| 0 <= j < self.keys@.len() && (#[trigger] self.keys@[j])@ == x@;
                order::lemma_text_total(x@, x@);
                if j > i {
                    assert(order::text_lt(self.key_seq()[i as int], self.key_seq()[j]));
                }
            }
        }
        None
    }

    /// The value at the key `x`.
    pub fn get(&self, x: &str) -> (r: Option<&V>)
        requires
            self.wf(),
        ensures
            match r {
                Some(v) => self.map().dom().contains(x@) && self.map()[x@] == *v,
                None => !self.map().dom().contains(x@),
            },
    {
        match self.find(x) {
            Some(i) => Some(&self.values[i]),
            None => None,
        }
    }

    /// Whether `x` is a key.
    pub fn contains(&self, x: &str) -> (r: bool)
        requires
            self.wf(),
        ensures
            r == self.map().dom().contains(x@),
    {
        self.find(x).is_some()
    }

    /// Puts `v` at the key `x`, in place of what stood there.
    pub fn insert(&mut self, x: String, v: V)
        requires
            old(self).wf(),
        ensures
            final(self).wf(),
            final(self).map() == old(self).map().insert(x@, v),
    {
        let ghost before = *self;
        match self.find(x.as_str()) {
            Some(i) => {
                self.values.set(i, v);
                proof {
                    assert(self.key_seq() == before.key_seq());
                    self.lemma_entry(i as int);
                    assert forall|y: Seq<char>| #[trigger] before.has(y) && y != x@ implies self.map()[y]
                        == before.map()[y] by {
                        let j = choose|j: int| 0 <= j < self.keys@.len() && (#[trigger] self.keys@[j])@ == y;
                        self.lemma_entry(j);
                        before.lemma_entry(j);
                    }
                    assert(self.map() =~= before.map().insert(x@, v));
                }
            },
            None => {
                let i = self.lower_bound(x.as_str());
                let ghost xv = x@;
                self.keys.insert(i, x);
                self.values.insert(i, v);
                proof {
                    let nk = self.key_seq();
                    let ok = before.key_seq();
                    assert(nk =~= ok.insert(i as int, xv));
                    assert forall|p: int, q: int| 0 <= p < q < nk.len() implies order::text_lt(
                        #[trigger] nk[p],
                        #[trigger] nk[q],
                    ) by {
                        let op = if p < i { p } else { p - 1 };
                        let oq = if q < i { q } else { q - 1 };
                        if p != i && q != i {
                            assert(nk[p] == ok[op] && nk[q] == ok[oq]);
                        } else if p == i {
                            assert(nk[q] == ok[oq] && ok[oq] == before.keys@[oq]@);
                            order::lemma_text_total(before.keys@[oq]@, xv);
                            assert(before.has(before.keys@[oq]@));
                        } else {
                            assert(nk[p] == ok[p] && ok[p] == before.keys@[p]@);
                        }
                    }
                    self.lemma_entry(i as int);
                    assert forall|y: Seq<char>| #[trigger] self.has(y) == (before.has(y) || y == xv) by {
                        if self.has(y) {
                            let j = choose|j: int| 0 <= j < self.keys@.len() && (#[trigger] self.keys@[j])@ == y;
                            if j < i {
                                assert(self.keys@[j] == before.keys@[j]);
                            } else if j > i {
                                assert(self.keys@[j] == before.keys@[j - 1]);
                            }
                        }
                        if before.has(y) {
                            let j = choose|j: int| 0 <= j < before.keys@.len() && (#[trigger] before.keys@[j])@ == y;
                            let nj = if j < i { j } else { j + 1 };
                            assert(self.keys@[nj] == before.keys@[j]);
                        }
                    }
                    assert forall|y: Seq<char>| #[trigger] before.has(y) implies self.map()[y]
                        == before.map()[y] && y != xv by {
                        let j = choose|j: int| 0 <= j < before.keys@.len() && (#[trigger] before.keys@[j])@ == y;
                        let nj = if j < i { j } else { j + 1 };
                        assert(self.keys@[nj] == before.keys@[j]);
                        self.lemma_entry(nj);
                        before.lemma_entry(j);
                    }
                    assert(self.map() =~= before.map().insert(xv, v));
                }
            },
        }
    }
}

/// Two maps with the same keys hold them in the same order.
pub proof fn lemma_same_keys<V>(a: OrdMap<V>, b: OrdMap<V>)
    requires
        a.wf(),
        b.wf(),
        forall|x: Seq<char>| #![trigger a.map().dom().contains(x)] #![trigger b.map().dom().contains(x)]
            a.map().dom().contains(x) == b.map().dom().contains(x),
    ensures
        a.key_seq() == b.key_seq(),
{
    assert forall|x: Seq<char>|
        #![trigger a.key_seq().contains(x)]
        #![trigger b.key_seq().contains(x)]
        a.key_seq().contains(x) == b.key_seq().contains(x) by {
        lemma_key_seq_contains(a, x);
        lemma_key_seq_contains(b, x);
        assert(a.map().dom().contains(x) == b.map().dom().contains(x));
    }
    order::law_ascending_unique(a.key_seq(), b.key_seq());
}

/// The keys are the members of the key sequence.
pub proof fn lemma_key_seq_contains<V>(m: OrdMap<V>, x: Seq<char>)
    ensures
        m.key_seq().contains(x) == m.map().dom().contains(x),
{
    if m.key_seq().contains(x) {
        let i = choose|i: int| 0 <= i < m.key_seq().len() && m.key_seq()[i] == x;
        assert(m.keys@[i]@ == x);
    }
    if m.has(x) {
        let i = choose|i: int| 0 <= i < m.keys@.len() && (#[trigger] m.keys@[i])@ == x;
        assert(m.key_seq()[i] == x);
    }
}

/// Whether `k` lists the keys of a map in order.
pub open spec fn lists_keys<V>(m: Map<Seq<char>, V>, k: Seq<Seq<char>>) -> bool {
    order::ascending(k) && forall|x: Seq<char>|
        #![trigger k.contains(x)]
        #![trigger m.dom().contains(x)]
        k.contains(x) == m.dom().contains(x)
}

/// The keys of a map, in order.
pub open spec fn sorted_keys<V>(m: Map<Seq<char>, V>) -> Seq<Seq<char>> {
    choose|k: Seq<Seq<char>>| lists_keys(m, k)
}

/// The keys stand in the order of the keys of the mathematical map.
pub proof fn lemma_sorted_keys<V>(m: OrdMap<V>)
    requires
        m.wf(),
    ensures
        m.key_seq() == sorted_keys(m.map()),
{
    assert forall|x: Seq<char>|
        #![trigger m.key_seq().contains(x)]
        #![trigger m.map().dom().contains(x)]
        m.key_seq().contains(x) == m.map().dom().contains(x) by {
        lemma_key_seq_contains(m, x);
    }
    assert(lists_keys(m.map(), m.key_seq()));
    let k = sorted_keys(m.map());
    assert(lists_keys(m.map(), k));
    assert forall|x: Seq<char>|
        #![trigger m.key_seq().contains(x)]
        #![trigger k.contains(x)]
        m.key_seq().contains(x) == k.contains(x) by {
        assert(k.contains(x) == m.map().dom().contains(x));
    }
    order::law_ascending_unique(m.key_seq(), k);
}

} // verus!
