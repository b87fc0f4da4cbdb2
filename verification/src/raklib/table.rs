//! Ordered sets and maps keyed by sequence numbers, kept as sorted vectors.
use vstd::prelude::*;

verus! {

/// Keys in strictly increasing order.
pub open spec fn strictly_increasing(s: Seq<u32>) -> bool {
    forall|i: int, j: int| 0 <= i < j < s.len() ==> s[i] < s[j]
}

/// A set of numbers, kept in increasing order.
#[derive(Debug)]
pub struct SeqSet {
    items: Vec<u32>,
}

impl View for SeqSet {
    type V = Set<u32>;

    open spec fn view(&self) -> Set<u32> {
        self.elems().to_set()
    }
}

impl SeqSet {
    /// The numbers, in increasing order.
    pub closed spec fn elems(&self) -> Seq<u32> {
        self.items@
    }

    pub open spec fn wf(&self) -> bool {
        strictly_increasing(self.elems())
    }

    pub fn new() -> (r: Self)
        ensures
            r.wf(),
            r@ == Set::<u32>::empty(),
            r.elems().len() == 0,
    {
        let r = SeqSet { items: Vec::new() };
        assert(r@ =~= Set::<u32>::empty());
        r
    }

    /// The first index whose number is at least `x`.
    fn position(&self, x: u32) -> (r: usize)
        requires
            self.wf(),
        ensures
            r <= self.elems().len(),
            forall|i: int| 0 <= i < r ==> self.elems()[i] < x,
            r < self.elems().len() ==> self.elems()[r as int] >= x,
    {
        let mut i: usize = 0;
        while i < self.items.len() && self.items[i] < x
            invariant
                i <= self.items@.len(),
                forall|j: int| 0 <= j < i ==> self.items@[j] < x,
            decreases self.items@.len() - i,
        {
            i = i + 1;
        }
        i
    }

    pub fn contains(&self, x: u32) -> (r: bool)
        requires
            self.wf(),
        ensures
            r == self@.contains(x),
    {
        let i = self.position(x);
        let r = i < self.items.len() && self.items[i] == x;
        proof {
            if r {
                assert(self.elems().contains(x));
            } else {
                assert forall|j: int| 0 <= j < self.elems().len() implies self.elems()[j] != x by {
                    if j >= i {
                        if j > i {
                            assert(self.elems()[i as int] < self.elems()[j]);
                        }
                    }
                }
            }
        }
        r
    }

    pub fn insert(&mut self, x: u32)
        requires
            old(self).wf(),
        ensures
            final(self).wf(),
            final(self)@ == old(self)@.insert(x),
    {
        let i = self.position(x);
        if i < self.items.len() && self.items[i] == x {
            proof {
                assert(self.elems().contains(x));
                assert(self@ =~= old(self)@.insert(x));
            }
            return ;
        }
        self.items.insert(i, x);
        proof {
            let o = old(self).elems();
            let n = self.elems();
            assert forall|a: int, b: int| 0 <= a < b < n.len() implies n[a] < n[b] by {
                if b < i {
                } else if a > i {
                    assert(n[a] == o[a - 1] && n[b] == o[b - 1]);
                } else if a == i {
                    assert(n[b] == o[b - 1]);
                    if b - 1 > i {
                        assert(o[i as int] < o[b - 1]);
                    }
                } else {
                    assert(n[a] == o[a]);
                    if b == i {
                    } else {
                        assert(n[b] == o[b - 1]);
                    }
                }
            }
            assert forall|y: u32| #[trigger] n.contains(y) <==> o.contains(y) || y == x by {
                if n.contains(y) {
                    let k = choose|k: int| 0 <= k < n.len() && n[k] == y;
                    if k < i {
                        assert(o[k] == y);
                    } else if k > i {
                        assert(o[k - 1] == y);
                    }
                }
                if o.contains(y) {
                    let k = choose|k: int| 0 <= k < o.len() && o[k] == y;
                    if k < i {
                        assert(n[k] == y);
                    } else {
                        assert(n[k + 1] == y);
                    }
                }
                if y == x {
                    assert(n[i as int] == x);
                }
            }
            assert(self@ =~= old(self)@.insert(x));
        }
    }

    pub fn remove(&mut self, x: u32)
        requires
            old(self).wf(),
        ensures
            final(self).wf(),
            final(self)@ == old(self)@.remove(x),
            old(self)@.contains(x) ==> final(self).elems().len() + 1 == old(self).elems().len(),
    {
        let i = self.position(x);
        if i < self.items.len() && self.items[i] == x {
            self.items.remove(i);
            proof {
                let o = old(self).elems();
                let n = self.elems();
                assert forall|a: int, b: int| 0 <= a < b < n.len() implies n[a] < n[b] by {
                    let a2 = if a < i { a } else { a + 1 };
                    let b2 = if b < i { b } else { b + 1 };
                    assert(n[a] == o[a2] && n[b] == o[b2]);
                }
                assert forall|y: u32| #[trigger] n.contains(y) <==> o.contains(y) && y != x by {
                    if n.contains(y) {
                        let k = choose|k: int| 0 <= k < n.len() && n[k] == y;
                        let k2 = if k < i { k } else { k + 1 };
                        assert(o[k2] == y);
                        if k2 != i {
                            if k2 < i {
                                assert(o[k2] < o[i as int]);
                            } else {
                                assert(o[i as int] < o[k2]);
                            }
                        }
                    }
                    if o.contains(y) && y != x {
                        let k = choose|k: int| 0 <= k < o.len() && o[k] == y;
                        if k < i {
                            assert(n[k] == y);
                        } else {
                            assert(k != i);
                            assert(n[k - 1] == y);
                        }
                    }
                }
                assert(self@ =~= old(self)@.remove(x));
            }
        } else {
            proof {
                assert forall|j: int| 0 <= j < self.elems().len() implies self.elems()[j] != x by {
                    if j > i {
                        assert(self.elems()[i as int] < self.elems()[j]);
                    }
                }
                assert(!self.elems().contains(x));
                assert(self@ =~= old(self)@.remove(x));
            }
        }
    }

    /// How many numbers the set holds.
    pub fn len(&self) -> (r: usize)
        ensures
            r == self.elems().len(),
    {
        self.items.len()
    }

    pub fn is_empty(&self) -> (r: bool)
        ensures
            r == (self@ == Set::<u32>::empty()),
    {
        let r = self.items.len() == 0;
        proof {
            if r {
                assert(self@ =~= Set::<u32>::empty());
            } else {
                assert(self@.contains(self.elems()[0]));
            }
        }
        r
    }

    pub fn clear(&mut self)
        ensures
            final(self).wf(),
            final(self)@ == Set::<u32>::empty(),
    {
        self.items.clear();
        assert(self@ =~= Set::<u32>::empty());
    }

    /// The numbers, in increasing order.
    pub fn to_vec(&self) -> (r: Vec<u32>)
        ensures
            r@ == self.elems(),
            r@.to_set() == self@,
    {
        let r = self.items.clone();
        assert(r@ =~= self.items@);
        r
    }
}

/// A map from numbers to values, kept in increasing order of the numbers.
#[derive(Debug)]
pub struct SeqMap<V> {
    entries: Vec<(u32, V)>,
}

impl<V> SeqMap<V> {
    /// The entries, in increasing order of their numbers.
    pub closed spec fn entries(&self) -> Seq<(u32, V)> {
        self.entries@
    }

    /// The numbers.
    pub open spec fn keys(&self) -> Seq<u32> {
        self.entries().map_values(|e: (u32, V)| e.0)
    }

    pub open spec fn wf(&self) -> bool {
        strictly_increasing(self.keys())
    }

    /// Whether a number has an entry.
    pub open spec fn has(&self, k: u32) -> bool {
        exists|i: int| 0 <= i < self.entries().len() && self.entries()[i].0 == k
    }

    /// The index of a number's entry.
    pub open spec fn index_of(&self, k: u32) -> int {
        choose|i: int| 0 <= i < self.entries().len() && self.entries()[i].0 == k
    }

    /// The map the entries stand for.
    pub open spec fn as_map(&self) -> Map<u32, V> {
        Map::new(|k: u32| self.has(k), |k: u32| self.entries()[self.index_of(k)].1)
    }

    pub fn new() -> (r: Self)
        ensures
            r.wf(),
            r.entries().len() == 0,
            r.as_map() == Map::<u32, V>::empty(),
    {
        let r = SeqMap { entries: Vec::new() };
        assert(r.as_map() =~= Map::<u32, V>::empty());
        r
    }

    pub fn len(&self) -> (r: usize)
        ensures
            r == self.entries().len(),
    {
        self.entries.len()
    }

    pub fn is_empty(&self) -> (r: bool)
        ensures
            r == (self.entries().len() == 0),
    {
        self.entries.len() == 0
    }

    /// The entry at an index, in key order.
    pub fn entry_at(&self, i: usize) -> (r: &(u32, V))
        requires
            i < self.entries().len(),
        ensures
            *r == self.entries()[i as int],
    {
        &self.entries[i]
    }

    /// The first index whose number is at least `k`.
    fn position(&self, k: u32) -> (r: usize)
        requires
            self.wf(),
        ensures
            r <= self.entries().len(),
            forall|i: int| 0 <= i < r ==> self.entries()[i].0 < k,
            r < self.entries().len() ==> self.entries()[r as int].0 >= k,
    {
        let mut i: usize = 0;
        while i < self.entries.len() && self.entries[i].0 < k
            invariant
                i <= self.entries@.len(),
                forall|j: int| 0 <= j < i ==> self.entries@[j].0 < k,
            decreases self.entries@.len() - i,
        {
            i = i + 1;
        }
        i
    }

    /// The map gives each entry's value for its number.
    pub proof fn lemma_entry_value(&self, i: int)
        requires
            self.wf(),
            0 <= i < self.entries().len(),
        ensures
            self.as_map().contains_key(self.entries()[i].0),
            self.as_map()[self.entries()[i].0] == self.entries()[i].1,
            self.keys()[i] == self.entries()[i].0,
    {
        let k = self.entries()[i].0;
        assert(self.has(k));
        let j = self.index_of(k);
        self.lemma_unique(i, j);
    }

    /// A number's entry lies at its place, and nowhere else.
    proof fn lemma_unique(&self, i: int, j: int)
        requires
            self.wf(),
            0 <= i < self.entries().len(),
            0 <= j < self.entries().len(),
            self.entries()[i].0 == self.entries()[j].0,
        ensures
            i == j,
    {
        if i < j {
            assert(self.keys()[i] < self.keys()[j]);
        } else if j < i {
            assert(self.keys()[j] < self.keys()[i]);
        }
    }

    /// Finds a number's entry.
    fn find(&self, k: u32) -> (r: Option<usize>)
        requires
            self.wf(),
        ensures
            r matches Some(i) ==> i < self.entries().len() && self.entries()[i as int].0 == k,
            r is None ==> !self.has(k),
            self.has(k) ==> self.entries()[self.index_of(k)].0 == k && 0 <= self.index_of(k)
                < self.entries().len(),
            r matches Some(i) ==> i == self.index_of(k),
    {
        let i = self.position(k);
        if i < self.entries.len() && self.entries[i].0 == k {
            proof {
                let j = self.index_of(k);
                self.lemma_unique(i as int, j);
            }
            Some(i)
        } else {
            proof {
                if self.has(k) {
                    let j = self.index_of(k);
                    if j >= i {
                        if j > i {
                            assert(self.keys()[i as int] < self.keys()[j]);
                        }
                    }
                }
            }
            None
        }
    }

    pub fn contains_key(&self, k: u32) -> (r: bool)
        requires
            self.wf(),
        ensures
            r == self.as_map().contains_key(k),
    {
        self.find(k).is_some()
    }

    pub fn get(&self, k: u32) -> (r: Option<&V>)
        requires
            self.wf(),
        ensures
            r is Some <==> self.as_map().contains_key(k),
            r matches Some(v) ==> *v == self.as_map()[k],
    {
        match self.find(k) {
            Some(i) => Some(&self.entries[i].1),
            None => None,
        }
    }

    /// Sets `k` to `v`, returning the value it replaces.
    pub fn insert(&mut self, k: u32, v: V) -> (r: Option<V>)
        requires
            old(self).wf(),
        ensures
            final(self).wf(),
            final(self).as_map() == old(self).as_map().insert(k, v),
            r is Some <==> old(self).as_map().contains_key(k),
            r matches Some(x) ==> x == old(self).as_map()[k],
    {
        let i = self.position(k);
        if i < self.entries.len() && self.entries[i].0 == k {
            proof {
                let j = old(self).index_of(k);
                old(self).lemma_unique(i as int, j);
            }
            let prev = self.entries.remove(i);
            self.entries.insert(i, (k, v));
            proof {
                let o = old(self).entries();
                let n = self.entries();
                assert(self.keys() =~= old(self).keys());
                assert forall|x: u32| #[trigger] self.has(x) <==> old(self).has(x) by {
                    if self.has(x) {
                        let q = choose|q: int| 0 <= q < n.len() && n[q].0 == x;
                        assert(o[q].0 == x);
                    }
                    if old(self).has(x) {
                        let q = choose|q: int| 0 <= q < o.len() && o[q].0 == x;
                        assert(n[q].0 == x);
                    }
                }
                assert forall|x: u32| self.has(x) implies #[trigger] self.as_map()[x] == old(
                    self,
                ).as_map().insert(k, v)[x] by {
                    let q = self.index_of(x);
                    let p = old(self).index_of(x);
                    self.lemma_unique(q, p);
                }
                assert(self.as_map() =~= old(self).as_map().insert(k, v));
            }
            Some(prev.1)
        } else {
            self.entries.insert(i, (k, v));
            proof {
                let o = old(self).entries();
                let n = self.entries();
                assert forall|a: int, b: int| 0 <= a < b < n.len() implies self.keys()[a]
                    < self.keys()[b] by {
                    assert(self.keys()[a] == n[a].0 && self.keys()[b] == n[b].0);
                    if b < i {
                        assert(n[a] == o[a] && n[b] == o[b]);
                        assert(old(self).keys()[a] < old(self).keys()[b]);
                    } else if a > i {
                        assert(n[a] == o[a - 1] && n[b] == o[b - 1]);
                        assert(old(self).keys()[a - 1] < old(self).keys()[b - 1]);
                    } else if a == i {
                        assert(n[b] == o[b - 1]);
                        if b - 1 > i {
                            assert(old(self).keys()[i as int] < old(self).keys()[b - 1]);
                        }
                    } else if b == i {
                        assert(n[a] == o[a]);
                    } else {
                        assert(n[a] == o[a] && n[b] == o[b - 1]);
                        assert(old(self).keys()[a] < old(self).keys()[b - 1]);
                    }
                }
                assert(!old(self).has(k)) by {
                    if old(self).has(k) {
                        let q = old(self).index_of(k);
                        if q > i {
                            assert(old(self).keys()[i as int] < old(self).keys()[q]);
                        }
                    }
                }
                assert forall|x: u32| #[trigger] self.has(x) <==> old(self).has(x) || x == k by {
                    if self.has(x) {
                        let q = choose|q: int| 0 <= q < n.len() && n[q].0 == x;
                        if q < i {
                            assert(o[q].0 == x);
                        } else if q > i {
                            assert(o[q - 1].0 == x);
                        }
                    }
                    if old(self).has(x) {
                        let q = choose|q: int| 0 <= q < o.len() && o[q].0 == x;
                        if q < i {
                            assert(n[q].0 == x);
                        } else {
                            assert(n[q + 1].0 == x);
                        }
                    }
                    if x == k {
                        assert(n[i as int].0 == k);
                    }
                }
                assert forall|x: u32| self.has(x) implies #[trigger] self.as_map()[x] == old(
                    self,
                ).as_map().insert(k, v)[x] by {
                    let q = self.index_of(x);
                    if x == k {
                        self.lemma_unique(q, i as int);
                    } else {
                        let p = old(self).index_of(x);
                        if p < i {
                            self.lemma_unique(q, p);
                        } else {
                            self.lemma_unique(q, p + 1);
                        }
                    }
                }
                assert(self.as_map() =~= old(self).as_map().insert(k, v));
            }
            None
        }
    }

    /// Removes `k`'s entry, returning its value.
    pub fn remove(&mut self, k: u32) -> (r: Option<V>)
        requires
            old(self).wf(),
        ensures
            final(self).wf(),
            final(self).as_map() == old(self).as_map().remove(k),
            r is Some <==> old(self).as_map().contains_key(k),
            r matches Some(x) ==> x == old(self).as_map()[k],
            r is Some ==> final(self).entries().len() + 1 == old(self).entries().len(),
            r is None ==> final(self).entries() == old(self).entries(),
    {
        match self.find(k) {
            None => {
                proof {
                    assert(self.as_map() =~= old(self).as_map().remove(k));
                }
                None
            },
            Some(i) => {
                let (_, v) = self.entries.remove(i);
                proof {
                    let o = old(self).entries();
                    let n = self.entries();
                    assert forall|a: int, b: int| 0 <= a < b < n.len() implies self.keys()[a]
                        < self.keys()[b] by {
                        let a2 = if a < i { a } else { a + 1 };
                        let b2 = if b < i { b } else { b + 1 };
                        assert(old(self).keys()[a2] < old(self).keys()[b2]);
                    }
                    assert forall|x: u32| #[trigger] self.has(x) <==> old(self).has(x) && x != k by {
                        if self.has(x) {
                            let q = choose|q: int| 0 <= q < n.len() && n[q].0 == x;
                            let q2 = if q < i { q } else { q + 1 };
                            assert(o[q2].0 == x);
                            if x == k {
                                old(self).lemma_unique(q2, i as int);
                            }
                        }
                        if old(self).has(x) && x != k {
                            let q = choose|q: int| 0 <= q < o.len() && o[q].0 == x;
                            if q < i {
                                assert(n[q].0 == x);
                            } else {
                                assert(q != i);
                                assert(n[q - 1].0 == x);
                            }
                        }
                    }
                    assert forall|x: u32| self.has(x) implies #[trigger] self.as_map()[x] == old(
                        self,
                    ).as_map().remove(k)[x] by {
                        let q = self.index_of(x);
                        let p = old(self).index_of(x);
                        if p < i {
                            old(self).lemma_unique(if q < i { q } else { q + 1 }, p);
                        } else {
                            old(self).lemma_unique(if q < i { q } else { q + 1 }, p);
                        }
                    }
                    assert(self.as_map() =~= old(self).as_map().remove(k));
                }
                Some(v)
            },
        }
    }

    /// The numbers, in increasing order.
    pub fn key_list(&self) -> (r: Vec<u32>)
        requires
            self.wf(),
        ensures
            r@ == self.keys(),
            forall|k: u32| self.as_map().contains_key(k) <==> r@.contains(k),
    {
        let mut r: Vec<u32> = Vec::new();
        let mut i: usize = 0;
        while i < self.entries.len()
            invariant
                i <= self.entries@.len(),
                r@ == self.keys().take(i as int),
            decreases self.entries@.len() - i,
        {
            r.push(self.entries[i].0);
            i = i + 1;
            proof {
                assert(r@ =~= self.keys().take(i as int));
            }
        }
        proof {
            assert(r@ =~= self.keys());
            assert forall|k: u32| self.as_map().contains_key(k) <==> r@.contains(k) by {
                if self.has(k) {
                    let q = choose|q: int| 0 <= q < self.entries().len() && self.entries()[q].0 == k;
                    assert(r@[q] == k);
                }
                if r@.contains(k) {
                    let q = choose|q: int| 0 <= q < r@.len() && r@[q] == k;
                    assert(self.entries()[q].0 == k);
                }
            }
        }
        r
    }

    /// Removes every entry.
    pub fn clear(&mut self)
        ensures
            final(self).wf(),
            final(self).entries().len() == 0,
            final(self).as_map() == Map::<u32, V>::empty(),
    {
        self.entries.clear();
        assert(self.as_map() =~= Map::<u32, V>::empty());
    }
}

} // verus!
