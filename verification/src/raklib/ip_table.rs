//! Maps keyed by IP address, kept as vectors of distinct keys.
use crate::raklib::address::IpAddress;
use vstd::prelude::*;

verus! {

broadcast use vstd::array::group_array_axioms;

/// Whether two octet arrays are equal.
fn same_octets<const N: usize>(x: &[u8; N], y: &[u8; N]) -> (r: bool)
    ensures
        r == (*x == *y),
{
    let mut i: usize = 0;
    while i < N
        invariant
            i <= N,
            forall|j: int| 0 <= j < i ==> x[j] == y[j],
        decreases N - i,
    {
        if x[i] != y[i] {
            return false;
        }
        i = i + 1;
    }
    assert(*x =~= *y);
    true
}

/// Whether two IP addresses are the same.
pub fn same_ip(a: &IpAddress, b: &IpAddress) -> (r: bool)
    ensures
        r == (*a == *b),
{
    match a {
        IpAddress::V4(x) => match b {
            IpAddress::V4(y) => same_octets(x, y),
            IpAddress::V6(_) => false,
        },
        IpAddress::V6(x) => match b {
            IpAddress::V4(_) => false,
            IpAddress::V6(y) => same_octets(x, y),
        },
    }
}

/// No address has two entries.
pub open spec fn distinct_keys<V>(s: Seq<(IpAddress, V)>) -> bool {
    forall|i: int, j: int| 0 <= i < j < s.len() ==> s[i].0 != s[j].0
}

/// Whether an address has an entry.
pub open spec fn has_key<V>(s: Seq<(IpAddress, V)>, k: IpAddress) -> bool {
    exists|i: int| 0 <= i < s.len() && (#[trigger] s[i]).0 == k
}

/// The map the entries stand for.
pub open spec fn entries_map<V>(s: Seq<(IpAddress, V)>) -> Map<IpAddress, V> {
    Map::new(
        |k: IpAddress| has_key(s, k),
        |k: IpAddress| s[choose|i: int| 0 <= i < s.len() && (#[trigger] s[i]).0 == k].1,
    )
}

/// With distinct keys, the map gives each entry's value for its key.
proof fn lemma_entry_value<V>(s: Seq<(IpAddress, V)>, i: int)
    requires
        distinct_keys(s),
        0 <= i < s.len(),
    ensures
        entries_map(s).contains_key(s[i].0),
        entries_map(s)[s[i].0] == s[i].1,
{
    let k = s[i].0;
    assert(has_key(s, k));
    let c = choose|j: int| 0 <= j < s.len() && (#[trigger] s[j]).0 == k;
    if c != i {
        if c < i {
            assert(s[c].0 != s[i].0);
        } else {
            assert(s[i].0 != s[c].0);
        }
    }
}

/// Two entry sequences with distinct keys, the same keys and the same values for them
/// stand for the same map as `m`.
proof fn lemma_map_is<V>(s: Seq<(IpAddress, V)>, m: Map<IpAddress, V>)
    requires
        distinct_keys(s),
        forall|k: IpAddress| m.contains_key(k) <==> has_key(s, k),
        forall|i: int| 0 <= i < s.len() ==> m.contains_key(#[trigger] s[i].0) && m[s[i].0] == s[i].1,
    ensures
        entries_map(s) == m,
{
    assert forall|k: IpAddress| #[trigger] entries_map(s).contains_key(k) implies entries_map(s)[k]
        == m[k] by {
        let i = choose|i: int| 0 <= i < s.len() && (#[trigger] s[i]).0 == k;
        lemma_entry_value(s, i);
    }
    assert(entries_map(s) =~= m);
}

/// A map from IP addresses to values.
#[derive(Debug)]
pub struct IpTable<V> {
    entries: Vec<(IpAddress, V)>,
}

impl<V> View for IpTable<V> {
    type V = Map<IpAddress, V>;

    open spec fn view(&self) -> Map<IpAddress, V> {
        entries_map(self.entries())
    }
}

impl<V> IpTable<V> {
    pub closed spec fn entries(&self) -> Seq<(IpAddress, V)> {
        self.entries@
    }

    pub open spec fn wf(&self) -> bool {
        distinct_keys(self.entries())
    }
}

impl<V: Copy> IpTable<V> {

    pub fn new() -> (r: Self)
        ensures
            r.wf(),
            r@ == Map::<IpAddress, V>::empty(),
    {
        let r = IpTable { entries: Vec::new() };
        assert(r@ =~= Map::<IpAddress, V>::empty());
        r
    }

    pub fn len(&self) -> (r: usize)
        requires
            self.wf(),
        ensures
            r == self@.len(),
    {
        proof {
            self.lemma_len();
        }
        self.entries.len()
    }

    /// The map has as many keys as there are entries.
    proof fn lemma_len(&self)
        requires
            self.wf(),
        ensures
            self@.dom().finite(),
            self@.len() == self.entries().len(),
    {
        let s = self.entries();
        let keys = s.map_values(|e: (IpAddress, V)| e.0);
        assert forall|i: int, j: int| 0 <= i < j < keys.len() implies keys[i] != keys[j] by {}
        keys.unique_seq_to_set();
        assert(self@.dom() =~= keys.to_set()) by {
            assert forall|k: IpAddress| self@.dom().contains(k) implies keys.to_set().contains(k) by {
                let i = choose|i: int| 0 <= i < s.len() && (#[trigger] s[i]).0 == k;
                assert(keys[i] == k);
            }
            assert forall|k: IpAddress| keys.to_set().contains(k) implies self@.dom().contains(k) by {
                let i = choose|i: int| 0 <= i < keys.len() && keys[i] == k;
                assert(s[i].0 == k);
            }
        }
    }

    /// The index of `k`'s entry.
    fn position(&self, k: &IpAddress) -> (r: Option<usize>)
        ensures
            r matches Some(i) ==> i < self.entries().len() && self.entries()[i as int].0 == *k,
            r is None ==> !has_key(self.entries(), *k),
    {
        let mut i: usize = 0;
        while i < self.entries.len()
            invariant
                i <= self.entries@.len(),
                forall|j: int| 0 <= j < i ==> (#[trigger] self.entries@[j]).0 != *k,
            decreases self.entries@.len() - i,
        {
            if same_ip(&self.entries[i].0, k) {
                return Some(i);
            }
            i = i + 1;
        }
        None
    }

    /// The value of `k`.
    pub fn get(&self, k: &IpAddress) -> (r: Option<V>)
        requires
            self.wf(),
        ensures
            r == if self@.contains_key(*k) {
                Some(self@[*k])
            } else {
                None::<V>
            },
    {
        match self.position(k) {
            Some(i) => {
                proof {
                    lemma_entry_value(self.entries(), i as int);
                }
                Some(self.entries[i].1)
            },
            None => None,
        }
    }

    /// Sets the value of `k`.
    pub fn insert(&mut self, k: IpAddress, v: V)
        requires
            old(self).wf(),
        ensures
            final(self).wf(),
            final(self)@ == old(self)@.insert(k, v),
    {
        let ghost s = self.entries();
        let ghost m = old(self)@.insert(k, v);
        match self.position(&k) {
            Some(i) => {
                self.entries.set(i, (k, v));
                proof {
                    let n = self.entries();
                    assert(n == s.update(i as int, (k, v)));
                    assert forall|a: int, b: int| 0 <= a < b < n.len() implies n[a].0 != n[b].0 by {
                        assert(s[a].0 != s[b].0);
                    }
                    assert forall|x: IpAddress| m.contains_key(x) <==> has_key(n, x) by {
                        if m.contains_key(x) && x != k {
                            let j = choose|j: int| 0 <= j < s.len() && (#[trigger] s[j]).0 == x;
                            assert(n[j].0 == x);
                        }
                        if x == k {
                            assert(n[i as int].0 == x);
                        }
                        if has_key(n, x) {
                            let j = choose|j: int| 0 <= j < n.len() && (#[trigger] n[j]).0 == x;
                            if j != i {
                                assert(s[j].0 == x);
                            }
                        }
                    }
                    assert forall|j: int| 0 <= j < n.len() implies m.contains_key(#[trigger] n[j].0)
                        && m[n[j].0] == n[j].1 by {
                        if j != i {
                            lemma_entry_value(s, j);
                            if j < i {
                                assert(s[j].0 != s[i as int].0);
                            } else {
                                assert(s[i as int].0 != s[j].0);
                            }
                        }
                    }
                    lemma_map_is(n, m);
                }
            },
            None => {
                self.entries.push((k, v));
                proof {
                    let n = self.entries();
                    assert(n == s.push((k, v)));
                    assert forall|a: int, b: int| 0 <= a < b < n.len() implies n[a].0 != n[b].0 by {
                        if b == s.len() {
                            assert(s[a].0 != k);
                        } else {
                            assert(s[a].0 != s[b].0);
                        }
                    }
                    assert forall|x: IpAddress| m.contains_key(x) <==> has_key(n, x) by {
                        if m.contains_key(x) && x != k {
                            let j = choose|j: int| 0 <= j < s.len() && (#[trigger] s[j]).0 == x;
                            assert(n[j].0 == x);
                        }
                        if x == k {
                            assert(n[s.len() as int].0 == x);
                        }
                        if has_key(n, x) {
                            let j = choose|j: int| 0 <= j < n.len() && (#[trigger] n[j]).0 == x;
                            if j < s.len() {
                                assert(s[j].0 == x);
                            }
                        }
                    }
                    assert forall|j: int| 0 <= j < n.len() implies m.contains_key(#[trigger] n[j].0)
                        && m[n[j].0] == n[j].1 by {
                        if j < s.len() {
                            lemma_entry_value(s, j);
                            assert(s[j].0 != k);
                        }
                    }
                    lemma_map_is(n, m);
                }
            },
        }
    }

    /// Removes `k`'s entry.
    pub fn remove(&mut self, k: &IpAddress)
        requires
            old(self).wf(),
        ensures
            final(self).wf(),
            final(self)@ == old(self)@.remove(*k),
    {
        let ghost s = self.entries();
        let ghost m = old(self)@.remove(*k);
        match self.position(k) {
            Some(i) => {
                self.entries.remove(i);
                proof {
                    let n = self.entries();
                    assert(n == s.remove(i as int));
                    assert forall|a: int, b: int| 0 <= a < b < n.len() implies n[a].0 != n[b].0 by {
                        if a < i {
                            if b < i {
                                assert(s[a].0 != s[b].0);
                            } else {
                                assert(s[a].0 != s[b + 1].0);
                            }
                        } else {
                            assert(s[a + 1].0 != s[b + 1].0);
                        }
                    }
                    assert forall|x: IpAddress| m.contains_key(x) <==> has_key(n, x) by {
                        if m.contains_key(x) {
                            let j = choose|j: int| 0 <= j < s.len() && (#[trigger] s[j]).0 == x;
                            assert(j != i);
                            if j < i {
                                assert(n[j].0 == x);
                            } else {
                                assert(n[j - 1].0 == x);
                            }
                        }
                        if has_key(n, x) {
                            let j = choose|j: int| 0 <= j < n.len() && (#[trigger] n[j]).0 == x;
                            if j < i {
                                assert(s[j].0 == x);
                                assert(s[j].0 != s[i as int].0);
                            } else {
                                assert(s[j + 1].0 == x);
                                assert(s[i as int].0 != s[j + 1].0);
                            }
                        }
                    }
                    assert forall|j: int| 0 <= j < n.len() implies m.contains_key(#[trigger] n[j].0)
                        && m[n[j].0] == n[j].1 by {
                        if j < i {
                            lemma_entry_value(s, j);
                            assert(s[j].0 != s[i as int].0);
                        } else {
                            lemma_entry_value(s, j + 1);
                            assert(s[i as int].0 != s[j + 1].0);
                        }
                    }
                    lemma_map_is(n, m);
                }
            },
            None => {
                assert(old(self)@ =~= m);
            },
        }
    }

    /// Removes every entry.
    pub fn clear(&mut self)
        ensures
            final(self).wf(),
            final(self)@ == Map::<IpAddress, V>::empty(),
    {
        self.entries.clear();
        assert(self@ =~= Map::<IpAddress, V>::empty());
    }
}

impl IpTable<u64> {
    /// Keeps the entries whose value is above `t`.
    pub fn retain_above(&mut self, t: u64)
        requires
            old(self).wf(),
        ensures
            final(self).wf(),
            final(self)@ == old(self)@.restrict(old(self)@.dom().filter(|k: IpAddress| old(self)@[k] > t)),
    {
        let ghost s = self.entries();
        let ghost m = old(self)@.restrict(old(self)@.dom().filter(|k: IpAddress| old(self)@[k] > t));
        let mut kept: Vec<(IpAddress, u64)> = Vec::new();
        let ghost mut pos: Seq<int> = Seq::empty();
        let mut i: usize = 0;
        while i < self.entries.len()
            invariant
                s == self.entries(),
                distinct_keys(s),
                i <= s.len(),
                pos.len() == kept@.len(),
                forall|a: int, b: int| 0 <= a < b < pos.len() ==> pos[a] < pos[b],
                forall|j: int|
                    0 <= j < pos.len() ==> 0 <= #[trigger] pos[j] < i && kept@[j] == s[pos[j]]
                        && s[pos[j]].1 > t,
                forall|j: int|
                    0 <= j < i && (#[trigger] s[j]).1 > t ==> exists|a: int|
                        0 <= a < pos.len() && pos[a] == j,
            decreases s.len() - i,
        {
            let e = self.entries[i];
            if e.1 > t {
                kept.push(e);
                proof {
                    let old_pos = pos;
                    pos = pos.push(i as int);
                    assert forall|j: int| 0 <= j < i + 1 && (#[trigger] s[j]).1 > t implies exists|
                        a: int,
                    | 0 <= a < pos.len() && pos[a] == j by {
                        if j == i {
                            assert(pos[pos.len() - 1] == j);
                        } else {
                            let a = choose|a: int| 0 <= a < old_pos.len() && old_pos[a] == j;
                            assert(pos[a] == j);
                        }
                    }
                }
            }
            i = i + 1;
        }
        proof {
            let n = kept@;
            assert forall|a: int, b: int| 0 <= a < b < n.len() implies n[a].0 != n[b].0 by {
                assert(pos[a] < pos[b]);
                assert(s[pos[a]].0 != s[pos[b]].0);
            }
            assert forall|x: IpAddress| m.contains_key(x) <==> has_key(n, x) by {
                if m.contains_key(x) {
                    let j = choose|j: int| 0 <= j < s.len() && (#[trigger] s[j]).0 == x;
                    lemma_entry_value(s, j);
                    assert(s[j].1 > t);
                    let a = choose|a: int| 0 <= a < pos.len() && pos[a] == j;
                    assert(n[a].0 == x);
                }
                if has_key(n, x) {
                    let a = choose|a: int| 0 <= a < n.len() && (#[trigger] n[a]).0 == x;
                    lemma_entry_value(s, pos[a]);
                }
            }
            assert forall|j: int| 0 <= j < n.len() implies m.contains_key(#[trigger] n[j].0) && m[n[j].0]
                == n[j].1 by {
                lemma_entry_value(s, pos[j]);
            }
            lemma_map_is(n, m);
        }
        self.entries = kept;
    }
}

} // verus!
