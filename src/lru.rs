//! A store of byte strings keyed by line number, bounded by total weight,
//! that evicts least recently used entries first.
use vstd::prelude::*;

verus! {

/// An entry's key and value.
pub type Entry = (u32, Seq<u8>);

/// The weight of a value: its length in bytes, at least 1.
pub open spec fn weight(v: Seq<u8>) -> int {
    if v.len() == 0 {
        1
    } else {
        v.len() as int
    }
}

/// Sum of the weights of the values in `s`.
pub open spec fn total_weight(s: Seq<Entry>) -> int
    decreases s.len(),
{
    if s.len() == 0 {
        0
    } else {
        weight(s[0].1) + total_weight(s.drop_first())
    }
}

pub open spec fn keys_unique(s: Seq<Entry>) -> bool {
    forall|i: int, j: int| 0 <= i < j < s.len() ==> s[i].0 != s[j].0
}

pub open spec fn has_key(s: Seq<Entry>, k: u32) -> bool {
    exists|i: int| 0 <= i < s.len() && s[i].0 == k
}

/// Where key `k` stands in `s`, when it is there.
pub open spec fn index_of(s: Seq<Entry>, k: u32) -> int {
    choose|i: int| 0 <= i < s.len() && s[i].0 == k
}

/// The value stored under `k`.
pub open spec fn lookup(s: Seq<Entry>, k: u32) -> Option<Seq<u8>> {
    if has_key(s, k) {
        Some(s[index_of(s, k)].1)
    } else {
        None
    }
}

/// `s` after reading `k`: its entry becomes the most recently used.
pub open spec fn touch(s: Seq<Entry>, k: u32) -> Seq<Entry> {
    if has_key(s, k) {
        s.remove(index_of(s, k)).push(s[index_of(s, k)])
    } else {
        s
    }
}

/// `s` without the entry of `k`.
pub open spec fn detach(s: Seq<Entry>, k: u32) -> Seq<Entry> {
    if has_key(s, k) {
        s.remove(index_of(s, k))
    } else {
        s
    }
}

/// Drops the least recently used entries of `s` until its total weight is
/// at most `cap`.
pub open spec fn evict(s: Seq<Entry>, cap: int) -> Seq<Entry>
    decreases s.len(),
{
    if s.len() == 0 || total_weight(s) <= cap {
        s
    } else {
        evict(s.drop_first(), cap)
    }
}

/// `s` after storing `v` under `k`.
pub open spec fn store(s: Seq<Entry>, cap: int, k: u32, v: Seq<u8>) -> Seq<Entry> {
    evict(detach(s, k).push((k, v)), cap)
}

pub proof fn lemma_total_nonneg(s: Seq<Entry>)
    ensures
        total_weight(s) >= s.len(),
    decreases s.len(),
{
    if s.len() > 0 {
        lemma_total_nonneg(s.drop_first());
    }
}

pub proof fn lemma_total_push(s: Seq<Entry>, e: Entry)
    ensures
        total_weight(s.push(e)) == total_weight(s) + weight(e.1),
    decreases s.len(),
{
    if s.len() > 0 {
        assert(s.push(e).drop_first() =~= s.drop_first().push(e));
        lemma_total_push(s.drop_first(), e);
    } else {
        assert(s.push(e).drop_first() =~= s);
    }
}

pub proof fn lemma_total_remove(s: Seq<Entry>, i: int)
    requires
        0 <= i < s.len(),
    ensures
        total_weight(s) == total_weight(s.remove(i)) + weight(s[i].1),
    decreases s.len(),
{
    if i == 0 {
        assert(s.remove(0) =~= s.drop_first());
    } else {
        lemma_total_remove(s.drop_first(), i - 1);
        assert(s.remove(i).drop_first() =~= s.drop_first().remove(i - 1));
    }
}

proof fn lemma_index_of(s: Seq<Entry>, i: int)
    requires
        keys_unique(s),
        0 <= i < s.len(),
    ensures
        has_key(s, s[i].0),
        index_of(s, s[i].0) == i,
{
    assert(has_key(s, s[i].0));
}

/// Eviction keeps the most recently used entries: it drops the oldest
/// ones, as few as leave a total weight within the budget.
pub proof fn lemma_evict_keeps_newest(s: Seq<Entry>, cap: int)
    requires
        cap >= 0,
    ensures
        evict(s, cap).len() <= s.len(),
        evict(s, cap) == s.subrange(s.len() - evict(s, cap).len(), s.len() as int),
        total_weight(evict(s, cap)) <= cap,
        evict(s, cap).len() < s.len() ==> total_weight(
            s.subrange(s.len() - evict(s, cap).len() - 1, s.len() as int),
        ) > cap,
    decreases s.len(),
{
    if s.len() == 0 || total_weight(s) <= cap {
        assert(s.subrange(0, s.len() as int) =~= s);
    } else {
        let t = s.drop_first();
        lemma_evict_keeps_newest(t, cap);
        let e = evict(t, cap);
        assert(t.subrange(t.len() - e.len(), t.len() as int) =~= s.subrange(
            s.len() - e.len(),
            s.len() as int,
        ));
        if e.len() < t.len() {
            assert(t.subrange(t.len() - e.len() - 1, t.len() as int) =~= s.subrange(
                s.len() - e.len() - 1,
                s.len() as int,
            ));
        } else {
            assert(e.len() == t.len());
            assert(s.subrange(s.len() - e.len() - 1, s.len() as int) =~= s);
        }
    }
}

pub struct WeightedLru {
    /// Least recently used first.
    entries: Vec<(u32, Vec<u8>)>,
    total: u64,
    capacity: u64,
}

impl WeightedLru {
    /// The entries, least recently used first.
    pub closed spec fn view(&self) -> Seq<Entry> {
        self.entries@.map_values(|e: (u32, Vec<u8>)| (e.0, e.1@))
    }

    pub closed spec fn cap(&self) -> int {
        self.capacity as int
    }

    pub closed spec fn wf(&self) -> bool {
        &&& keys_unique(self@)
        &&& self.total == total_weight(self@)
        &&& self.total <= self.capacity
    }

    /// An empty store with a budget of `capacity` bytes.
    pub fn new(capacity: u64) -> (r: WeightedLru)
        ensures
            r.wf(),
            r@ == Seq::<Entry>::empty(),
            r.cap() == capacity,
    {
        let r = WeightedLru { entries: Vec::new(), total: 0, capacity };
        assert(r@ =~= Seq::<Entry>::empty());
        r
    }

    pub proof fn lemma_unique(&self)
        requires
            self.wf(),
        ensures
            keys_unique(self@),
    {
    }

    pub fn capacity(&self) -> (r: u64)
        ensures
            r == self.cap(),
    {
        self.capacity
    }

    /// Total weight of the stored values.
    pub fn total(&self) -> (r: u64)
        requires
            self.wf(),
        ensures
            r == total_weight(self@),
            r <= self.cap(),
    {
        self.total
    }

    pub fn len(&self) -> (r: usize)
        ensures
            r == self@.len(),
    {
        self.entries.len()
    }

    fn position(&self, key: u32) -> (r: Option<usize>)
        requires
            self.wf(),
        ensures
            match r {
                Some(i) => i < self@.len() && index_of(self@, key) == i && has_key(self@, key),
                None => !has_key(self@, key),
            },
    {
        let mut i: usize = 0;
        while i < self.entries.len()
            invariant
                self.wf(),
                i <= self@.len(),
                self@.len() == self.entries@.len(),
                forall|j: int| 0 <= j < i ==> self@[j].0 != key,
            decreases self.entries.len() - i,
        {
            if self.entries[i].0 == key {
                proof {
                    lemma_index_of(self@, i as int);
                }
                return Some(i);
            }
            i = i + 1;
        }
        None
    }

    /// Whether `key` is stored; does not count as a use.
    pub fn contains(&self, key: u32) -> (r: bool)
        requires
            self.wf(),
        ensures
            r == has_key(self@, key),
    {
        self.position(key).is_some()
    }

    /// The value stored under `key`, which becomes the most recently used.
    pub fn get(&mut self, key: u32) -> (r: Option<Vec<u8>>)
        requires
            old(self).wf(),
        ensures
            final(self).wf(),
            final(self).cap() == old(self).cap(),
            final(self)@ == touch(old(self)@, key),
            match r {
                Some(v) => lookup(old(self)@, key) == Some(v@),
                None => lookup(old(self)@, key) is None,
            },
    {
        match self.position(key) {
            None => None,
            Some(i) => {
                let ghost s = self@;
                let e = self.entries.remove(i);
                let v = e.1.clone();
                assert(v@ =~= e.1@);
                self.entries.push(e);
                proof {
                    assert(self@ =~= s.remove(i as int).push(s[i as int]));
                    lemma_total_remove(s, i as int);
                    lemma_total_push(s.remove(i as int), s[i as int]);
                    assert forall|a: int, b: int|
                        0 <= a < b < self@.len() implies self@[a].0 != self@[b].0 by {
                        if b == self@.len() - 1 {
                            if a < i {
                                assert(self@[a] == s[a]);
                            } else {
                                assert(self@[a] == s[a + 1]);
                            }
                        } else {
                            if a < i {
                                assert(self@[a] == s[a]);
                            } else {
                                assert(self@[a] == s[a + 1]);
                            }
                            if b < i {
                                assert(self@[b] == s[b]);
                            } else {
                                assert(self@[b] == s[b + 1]);
                            }
                        }
                    }
                }
                Some(v)
            },
        }
    }

    /// Drops the entry of `key`, if there is one.
    pub fn remove(&mut self, key: u32)
        requires
            old(self).wf(),
        ensures
            final(self).wf(),
            final(self).cap() == old(self).cap(),
            final(self)@ == detach(old(self)@, key),
    {
        match self.position(key) {
            None => {},
            Some(i) => {
                let ghost s = self@;
                let e = self.entries.remove(i);
                proof {
                    lemma_total_remove(s, i as int);
                    lemma_total_nonneg(s.remove(i as int));
                    assert(self@ =~= s.remove(i as int));
                    assert forall|a: int, b: int|
                        0 <= a < b < self@.len() implies self@[a].0 != self@[b].0 by {
                        assert(self@[a] == if a < i { s[a] } else { s[a + 1] });
                        assert(self@[b] == if b < i { s[b] } else { s[b + 1] });
                    }
                }
                let w: u64 = if e.1.len() == 0 {
                    1
                } else {
                    e.1.len() as u64
                };
                self.total = self.total - w;
            },
        }
    }

    /// Stores `value` under `key` as the most recently used entry, then
    /// evicts least recently used entries until the total weight is within
    /// the budget.
    pub fn insert(&mut self, key: u32, value: Vec<u8>)
        requires
            old(self).wf(),
        ensures
            final(self).wf(),
            final(self).cap() == old(self).cap(),
            final(self)@ == store(old(self)@, old(self).cap(), key, value@),
            total_weight(final(self)@) <= final(self).cap(),
    {
        let ghost s0 = self@;
        let mut t: u128 = self.total as u128;
        match self.position(key) {
            None => {},
            Some(i) => {
                let e = self.entries.remove(i);
                proof {
                    lemma_total_remove(s0, i as int);
                    lemma_total_nonneg(s0.remove(i as int));
                    assert(self@ =~= s0.remove(i as int));
                }
                let w: u64 = if e.1.len() == 0 {
                    1
                } else {
                    e.1.len() as u64
                };
                t = t - w as u128;
            },
        }
        let ghost s1 = self@;
        assert(s1 == detach(s0, key));
        let w: u64 = if value.len() == 0 {
            1
        } else {
            value.len() as u64
        };
        let ghost vv = value@;
        self.entries.push((key, value));
        proof {
            assert(self@ =~= s1.push((key, vv)));
            lemma_total_push(s1, (key, vv));
        }
        t = t + w as u128;
        proof {
            lemma_unique_detach_push(s0, key, vv);
        }
        self.trim(t);
    }

    /// Drops entries from the least recently used end until the total
    /// weight `t` of the entries is within the budget.
    fn trim(&mut self, t: u128)
        requires
            keys_unique(old(self)@),
            t == total_weight(old(self)@),
        ensures
            final(self).wf(),
            final(self).cap() == old(self).cap(),
            final(self)@ == evict(old(self)@, old(self).cap()),
    {
        let ghost s2 = self@;
        let mut t = t;
        let n = self.entries.len();
        let mut d: usize = 0;
        assert(s2.subrange(0, n as int) =~= s2);
        while t > self.capacity as u128
            invariant
                d <= n,
                n == self.entries@.len(),
                s2 == self@,
                t == total_weight(s2.subrange(d as int, n as int)),
                evict(s2, self.capacity as int) == evict(
                    s2.subrange(d as int, n as int),
                    self.capacity as int,
                ),
            decreases n - d,
        {
            let ghost x = s2.subrange(d as int, n as int);
            assert(x.drop_first() =~= s2.subrange(d + 1, n as int));
            proof {
                lemma_total_nonneg(x.drop_first());
            }
            let wd: u64 = if self.entries[d].1.len() == 0 {
                1
            } else {
                self.entries[d].1.len() as u64
            };
            assert(x[0] == s2[d as int]);
            t = t - wd as u128;
            d = d + 1;
        }
        let kept = self.entries.split_off(d);
        self.entries = kept;
        self.total = t as u64;
        proof {
            assert(self@ =~= s2.subrange(d as int, n as int));
            lemma_unique_subrange(s2, d as int);
        }
    }
}

proof fn lemma_unique_subrange(s: Seq<Entry>, d: int)
    requires
        keys_unique(s),
        0 <= d <= s.len(),
    ensures
        keys_unique(s.subrange(d, s.len() as int)),
{
    let x = s.subrange(d, s.len() as int);
    assert forall|a: int, b: int| 0 <= a < b < x.len() implies x[a].0 != x[b].0 by {
        assert(x[a] == s[a + d]);
        assert(x[b] == s[b + d]);
    }
}

proof fn lemma_unique_detach_push(s: Seq<Entry>, k: u32, v: Seq<u8>)
    requires
        keys_unique(s),
    ensures
        keys_unique(detach(s, k).push((k, v))),
{
    let s1 = detach(s, k);
    let x = s1.push((k, v));
    if has_key(s, k) {
        let i = index_of(s, k);
        assert forall|a: int| 0 <= a < s1.len() implies #[trigger] s1[a] == if a < i {
            s[a]
        } else {
            s[a + 1]
        } by {}
        assert forall|a: int| 0 <= a < s1.len() implies #[trigger] s1[a].0 != k by {
            if a < i {
                assert(s1[a] == s[a]);
            } else {
                assert(s1[a] == s[a + 1]);
            }
        }
    }
    assert forall|a: int, b: int| 0 <= a < b < x.len() implies x[a].0 != x[b].0 by {
        assert(x[a] == s1[a]);
        if b < x.len() - 1 {
            assert(x[b] == s1[b]);
        }
    }
}

} // verus!
