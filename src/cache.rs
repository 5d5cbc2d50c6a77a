//! The line cache: line contents by line number, served from a
//! byte-weighted store and fetched through an offset index on a miss, with
//! read-ahead.
use vstd::prelude::*;

use crate::index::{lines_of, LineIndexReader};
use crate::lines::deep;
use crate::lru::{
    detach, has_key, index_of, keys_unique, lookup, store, touch, Entry, WeightedLru,
};

verus! {

/// Default budget of a cache, in bytes (256 MiB).
pub const CACHE_MAX_CAPACITY: u64 = 268435456;

/// A fetch reads ahead up to this many times the requested span...
pub const PREFETCH_FACTOR: u32 = 10;

/// ...and at most this many lines beyond it.
pub const PREFETCH_MAX: u32 = 2048;

pub open spec fn min_int(a: int, b: int) -> int {
    if a <= b {
        a
    } else {
        b
    }
}

/// How many keys from `i` on, below `end`, are stored in a row.
pub open spec fn run_len(s: Seq<Entry>, i: int, end: int) -> nat
    decreases end - i,
{
    if i >= end || i < 0 || i > u32::MAX || !has_key(s, i as u32) {
        0
    } else {
        1 + run_len(s, i + 1, end)
    }
}

/// The value stored under `k`.
pub open spec fn value_at(s: Seq<Entry>, k: u32) -> Seq<u8> {
    s[index_of(s, k)].1
}

/// The values stored under `start .. start + n`.
pub open spec fn run_values(s: Seq<Entry>, start: int, n: int) -> Seq<Seq<u8>> {
    Seq::new(n as nat, |j: int| value_at(s, (start + j) as u32))
}

/// `s` after reading keys `start .. start + n` in order.
pub open spec fn touch_run(s: Seq<Entry>, start: int, n: int) -> Seq<Entry>
    decreases n,
{
    if n <= 0 {
        s
    } else {
        touch(touch_run(s, start, n - 1), (start + n - 1) as u32)
    }
}

/// `s` after storing `ls[j]` under `base + j`, in order.
pub open spec fn store_run(s: Seq<Entry>, cap: int, base: int, ls: Seq<Seq<u8>>) -> Seq<Entry>
    decreases ls.len(),
{
    if ls.len() == 0 {
        s
    } else {
        store(store_run(s, cap, base, ls.drop_last()), cap, (base + ls.len() - 1) as u32, ls.last())
    }
}

/// End of the read-ahead window of a request for `start..end`: the span
/// times the factor, capped, past `end`, saturating at `u32::MAX`.
pub open spec fn window_end(start: u32, end: u32) -> u32 {
    let extra = min_int((end - start) * PREFETCH_FACTOR, PREFETCH_MAX as int);
    min_int(end + extra, u32::MAX as int) as u32
}

/// The first `n` lines of `ls`, or all of them when there are fewer.
pub open spec fn prefix(ls: Seq<Seq<u8>>, n: int) -> Seq<Seq<u8>> {
    ls.take(min_int(ls.len() as int, n))
}

/// What `lines(start..end)` returns on a cache holding `s`, reading
/// through an index with `offsets` on `file`: the lines cached in a row
/// from `start`, then the first ones of the read-ahead window fetched from
/// the first miss.
pub open spec fn lines_result(
    s: Seq<Entry>,
    offsets: Seq<u64>,
    file: Seq<u8>,
    start: u32,
    end: u32,
) -> Seq<Seq<u8>> {
    let h = run_len(s, start as int, end as int);
    let m = start + h;
    let hits = run_values(s, start as int, h as int);
    if m < end {
        hits + prefix(lines_of(offsets, file, m as u32, window_end(start, end)), end - m)
    } else {
        hits
    }
}

/// The cache after `lines(start..end)`: the hits read as uses, then every
/// line of the read-ahead window stored.
pub open spec fn lines_state(
    s: Seq<Entry>,
    cap: int,
    offsets: Seq<u64>,
    file: Seq<u8>,
    start: u32,
    end: u32,
) -> Seq<Entry> {
    let h = run_len(s, start as int, end as int);
    let m = start + h;
    let w = window_end(start, end);
    let touched = touch_run(s, start as int, h as int);
    if m < end {
        store_run(touched, cap, m, prefix(lines_of(offsets, file, m as u32, w), w - m))
    } else {
        touched
    }
}

proof fn lemma_touch(s: Seq<Entry>, k: u32)
    requires
        keys_unique(s),
    ensures
        keys_unique(touch(s, k)),
        touch(s, k).len() == s.len(),
        forall|j: u32| #[trigger] has_key(touch(s, k), j) == has_key(s, j),
        forall|j: u32| has_key(s, j) ==> #[trigger] value_at(touch(s, k), j) == value_at(s, j),
{
    let t = touch(s, k);
    if has_key(s, k) {
        let i = index_of(s, k);
        assert forall|p: int| 0 <= p < t.len() implies #[trigger] t[p] == if p == t.len() - 1 {
            s[i]
        } else if p < i {
            s[p]
        } else {
            s[p + 1]
        } by {}
        assert forall|a: int, b: int| 0 <= a < b < t.len() implies t[a].0 != t[b].0 by {
            assert(t[a] == if a < i { s[a] } else { s[a + 1] });
            if b == t.len() - 1 {
                assert(t[b] == s[i]);
            } else {
                assert(t[b] == if b < i { s[b] } else { s[b + 1] });
            }
        }
        assert forall|j: u32| #[trigger] has_key(t, j) == has_key(s, j) by {
            if has_key(s, j) {
                let q = index_of(s, j);
                let p = if q == i {
                    t.len() - 1
                } else if q < i {
                    q
                } else {
                    q - 1
                };
                assert(t[p] == s[q]);
            }
            if has_key(t, j) {
                let p = index_of(t, j);
                let q = if p == t.len() - 1 {
                    i
                } else if p < i {
                    p
                } else {
                    p + 1
                };
                assert(t[p] == s[q]);
            }
        }
        assert forall|j: u32| has_key(s, j) implies #[trigger] value_at(t, j) == value_at(s, j) by {
            let q = index_of(s, j);
            let p = if q == i {
                t.len() - 1
            } else if q < i {
                q
            } else {
                q - 1
            };
            assert(t[p] == s[q]);
            assert(has_key(t, j));
            let found = index_of(t, j);
            assert(t[found].0 == j);
            if found != p {
                if found < p {
                    assert(t[found].0 != t[p].0);
                } else {
                    assert(t[p].0 != t[found].0);
                }
            }
        }
    }
}

proof fn lemma_touch_run(s: Seq<Entry>, start: int, n: int)
    requires
        keys_unique(s),
    ensures
        keys_unique(touch_run(s, start, n)),
        forall|j: u32| #[trigger] has_key(touch_run(s, start, n), j) == has_key(s, j),
        forall|j: u32|
            has_key(s, j) ==> #[trigger] value_at(touch_run(s, start, n), j) == value_at(s, j),
    decreases n,
{
    if n > 0 {
        lemma_touch_run(s, start, n - 1);
        lemma_touch(touch_run(s, start, n - 1), (start + n - 1) as u32);
    }
}

proof fn lemma_run_len_step(s: Seq<Entry>, start: int, i: int, end: int)
    requires
        0 <= start <= i < end <= u32::MAX,
        has_key(s, i as u32),
        run_len(s, start, end) == (i - start) + run_len(s, i, end),
    ensures
        run_len(s, start, end) == (i + 1 - start) + run_len(s, i + 1, end),
{
}

/// Line contents by line number, bounded by a byte budget.
pub struct LineCache {
    store: WeightedLru,
}

/// What a request finds in the cache: the lines stored in a row from its
/// start, and the window to fetch when that run stops short of its end.
pub struct Lookup {
    pub hits: Vec<Vec<u8>>,
    pub fetch: Option<(u32, u32)>,
}

impl LineCache {
    /// The cached entries, least recently used first.
    pub closed spec fn view(&self) -> Seq<Entry> {
        self.store@
    }

    pub closed spec fn cap(&self) -> int {
        self.store.cap()
    }

    pub closed spec fn wf(&self) -> bool {
        self.store.wf()
    }

    /// An empty cache with the default budget.
    pub fn new() -> (r: LineCache)
        ensures
            r.wf(),
            r@ == Seq::<Entry>::empty(),
            r.cap() == CACHE_MAX_CAPACITY,
    {
        LineCache { store: WeightedLru::new(CACHE_MAX_CAPACITY) }
    }

    /// An empty cache with a budget of `capacity` bytes.
    pub fn with_capacity(capacity: u64) -> (r: LineCache)
        ensures
            r.wf(),
            r@ == Seq::<Entry>::empty(),
            r.cap() == capacity,
    {
        LineCache { store: WeightedLru::new(capacity) }
    }

    /// Total weight of the cached lines.
    pub fn weight(&self) -> (r: u64)
        requires
            self.wf(),
        ensures
            r == crate::lru::total_weight(self@),
            r <= self.cap(),
    {
        self.store.total()
    }

    /// Number of cached lines.
    pub fn cached_len(&self) -> (r: usize)
        ensures
            r == self@.len(),
    {
        self.store.len()
    }

    /// Whether line `n` is cached; does not count as a use.
    pub fn contains(&self, n: u32) -> (r: bool)
        requires
            self.wf(),
        ensures
            r == has_key(self@, n),
    {
        self.store.contains(n)
    }

    /// Drops the cached content of line `n`, so that the next read fetches
    /// it again.
    pub fn invalidate(&mut self, n: u32)
        requires
            old(self).wf(),
        ensures
            final(self).wf(),
            final(self).cap() == old(self).cap(),
            final(self)@ == detach(old(self)@, n),
    {
        self.store.remove(n);
    }

    /// The lines cached in a row from `start` below `end`, each read as a
    /// use, and the read-ahead window to fetch when the run stops short of
    /// `end`.
    pub fn lookup(&mut self, start: u32, end: u32) -> (r: Lookup)
        requires
            old(self).wf(),
        ensures
            final(self).wf(),
            final(self).cap() == old(self).cap(),
            ({
                let h = run_len(old(self)@, start as int, end as int);
                &&& final(self)@ == touch_run(old(self)@, start as int, h as int)
                &&& deep(r.hits@) == run_values(old(self)@, start as int, h as int)
                &&& r.fetch == if start + h < end {
                    Some(((start + h) as u32, window_end(start, end)))
                } else {
                    None::<(u32, u32)>
                }
            }),
    {
        let ghost s0 = self@;
        let mut hits: Vec<Vec<u8>> = Vec::new();
        let mut i: u32 = start;
        proof {
            self.store.lemma_unique();
            lemma_touch_run(s0, start as int, 0);
        }
        while i < end && self.store.contains(i)
            invariant
                start <= i,
                i <= end || start >= end,
                self.wf(),
                self.cap() == old(self).cap(),
                keys_unique(s0),
                start >= end ==> i == start,
                self@ == touch_run(s0, start as int, i - start),
                forall|j: u32| #[trigger] has_key(self@, j) == has_key(s0, j),
                forall|j: u32| has_key(s0, j) ==> #[trigger] value_at(self@, j) == value_at(s0, j),
                run_len(s0, start as int, end as int) == (i - start) + run_len(s0, i as int, end as int),
                deep(hits@) == run_values(s0, start as int, i - start),
            decreases end - i,
        {
            let ghost before = self@;
            let v = self.store.get(i);
            proof {
                lemma_run_len_step(s0, start as int, i as int, end as int);
                lemma_touch_run(s0, start as int, i - start + 1);
                assert(touch_run(s0, start as int, i - start + 1) == touch(before, i));
                assert(lookup(before, i) == Some(value_at(before, i)));
            }
            match v {
                Some(v) => {
                    let ghost old_hits = hits@;
                    assert(v@ == value_at(s0, i));
                    hits.push(v);
                    assert(deep(hits@) =~= deep(old_hits).push(v@));
                    assert(deep(hits@) =~= run_values(s0, start as int, i + 1 - start));
                },
                None => {},
            }
            i = i + 1;
        }
        let fetch = if i < end {
            let span = end - start;
            let extra = if span > PREFETCH_MAX / PREFETCH_FACTOR {
                PREFETCH_MAX
            } else {
                span * PREFETCH_FACTOR
            };
            let w = if end > u32::MAX - extra {
                u32::MAX
            } else {
                end + extra
            };
            Some((i, w))
        } else {
            None
        };
        proof {
            if i < end {
                assert(!has_key(s0, i));
            }
        }
        Lookup { hits, fetch }
    }

    /// Stores `fetched[j]` as line `from + j`, for the lines below `to`,
    /// and returns the first `wanted` of them.
    pub fn fill(&mut self, from: u32, to: u32, fetched: Vec<Vec<u8>>, wanted: u32) -> (r: Vec<
        Vec<u8>,
    >)
        requires
            old(self).wf(),
            from <= to,
        ensures
            final(self).wf(),
            final(self).cap() == old(self).cap(),
            final(self)@ == store_run(
                old(self)@,
                old(self).cap(),
                from as int,
                prefix(deep(fetched@), to - from),
            ),
            deep(r@) == prefix(deep(fetched@), wanted as int),
    {
        let ghost s0 = self@;
        let ghost ls = deep(fetched@);
        let k: usize = if fetched.len() < (to - from) as usize {
            fetched.len()
        } else {
            (to - from) as usize
        };
        let mut j: usize = 0;
        assert(ls.take(0) =~= Seq::<Seq<u8>>::empty());
        while j < k
            invariant
                j <= k,
                k <= fetched@.len(),
                k <= to - from,
                ls == deep(fetched@),
                self.wf(),
                self.cap() == old(self).cap(),
                self@ == store_run(s0, self.cap(), from as int, ls.take(j as int)),
            decreases k - j,
        {
            let line = fetched[j].clone();
            assert(line@ =~= fetched@[j as int]@);
            self.store.insert(from + j as u32, line);
            assert(ls.take(j + 1).drop_last() =~= ls.take(j as int));
            j = j + 1;
        }
        assert(prefix(ls, to - from) =~= ls.take(k as int));
        let mut out = fetched;
        if (wanted as usize) < out.len() {
            out.truncate(wanted as usize);
        }
        assert(deep(out@) =~= prefix(ls, wanted as int));
        out
    }

    /// Lines `start..end` of `file`: the ones cached in a row from `start`,
    /// then, from the first miss, the lines read through `reader`. The read
    /// covers a read-ahead window past `end`, and every line it returns is
    /// cached.
    pub fn lines(&mut self, reader: &LineIndexReader, file: &[u8], start: u32, end: u32) -> (r: Vec<
        Vec<u8>,
    >)
        requires
            old(self).wf(),
        ensures
            final(self).wf(),
            final(self).cap() == old(self).cap(),
            deep(r@) == lines_result(old(self)@, reader@, file@, start, end),
            final(self)@ == lines_state(old(self)@, old(self).cap(), reader@, file@, start, end),
    {
        let found = self.lookup(start, end);
        let mut hits = found.hits;
        match found.fetch {
            None => hits,
            Some((m, w)) => {
                let fetched = reader.lines(file, m, w);
                let mut rest = self.fill(m, w, fetched, end - m);
                let ghost h0 = deep(hits@);
                let ghost r0 = deep(rest@);
                hits.append(&mut rest);
                assert(deep(hits@) =~= h0 + r0);
                hits
            },
        }
    }

    /// Line `n` of `file`: the cached content when there is one (read as a
    /// use), else the first line of a fetch of `n..n + 1`.
    pub fn line(&mut self, reader: &LineIndexReader, file: &[u8], n: u32) -> (r: Option<Vec<u8>>)
        requires
            old(self).wf(),
        ensures
            final(self).wf(),
            final(self).cap() == old(self).cap(),
            has_key(old(self)@, n) ==> {
                &&& r is Some
                &&& r->0@ == value_at(old(self)@, n)
                &&& final(self)@ == touch(old(self)@, n)
            },
            !has_key(old(self)@, n) && n < u32::MAX ==> {
                let w = window_end(n, (n + 1) as u32);
                let f = lines_of(reader@, file@, n, w);
                &&& (f.len() == 0 ==> r is None)
                &&& (f.len() > 0 ==> r is Some && r->0@ == f[0])
                &&& final(self)@ == store_run(old(self)@, old(self).cap(), n as int, prefix(f, w - n))
            },
            !has_key(old(self)@, n) && n == u32::MAX ==> r is None && final(self)@ == old(self)@,
    {
        if self.store.contains(n) {
            let v = self.store.get(n);
            return v;
        }
        if n == u32::MAX {
            return None;
        }
        let ghost s0 = self@;
        let ghost w = window_end(n, (n + 1) as u32);
        let ghost f = lines_of(reader@, file@, n, w);
        let mut ls = self.lines(reader, file, n, n + 1);
        proof {
            assert(run_len(s0, n as int, n + 1) == 0);
            assert(touch_run(s0, n as int, 0) == s0);
            assert(run_values(s0, n as int, 0) =~= Seq::<Seq<u8>>::empty());
            assert(run_values(s0, n as int, 0) + prefix(f, 1) =~= prefix(f, 1));
            assert(deep(ls@) == prefix(f, 1));
            if ls@.len() > 0 {
                assert(deep(ls@)[0] == ls@[0]@);
            }
        }
        if ls.len() > 0 {
            Some(ls.swap_remove(0))
        } else {
            None
        }
    }

    /// The cached content of each line of `start..end`, or `None` where it
    /// is not cached. Reads nothing; each cached line counts as a use.
    pub fn lines_opt(&mut self, start: u32, end: u32) -> (r: Vec<Option<Vec<u8>>>)
        requires
            old(self).wf(),
        ensures
            final(self).wf(),
            final(self).cap() == old(self).cap(),
            r@.len() == if start < end {
                end - start
            } else {
                0
            },
            forall|j: int|
                0 <= j < r@.len() ==> match #[trigger] r@[j] {
                    Some(v) => has_key(old(self)@, (start + j) as u32) && v@ == value_at(
                        old(self)@,
                        (start + j) as u32,
                    ),
                    None => !has_key(old(self)@, (start + j) as u32),
                },
            final(self)@ == touch_run(old(self)@, start as int, r@.len() as int),
    {
        let ghost s0 = self@;
        let mut out: Vec<Option<Vec<u8>>> = Vec::new();
        let mut i: u32 = start;
        proof {
            self.store.lemma_unique();
            lemma_touch_run(s0, start as int, 0);
        }
        while i < end
            invariant
                start <= i,
                i <= end || start >= end,
                start >= end ==> i == start,
                self.wf(),
                self.cap() == old(self).cap(),
                keys_unique(s0),
                out@.len() == i - start,
                self@ == touch_run(s0, start as int, i - start),
                forall|j: u32| #[trigger] has_key(self@, j) == has_key(s0, j),
                forall|j: u32| has_key(s0, j) ==> #[trigger] value_at(self@, j) == value_at(s0, j),
                forall|j: int|
                    0 <= j < out@.len() ==> match #[trigger] out@[j] {
                        Some(v) => has_key(s0, (start + j) as u32) && v@ == value_at(
                            s0,
                            (start + j) as u32,
                        ),
                        None => !has_key(s0, (start + j) as u32),
                    },
            decreases end - i,
        {
            let ghost before = self@;
            let v = self.store.get(i);
            proof {
                lemma_touch_run(s0, start as int, i - start + 1);
                assert(touch_run(s0, start as int, i - start + 1) == touch(before, i));
                if has_key(before, i) {
                    assert(lookup(before, i) == Some(value_at(before, i)));
                }
            }
            out.push(v);
            i = i + 1;
        }
        out
    }
}

} // verus!
