//! The offset index: the byte offset at which each line of a file begins.
use vstd::prelude::*;

use crate::lines::{breaks, deep, is_break, line_starts, scan_breaks, split, split_region, NL};

verus! {

/// Whether a recorded index still agrees with the file.
#[derive(Debug, Clone, Copy, PartialEq, Eq, Structural)]
pub enum IndexConsistency {
    Consistent,
    /// The first entry whose offset no longer starts a line.
    Inconsistent(usize),
}

impl IndexConsistency {
    pub fn is_consistent(&self) -> (r: bool)
        ensures
            r == (*self == IndexConsistency::Consistent),
    {
        match self {
            IndexConsistency::Consistent => true,
            IndexConsistency::Inconsistent(_) => false,
        }
    }

    pub fn into_inconsistent(self) -> (r: Option<usize>)
        ensures
            r == match self {
                IndexConsistency::Consistent => None::<usize>,
                IndexConsistency::Inconsistent(k) => Some(k),
            },
    {
        match self {
            IndexConsistency::Consistent => None,
            IndexConsistency::Inconsistent(k) => Some(k),
        }
    }
}

/// Why an index could not be extended.
#[derive(Debug, Clone, Copy, PartialEq, Eq, Structural)]
pub enum Error {
    /// The file no longer matches the recorded offsets from this entry on.
    InconsistentIndex(usize),
}

/// Recorded offset `off` still starts a line of `file`: it lies within the
/// file and the byte before it is a terminator.
pub open spec fn entry_ok(file: Seq<u8>, off: u64) -> bool {
    1 <= off <= file.len() && file[off - 1] == NL
}

/// The first entry at or after `i` (never the first entry of the table)
/// that no longer starts a line of `file`.
pub open spec fn first_bad(offsets: Seq<u64>, file: Seq<u8>, i: int) -> Option<int>
    decreases offsets.len() - i,
{
    if i >= offsets.len() {
        None
    } else if i >= 1 && !entry_ok(file, offsets[i]) {
        Some(i)
    } else {
        first_bad(offsets, file, i + 1)
    }
}

/// What the consistency check reports of `offsets` against `file`.
pub open spec fn consistency_of(offsets: Seq<u64>, file: Seq<u8>) -> IndexConsistency {
    match first_bad(offsets, file, 1) {
        None => IndexConsistency::Consistent,
        Some(k) => IndexConsistency::Inconsistent(k as usize),
    }
}

/// The entries that an update appends: every line start of `file` after
/// the last recorded one, or all of them when nothing is recorded.
pub open spec fn appended(offsets: Seq<u64>, file: Seq<u8>) -> Seq<u64> {
    if offsets.len() == 0 {
        line_starts(file)
    } else {
        breaks(file, offsets.last() + 1, file.len() as int)
    }
}

/// `n` as a `u32`, saturating.
pub open spec fn sat_u32(n: int) -> u32 {
    if n > u32::MAX {
        u32::MAX
    } else {
        n as u32
    }
}

/// The half-open byte span read for lines `start..end`: its first byte,
/// and its end, or `None` to read to the end of the file. `None` as a
/// whole: nothing to read.
pub open spec fn span_of(offsets: Seq<u64>, start: u32, end: u32) -> Option<(u64, Option<u64>)> {
    if start < end && start < offsets.len() {
        Some(
            (
                offsets[start as int],
                if end < offsets.len() {
                    Some(offsets[end as int])
                } else {
                    None
                },
            ),
        )
    } else {
        None
    }
}

pub open spec fn min(a: int, b: int) -> int {
    if a <= b {
        a
    } else {
        b
    }
}

/// The line contents that `lines(start..end)` returns for `file`.
pub open spec fn lines_of(offsets: Seq<u64>, file: Seq<u8>, start: u32, end: u32) -> Seq<Seq<u8>> {
    match span_of(offsets, start, end) {
        None => seq![],
        Some((lo, hi)) => {
            let stop = match hi {
                Some(h) => min(h as int, file.len() as int),
                None => file.len() as int,
            };
            if lo <= stop {
                split(file.subrange(lo as int, stop))
            } else {
                seq![]
            }
        },
    }
}

/// Offsets strictly increase from 0.
pub open spec fn offsets_wf(offsets: Seq<u64>) -> bool {
    &&& offsets.len() > 0 ==> offsets[0] == 0
    &&& forall|i: int, j: int| 0 <= i < j < offsets.len() ==> offsets[i] < offsets[j]
}

/// Every element of `breaks(s, lo, hi)` lies in `[lo, hi)`, in strictly
/// increasing order.
pub proof fn lemma_breaks_bounds(s: Seq<u8>, lo: int, hi: int)
    requires
        s.len() <= u64::MAX,
    ensures
        forall|i: int|
            0 <= i < breaks(s, lo, hi).len() ==> lo <= #[trigger] breaks(s, lo, hi)[i] < hi
                && is_break(s, breaks(s, lo, hi)[i] as int),
        forall|i: int, j: int|
            0 <= i < j < breaks(s, lo, hi).len() ==> breaks(s, lo, hi)[i] < breaks(s, lo, hi)[j],
        breaks(s, lo, hi).len() <= if hi > lo {
            hi - lo
        } else {
            0
        },
    decreases hi - lo,
{
    if hi > lo {
        lemma_breaks_bounds(s, lo, hi - 1);
    }
}

pub struct LineIndexReader {
    offsets: Vec<u64>,
}

impl LineIndexReader {
    /// The recorded line offsets.
    pub closed spec fn view(&self) -> Seq<u64> {
        self.offsets@
    }

    pub closed spec fn wf(&self) -> bool {
        offsets_wf(self.offsets@)
    }

    /// Indexes the whole content of a file.
    pub fn index(content: &[u8]) -> (r: LineIndexReader)
        ensures
            r.wf(),
            r@ == line_starts(content@),
    {
        let mut offsets: Vec<u64> = Vec::new();
        if content.len() > 0 {
            offsets.push(0);
            let rest = scan_breaks(content, 1, content.len());
            proof {
                lemma_breaks_bounds(content@, 1, content@.len() as int);
            }
            let mut rest = rest;
            offsets.append(&mut rest);
            assert(offsets@ =~= line_starts(content@));
        } else {
            assert(offsets@ =~= line_starts(content@));
        }
        LineIndexReader { offsets }
    }

    /// Number of indexed lines, saturating at `u32::MAX`.
    pub fn len(&self) -> (r: u32)
        ensures
            r == sat_u32(self@.len() as int),
    {
        let n = self.offsets.len();
        if n > u32::MAX as usize {
            u32::MAX
        } else {
            n as u32
        }
    }

    /// Number of indexed lines.
    pub fn count(&self) -> (r: usize)
        ensures
            r == self@.len(),
    {
        self.offsets.len()
    }

    pub fn is_empty(&self) -> (r: bool)
        ensures
            r == (self@.len() == 0),
    {
        self.len() == 0
    }

    /// Checks every recorded offset but the first against `file`, in order,
    /// and reports the first one that no longer starts a line.
    pub fn consistency(&self, file: &[u8]) -> (r: IndexConsistency)
        requires
            self.wf(),
        ensures
            r == consistency_of(self@, file@),
    {
        let n = self.offsets.len();
        let mut i: usize = 1;
        while i < n
            invariant
                1 <= i,
                n == self@.len(),
                offsets_wf(self@),
                first_bad(self@, file@, 1) == first_bad(self@, file@, i as int),
            decreases n - i,
        {
            let off = self.offsets[i];
            assert(off > self@[0]);
            if off > file.len() as u64 || file[(off - 1) as usize] != NL {
                return IndexConsistency::Inconsistent(i);
            }
            i = i + 1;
        }
        IndexConsistency::Consistent
    }

    /// Re-checks the index against `file`, then records the lines found
    /// after the last recorded one, and returns how many were added.
    pub fn update(&mut self, file: &[u8]) -> (r: Result<u32, Error>)
        requires
            old(self).wf(),
        ensures
            final(self).wf(),
            match consistency_of(old(self)@, file@) {
                IndexConsistency::Inconsistent(k) => {
                    &&& r == Err::<u32, Error>(Error::InconsistentIndex(k))
                    &&& final(self)@ == old(self)@
                },
                IndexConsistency::Consistent => {
                    &&& final(self)@ == old(self)@ + appended(old(self)@, file@)
                    &&& r == Ok::<u32, Error>(sat_u32(appended(old(self)@, file@).len() as int))
                },
            },
    {
        match self.consistency(file) {
            IndexConsistency::Inconsistent(k) => {
                return Err(Error::InconsistentIndex(k));
            },
            IndexConsistency::Consistent => {},
        }
        let n = self.offsets.len();
        let mut added: Vec<u64>;
        if n == 0 {
            let fresh = LineIndexReader::index(file);
            added = fresh.offsets;
        } else {
            let last = self.offsets[n - 1];
            proof {
                if n > 1 {
                    lemma_first_bad_none(self@, file@, 1, n - 1);
                }
            }
            added = scan_breaks_from(file, last);
        }
        let count = added.len();
        // the length of a slice fits in a u64, and so does every offset
        let flen = file.len();
        let ghost before = self.offsets@;
        let ghost extra = added@;
        proof {
            if n > 0 {
                lemma_breaks_bounds(file@, before.last() + 1, file@.len() as int);
            }
        }
        self.offsets.append(&mut added);
        assert(self.offsets@ =~= before + extra);
        if count > u32::MAX as usize {
            Ok(u32::MAX)
        } else {
            Ok(count as u32)
        }
    }

    /// The byte span that holds lines `start..end`.
    pub fn byte_range(&self, start: u32, end: u32) -> (r: Option<(u64, Option<u64>)>)
        ensures
            r == span_of(self@, start, end),
    {
        let n = self.offsets.len();
        if start < end && (start as usize) < n {
            let lo = self.offsets[start as usize];
            let hi = if (end as usize) < n {
                Some(self.offsets[end as usize])
            } else {
                None
            };
            Some((lo, hi))
        } else {
            None
        }
    }

    /// The contents of lines `start..end` of `file`. A start past the last
    /// line gives nothing; an end past it reads to the end of the file.
    pub fn lines(&self, file: &[u8], start: u32, end: u32) -> (r: Vec<Vec<u8>>)
        ensures
            deep(r@) == lines_of(self@, file@, start, end),
    {
        match self.byte_range(start, end) {
            None => Vec::new(),
            Some((lo, hi)) => {
                let flen = file.len() as u64;
                let stop = match hi {
                    Some(h) => if h < flen {
                        h
                    } else {
                        flen
                    },
                    None => flen,
                };
                if lo <= stop {
                    split_region(file, lo as usize, stop as usize)
                } else {
                    Vec::new()
                }
            },
        }
    }

    /// The content of line `n` of `file`.
    pub fn line(&self, file: &[u8], n: u32) -> (r: Option<Vec<u8>>)
        ensures
            n < u32::MAX && lines_of(self@, file@, n, (n + 1) as u32).len() > 0 ==> r is Some
                && r->0@ == lines_of(self@, file@, n, (n + 1) as u32)[0],
            !(n < u32::MAX && lines_of(self@, file@, n, (n + 1) as u32).len() > 0) ==> r is None,
    {
        if n == u32::MAX {
            return None;
        }
        let mut ls = self.lines(file, n, n + 1);
        if ls.len() > 0 {
            let l = ls.swap_remove(0);
            Some(l)
        } else {
            None
        }
    }
}

/// Every entry from `i` on is still a line start when none is found bad.
pub proof fn lemma_first_bad_none(offsets: Seq<u64>, file: Seq<u8>, i: int, k: int)
    requires
        1 <= i <= k < offsets.len(),
        first_bad(offsets, file, i) is None,
    ensures
        entry_ok(file, offsets[k]),
    decreases k - i,
{
    if i < k {
        lemma_first_bad_none(offsets, file, i + 1, k);
    }
}

/// The line starts of `file` after position `last`.
fn scan_breaks_from(file: &[u8], last: u64) -> (r: Vec<u64>)
    requires
        last <= file@.len(),
    ensures
        r@ == breaks(file@, last + 1, file@.len() as int),
{
    if last as usize >= file.len() {
        let r: Vec<u64> = Vec::new();
        assert(r@ =~= breaks(file@, last + 1, file@.len() as int));
        r
    } else {
        scan_breaks(file, (last + 1) as usize, file.len())
    }
}

} // verus!
