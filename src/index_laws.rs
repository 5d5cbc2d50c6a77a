//! What the offset index guarantees across calls: its length, its
//! agreement with the file after building and updating, what truncation
//! does to it, and how many lines a range read returns.
use vstd::prelude::*;

use crate::index::{
    appended, consistency_of, entry_ok, first_bad, lemma_breaks_bounds, lemma_first_bad_none, lines_of, min,
    offsets_wf, IndexConsistency,
};
use crate::lines::{
    breaks, closed_lines, count_nl, has_open_line, is_break, line_starts, open_tail, split, NL,
};

verus! {

proof fn lemma_count_nl_concat(a: Seq<u8>, b: Seq<u8>)
    ensures
        count_nl(a + b) == count_nl(a) + count_nl(b),
    decreases b.len(),
{
    if b.len() > 0 {
        assert((a + b).drop_last() =~= a + b.drop_last());
        lemma_count_nl_concat(a, b.drop_last());
    } else {
        assert(a + b =~= a);
    }
}

/// `breaks(s, 1, n)` holds one entry per terminator before position
/// `n - 1`, and its `j`-th entry has exactly `j + 1` terminators before it.
proof fn lemma_breaks_count(s: Seq<u8>, n: int)
    requires
        1 <= n <= s.len(),
        s.len() <= u64::MAX,
    ensures
        breaks(s, 1, n).len() == count_nl(s.subrange(0, n - 1)),
        forall|j: int|
            0 <= j < breaks(s, 1, n).len() ==> count_nl(
                s.subrange(0, #[trigger] breaks(s, 1, n)[j] as int),
            ) == j + 1,
    decreases n,
{
    if n == 1 {
        assert(s.subrange(0, 0) =~= Seq::<u8>::empty());
    } else {
        lemma_breaks_count(s, n - 1);
        assert(s.subrange(0, n - 1).drop_last() =~= s.subrange(0, n - 2));
    }
}

proof fn lemma_breaks_split(s: Seq<u8>, lo: int, m: int, hi: int)
    requires
        lo <= m <= hi,
    ensures
        breaks(s, lo, hi) == breaks(s, lo, m) + breaks(s, m, hi),
    decreases hi - m,
{
    if m == hi {
        assert(breaks(s, lo, hi) =~= breaks(s, lo, m) + breaks(s, m, hi));
    } else {
        lemma_breaks_split(s, lo, m, hi - 1);
        assert(breaks(s, lo, hi) =~= breaks(s, lo, m) + breaks(s, m, hi));
    }
}

proof fn lemma_breaks_agree(s: Seq<u8>, t: Seq<u8>, lo: int, hi: int)
    requires
        hi <= s.len(),
        hi <= t.len(),
        forall|p: int| 0 <= p < hi ==> s[p] == t[p],
    ensures
        breaks(s, lo, hi) == breaks(t, lo, hi),
    decreases hi - lo,
{
    if hi > lo {
        lemma_breaks_agree(s, t, lo, hi - 1);
        assert(is_break(s, hi - 1) == is_break(t, hi - 1));
    }
}

proof fn lemma_line_starts_props(s: Seq<u8>)
    requires
        s.len() <= u64::MAX,
    ensures
        offsets_wf(line_starts(s)),
        forall|k: int|
            1 <= k < line_starts(s).len() ==> is_break(s, #[trigger] line_starts(s)[k] as int),
        forall|k: int| 0 <= k < line_starts(s).len() ==> #[trigger] line_starts(s)[k] < s.len(),
{
    if s.len() > 0 {
        let b = breaks(s, 1, s.len() as int);
        lemma_breaks_bounds(s, 1, s.len() as int);
        let ls = line_starts(s);
        assert forall|k: int| 1 <= k < ls.len() implies is_break(s, #[trigger] ls[k] as int) by {
            assert(ls[k] == b[k - 1]);
        }
        assert forall|i: int, j: int| 0 <= i < j < ls.len() implies ls[i] < ls[j] by {
            if i > 0 {
                assert(ls[i] == b[i - 1]);
            }
            assert(ls[j] == b[j - 1]);
        }
        assert forall|k: int| 0 <= k < ls.len() implies #[trigger] ls[k] < s.len() by {
            if k > 0 {
                assert(ls[k] == b[k - 1]);
            }
        }
    }
}

/// The number of terminators before line start `k` is `k`.
proof fn lemma_nl_before_start(s: Seq<u8>, k: int)
    requires
        s.len() <= u64::MAX,
        0 <= k < line_starts(s).len(),
    ensures
        count_nl(s.subrange(0, line_starts(s)[k] as int)) == k,
{
    if k == 0 {
        assert(s.subrange(0, 0) =~= Seq::<u8>::empty());
    } else {
        lemma_breaks_count(s, s.len() as int);
        assert(line_starts(s)[k] == breaks(s, 1, s.len() as int)[k - 1]);
    }
}

proof fn lemma_first_bad_none_from(offsets: Seq<u64>, file: Seq<u8>, i: int)
    requires
        i >= 1,
        forall|k: int| i <= k < offsets.len() ==> entry_ok(file, #[trigger] offsets[k]),
    ensures
        first_bad(offsets, file, i) is None,
    decreases offsets.len() - i,
{
    if i < offsets.len() {
        lemma_first_bad_none_from(offsets, file, i + 1);
    }
}

proof fn lemma_first_bad_some(offsets: Seq<u64>, file: Seq<u8>, i: int, k: int)
    requires
        1 <= i <= k < offsets.len(),
        forall|j: int| i <= j < k ==> entry_ok(file, #[trigger] offsets[j]),
        !entry_ok(file, offsets[k]),
    ensures
        first_bad(offsets, file, i) == Some(k),
    decreases k - i,
{
    if i < k {
        lemma_first_bad_some(offsets, file, i + 1, k);
    }
}

/// No line start of `s` comes after its last one.
proof fn lemma_nothing_after_last(s: Seq<u8>)
    requires
        s.len() <= u64::MAX,
        s.len() > 0,
    ensures
        breaks(s, line_starts(s).last() + 1, s.len() as int).len() == 0,
        breaks(s, 1, s.len() as int) == breaks(s, 1, line_starts(s).last() + 1),
{
    let n = s.len() as int;
    let last = line_starts(s).last() as int;
    let b = breaks(s, 1, n);
    lemma_breaks_bounds(s, 1, n);
    if b.len() > 0 {
        assert(last == b.last());
    } else {
        assert(last == 0);
    }
    lemma_breaks_split(s, 1, last + 1, n);
    lemma_breaks_bounds(s, last + 1, n);
    let tail = breaks(s, last + 1, n);
    if tail.len() > 0 {
        assert(b.last() == tail.last());
        assert(tail.last() >= last + 1);
    }
    assert(breaks(s, 1, line_starts(s).last() + 1) + tail =~= b);
}

/// Indexing a file gives one entry per terminated line, plus one for an
/// open trailing line.
pub proof fn lemma_index_len(s: Seq<u8>)
    requires
        s.len() <= u64::MAX,
    ensures
        line_starts(s).len() == count_nl(s) + if has_open_line(s) {
            1int
        } else {
            0int
        },
{
    if s.len() > 0 {
        let n = s.len() as int;
        lemma_breaks_count(s, n);
        assert(s.subrange(0, n - 1) =~= s.drop_last());
    }
}

/// A freshly built index agrees with its file.
pub proof fn lemma_built_is_consistent(s: Seq<u8>)
    requires
        s.len() <= u64::MAX,
    ensures
        consistency_of(line_starts(s), s) == IndexConsistency::Consistent,
{
    lemma_line_starts_props(s);
    let ls = line_starts(s);
    assert forall|k: int| 1 <= k < ls.len() implies entry_ok(s, #[trigger] ls[k]) by {
        assert(is_break(s, ls[k] as int));
    }
    lemma_first_bad_none_from(ls, s, 1);
}

/// Updating a freshly built index against the unchanged file finds it
/// consistent and appends nothing.
pub proof fn lemma_update_unchanged(s: Seq<u8>)
    requires
        s.len() <= u64::MAX,
    ensures
        consistency_of(line_starts(s), s) == IndexConsistency::Consistent,
        appended(line_starts(s), s).len() == 0,
{
    lemma_built_is_consistent(s);
    if s.len() > 0 {
        lemma_nothing_after_last(s);
    }
}

/// An update keeps the index consistent: the table it leaves agrees with
/// the file it was updated against.
pub proof fn lemma_update_keeps_consistent(offsets: Seq<u64>, s: Seq<u8>)
    requires
        s.len() <= u64::MAX,
        offsets_wf(offsets),
        consistency_of(offsets, s) == IndexConsistency::Consistent,
    ensures
        consistency_of(offsets + appended(offsets, s), s) == IndexConsistency::Consistent,
{
    let all = offsets + appended(offsets, s);
    if offsets.len() == 0 {
        assert(all =~= line_starts(s));
        lemma_built_is_consistent(s);
    } else {
        let extra = appended(offsets, s);
        lemma_breaks_bounds(s, offsets.last() + 1, s.len() as int);
        assert forall|k: int| 1 <= k < all.len() implies entry_ok(s, #[trigger] all[k]) by {
            if k < offsets.len() {
                lemma_first_bad_none(offsets, s, 1, k);
                assert(all[k] == offsets[k]);
            } else {
                assert(all[k] == extra[k - offsets.len()]);
                assert(is_break(s, extra[k - offsets.len()] as int));
            }
        }
        lemma_first_bad_none_from(all, s, 1);
    }
}

/// Once a file only grows, updating its index gives the index of the grown
/// file, as a rebuild would.
pub proof fn lemma_update_matches_rebuild(t: Seq<u8>, u: Seq<u8>)
    requires
        (t + u).len() <= u64::MAX,
    ensures
        consistency_of(line_starts(t), t + u) == IndexConsistency::Consistent,
        line_starts(t) + appended(line_starts(t), t + u) == line_starts(t + u),
{
    let s = t + u;
    let ls = line_starts(t);
    lemma_line_starts_props(t);
    assert forall|k: int| 1 <= k < ls.len() implies entry_ok(s, #[trigger] ls[k]) by {
        assert(is_break(t, ls[k] as int));
        assert(s[ls[k] - 1] == t[ls[k] - 1]);
    }
    lemma_first_bad_none_from(ls, s, 1);
    if t.len() == 0 {
        assert(ls + appended(ls, s) =~= line_starts(s));
    } else {
        let last = ls.last() as int;
        lemma_nothing_after_last(t);
        lemma_breaks_split(s, 1, last + 1, s.len() as int);
        lemma_breaks_agree(s, t, 1, last + 1);
        assert(ls =~= seq![0u64] + breaks(t, 1, last + 1));
        assert(ls + appended(ls, s) =~= line_starts(s));
    }
}

/// Appending `u` to a file that ends with a terminated line (or is empty)
/// and then updating appends one entry per line of `u` and returns that
/// count; in particular `M` terminated lines add exactly `M`.
pub proof fn lemma_append_count(t: Seq<u8>, u: Seq<u8>)
    requires
        (t + u).len() <= u64::MAX,
        !has_open_line(t),
    ensures
        consistency_of(line_starts(t), t + u) == IndexConsistency::Consistent,
        appended(line_starts(t), t + u).len() == count_nl(u) + if has_open_line(u) {
            1int
        } else {
            0int
        },
{
    lemma_update_matches_rebuild(t, u);
    lemma_index_len(t);
    lemma_index_len(t + u);
    lemma_count_nl_concat(t, u);
    if u.len() == 0 {
        assert(t + u =~= t);
    } else {
        assert((t + u).last() == u.last());
    }
    assert((line_starts(t) + appended(line_starts(t), t + u)).len() == line_starts(t).len()
        + appended(line_starts(t), t + u).len());
}

/// Cutting a file at `m`, after line `k - 1` starts and before line `k`
/// starts, makes the consistency check report line `k`.
pub proof fn lemma_truncation_detected(s: Seq<u8>, m: int, k: int)
    requires
        s.len() <= u64::MAX,
        1 <= k < line_starts(s).len(),
        line_starts(s)[k - 1] <= m < line_starts(s)[k],
    ensures
        consistency_of(line_starts(s), s.subrange(0, m)) == IndexConsistency::Inconsistent(
            k as usize,
        ),
{
    let ls = line_starts(s);
    let cut = s.subrange(0, m);
    lemma_line_starts_props(s);
    assert forall|j: int| 1 <= j < k implies entry_ok(cut, #[trigger] ls[j]) by {
        assert(is_break(s, ls[j] as int));
        if j < k - 1 {
            assert(ls[j] < ls[k - 1]);
        }
        assert(cut[ls[j] - 1] == s[ls[j] - 1]);
    }
    lemma_first_bad_some(ls, cut, 1, k);
}

proof fn lemma_closed_lines_len(s: Seq<u8>)
    ensures
        closed_lines(s).len() == count_nl(s),
    decreases s.len(),
{
    if s.len() > 0 {
        lemma_closed_lines_len(s.drop_last());
    }
}

proof fn lemma_split_len(s: Seq<u8>)
    ensures
        split(s).len() == count_nl(s) + if has_open_line(s) {
            1int
        } else {
            0int
        },
{
    lemma_closed_lines_len(s);
}

/// On a file indexed as it stands, reading lines `a..b` returns
/// `min(b, L) - a` lines, where `L` is the number of lines, and none when
/// that is not positive.
pub proof fn lemma_lines_count(s: Seq<u8>, a: u32, b: u32)
    requires
        s.len() <= u64::MAX,
    ensures
        lines_of(line_starts(s), s, a, b).len() == if a < min(
            b as int,
            line_starts(s).len() as int,
        ) {
            min(b as int, line_starts(s).len() as int) - a
        } else {
            0
        },
{
    let ls = line_starts(s);
    let n = ls.len() as int;
    if a < b && a < n {
        lemma_line_starts_props(s);
        lemma_index_len(s);
        let lo = ls[a as int] as int;
        lemma_nl_before_start(s, a as int);
        let stop = if b < n {
            ls[b as int] as int
        } else {
            s.len() as int
        };
        let region = s.subrange(lo, stop);
        assert(s.subrange(0, stop) =~= s.subrange(0, lo) + region);
        lemma_count_nl_concat(s.subrange(0, lo), region);
        lemma_split_len(region);
        if b < n {
            lemma_nl_before_start(s, b as int);
            assert(is_break(s, stop));
            assert(region.last() == s[stop - 1]);
            assert(lines_of(ls, s, a, b) == split(region));
        } else {
            assert(s.subrange(0, stop) =~= s);
            assert(region.last() == s.last());
            assert(lines_of(ls, s, a, b) == split(region));
        }
    }
}

} // verus!
