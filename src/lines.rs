//! Line structure of a byte sequence: where lines begin, and how a region
//! of bytes splits into line contents.
use vstd::prelude::*;

verus! {

/// The line terminator.
pub const NL: u8 = 10;

/// A carriage return, dropped when it stands right before a terminator.
pub const CR: u8 = 13;

/// `p` is the start of a line that follows a terminator in `s`.
pub open spec fn is_break(s: Seq<u8>, p: int) -> bool {
    0 < p < s.len() && s[p - 1] == NL
}

/// The positions `p` with `lo <= p < hi` at which a line follows a
/// terminator, in increasing order.
pub open spec fn breaks(s: Seq<u8>, lo: int, hi: int) -> Seq<u64>
    decreases hi - lo,
{
    if hi <= lo {
        seq![]
    } else {
        let prev = breaks(s, lo, hi - 1);
        if is_break(s, hi - 1) {
            prev.push((hi - 1) as u64)
        } else {
            prev
        }
    }
}

/// The byte offset of every line start of `s`: the first byte, and every
/// byte that follows a terminator. A trailing line without a terminator
/// counts as a line.
pub open spec fn line_starts(s: Seq<u8>) -> Seq<u64> {
    if s.len() == 0 {
        seq![]
    } else {
        seq![0u64] + breaks(s, 1, s.len() as int)
    }
}

/// Number of terminators in `s`.
pub open spec fn count_nl(s: Seq<u8>) -> nat
    decreases s.len(),
{
    if s.len() == 0 {
        0
    } else {
        count_nl(s.drop_last()) + if s.last() == NL {
            1nat
        } else {
            0nat
        }
    }
}

/// `s` ends with a line that has no terminator yet.
pub open spec fn has_open_line(s: Seq<u8>) -> bool {
    s.len() > 0 && s.last() != NL
}

/// A line's content with a carriage return before its terminator removed.
pub open spec fn strip_cr(s: Seq<u8>) -> Seq<u8> {
    if s.len() > 0 && s.last() == CR {
        s.drop_last()
    } else {
        s
    }
}

/// The bytes of `s` after its last terminator.
pub open spec fn open_tail(s: Seq<u8>) -> Seq<u8>
    decreases s.len(),
{
    if s.len() == 0 {
        seq![]
    } else if s.last() == NL {
        seq![]
    } else {
        open_tail(s.drop_last()).push(s.last())
    }
}

/// The contents of the terminated lines of `s`, without terminators.
pub open spec fn closed_lines(s: Seq<u8>) -> Seq<Seq<u8>>
    decreases s.len(),
{
    if s.len() == 0 {
        seq![]
    } else if s.last() == NL {
        closed_lines(s.drop_last()).push(strip_cr(open_tail(s.drop_last())))
    } else {
        closed_lines(s.drop_last())
    }
}

/// The contents of all lines of `s`: the terminated ones, then the open
/// trailing line if there is one.
pub open spec fn split(s: Seq<u8>) -> Seq<Seq<u8>> {
    if has_open_line(s) {
        closed_lines(s).push(open_tail(s))
    } else {
        closed_lines(s)
    }
}

pub open spec fn deep(v: Seq<Vec<u8>>) -> Seq<Seq<u8>> {
    v.map_values(|l: Vec<u8>| l@)
}

proof fn lemma_open_tail_empty(s: Seq<u8>)
    ensures
        open_tail(s).len() == 0 <==> !has_open_line(s),
    decreases s.len(),
{
    if s.len() > 0 && s.last() != NL {
        assert(open_tail(s).len() == open_tail(s.drop_last()).len() + 1);
    }
}

/// The positions in `[lo, hi)` after a terminator, as found by a scan.
pub fn scan_breaks(file: &[u8], lo: usize, hi: usize) -> (r: Vec<u64>)
    requires
        1 <= lo <= hi <= file@.len(),
    ensures
        r@ == breaks(file@, lo as int, hi as int),
{
    let mut r: Vec<u64> = Vec::new();
    let mut i: usize = lo;
    while i < hi
        invariant
            1 <= lo <= i <= hi <= file@.len(),
            r@ == breaks(file@, lo as int, i as int),
        decreases hi - i,
    {
        if file[i - 1] == NL {
            r.push(i as u64);
        }
        i = i + 1;
    }
    r
}

fn strip_cr_exec(line: &mut Vec<u8>)
    ensures
        final(line)@ == strip_cr(old(line)@),
{
    let n = line.len();
    if n > 0 && line[n - 1] == CR {
        line.pop();
        assert(final(line)@ =~= strip_cr(old(line)@));
    }
}

/// Splits the bytes of `file` in `[lo, hi)` into line contents.
pub fn split_region(file: &[u8], lo: usize, hi: usize) -> (r: Vec<Vec<u8>>)
    requires
        lo <= hi <= file@.len(),
    ensures
        deep(r@) == split(file@.subrange(lo as int, hi as int)),
{
    let ghost s = file@;
    let mut out: Vec<Vec<u8>> = Vec::new();
    let mut cur: Vec<u8> = Vec::new();
    let mut i: usize = lo;
    assert(s.subrange(lo as int, lo as int) =~= Seq::<u8>::empty());
    assert(deep(out@) =~= Seq::<Seq<u8>>::empty());
    while i < hi
        invariant
            lo <= i <= hi <= s.len(),
            s == file@,
            deep(out@) == closed_lines(s.subrange(lo as int, i as int)),
            cur@ == open_tail(s.subrange(lo as int, i as int)),
        decreases hi - i,
    {
        let ghost prev = s.subrange(lo as int, i as int);
        let ghost next = s.subrange(lo as int, i + 1);
        assert(next.drop_last() =~= prev);
        assert(next.last() == s[i as int]);
        let b = file[i];
        if b == NL {
            let mut line = cur;
            strip_cr_exec(&mut line);
            let ghost old_out = out@;
            out.push(line);
            assert(deep(out@) =~= deep(old_out).push(line@));
            cur = Vec::new();
            assert(cur@ =~= open_tail(next));
        } else {
            cur.push(b);
        }
        i = i + 1;
    }
    let ghost whole = s.subrange(lo as int, hi as int);
    proof {
        lemma_open_tail_empty(whole);
    }
    if cur.len() > 0 {
        let ghost old_out = out@;
        out.push(cur);
        assert(deep(out@) =~= deep(old_out).push(open_tail(whole)));
    }
    out
}

/// Splits `buf` into line contents: every terminator ends a line, a
/// carriage return right before a terminator is dropped, and trailing bytes
/// without a terminator form a last line.
pub fn split_lines(buf: &[u8]) -> (r: Vec<Vec<u8>>)
    ensures
        deep(r@) == split(buf@),
{
    let r = split_region(buf, 0, buf.len());
    assert(buf@.subrange(0, buf@.len() as int) =~= buf@);
    r
}

} // verus!
